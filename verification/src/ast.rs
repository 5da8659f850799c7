//! The two trees and their mathematical models.

use vstd::prelude::*;

verus! {

/// A node of the document tree.
#[derive(Debug, PartialEq)]
pub enum Node {
    Document { children: Vec<NodeOrString> },
    Heading { level: u8, children: Vec<NodeOrString> },
    Paragraph { children: Vec<NodeOrString> },
    CodeBlock { info: Option<String>, content: String },
    List { ordered: bool, items: Vec<Node> },
    ListItem { children: Vec<NodeOrString> },
}

/// A child of a document node: raw text, or a nested node.
#[derive(Debug, PartialEq)]
pub enum NodeOrString {
    String(String),
    Node(Box<Node>),
}

/// A node of the configuration tree: a leaf, a list, or key-value entries in
/// the order in which their headings came.
#[derive(Debug, PartialEq)]
pub enum MinifiedNode {
    String(String),
    Array(Vec<MinifiedNode>),
    Mapping(Vec<(String, MinifiedNode)>),
}

/// The model of a [`Node`].
pub enum Tree {
    Document { children: Seq<Child> },
    Heading { level: u8, children: Seq<Child> },
    Paragraph { children: Seq<Child> },
    CodeBlock { info: Option<Seq<char>>, content: Seq<char> },
    List { ordered: bool, items: Seq<Tree> },
    ListItem { children: Seq<Child> },
}

/// The model of a [`NodeOrString`].
pub enum Child {
    Text(Seq<char>),
    Node(Tree),
}

/// The model of a [`MinifiedNode`].
pub enum Config {
    Leaf(Seq<char>),
    List(Seq<Config>),
    Mapping(Seq<(Seq<char>, Config)>),
}

/// The model of a node.
pub open spec fn node_view(n: Node) -> Tree
    decreases n,
{
    match n {
        Node::Document { children } => Tree::Document { children: children_view(children@) },
        Node::Heading { level, children } => Tree::Heading {
            level,
            children: children_view(children@),
        },
        Node::Paragraph { children } => Tree::Paragraph { children: children_view(children@) },
        Node::CodeBlock { info, content } => Tree::CodeBlock {
            info: match info {
                Some(s) => Some(s@),
                None => None,
            },
            content: content@,
        },
        Node::List { ordered, items } => Tree::List { ordered, items: nodes_view(items@) },
        Node::ListItem { children } => Tree::ListItem { children: children_view(children@) },
    }
}

/// The model of a child.
pub open spec fn child_view(c: NodeOrString) -> Child
    decreases c,
{
    match c {
        NodeOrString::String(s) => Child::Text(s@),
        NodeOrString::Node(n) => Child::Node(node_view(*n)),
    }
}

/// The models of a run of children, in order.
pub open spec fn children_view(cs: Seq<NodeOrString>) -> Seq<Child>
    decreases cs,
{
    if cs.len() == 0 {
        Seq::empty()
    } else {
        children_view(cs.drop_last()).push(child_view(cs.last()))
    }
}

/// The models of a run of nodes, in order.
pub open spec fn nodes_view(ns: Seq<Node>) -> Seq<Tree>
    decreases ns,
{
    if ns.len() == 0 {
        Seq::empty()
    } else {
        nodes_view(ns.drop_last()).push(node_view(ns.last()))
    }
}

impl View for Node {
    type V = Tree;

    open spec fn view(&self) -> Tree {
        node_view(*self)
    }
}

impl View for NodeOrString {
    type V = Child;

    open spec fn view(&self) -> Child {
        child_view(*self)
    }
}

/// The model of a configuration node.
pub open spec fn config_view(n: MinifiedNode) -> Config
    decreases n,
{
    match n {
        MinifiedNode::String(s) => Config::Leaf(s@),
        MinifiedNode::Array(items) => Config::List(configs_view(items@)),
        MinifiedNode::Mapping(entries) => Config::Mapping(entries_view(entries@)),
    }
}

/// The models of a run of configuration nodes, in order.
pub open spec fn configs_view(ns: Seq<MinifiedNode>) -> Seq<Config>
    decreases ns,
{
    if ns.len() == 0 {
        Seq::empty()
    } else {
        configs_view(ns.drop_last()).push(config_view(ns.last()))
    }
}

/// The models of a run of entries, in order.
pub open spec fn entries_view(es: Seq<(String, MinifiedNode)>) -> Seq<(Seq<char>, Config)>
    decreases es,
{
    if es.len() == 0 {
        Seq::empty()
    } else {
        entries_view(es.drop_last()).push((es.last().0@, config_view(es.last().1)))
    }
}

impl View for MinifiedNode {
    type V = Config;

    open spec fn view(&self) -> Config {
        config_view(*self)
    }
}

/// Whether a document tree keeps the rules of its kind: a heading has a
/// level from 1 to 6, and a list holds list items only.
pub open spec fn well_formed(t: Tree) -> bool
    decreases t,
{
    match t {
        Tree::Document { children } => children_well_formed(children),
        Tree::Heading { level, children } => 1 <= level <= 6 && children_well_formed(children),
        Tree::Paragraph { children } => children_well_formed(children),
        Tree::ListItem { children } => children_well_formed(children),
        Tree::CodeBlock { .. } => true,
        Tree::List { items, .. } => forall|i: int|
            0 <= i < items.len() ==> (#[trigger] items[i]) is ListItem && well_formed(items[i]),
    }
}

/// Whether every node among `children` is well formed.
pub open spec fn children_well_formed(children: Seq<Child>) -> bool
    decreases children,
{
    forall|i: int|
        0 <= i < children.len() ==> match #[trigger] children[i] {
            Child::Text(_) => true,
            Child::Node(node) => well_formed(node),
        }
}

/// Whether no two entries have the same key.
pub open spec fn keys_unique<V>(entries: Seq<(Seq<char>, V)>) -> bool {
    forall|i: int, j: int|
        0 <= i < j < entries.len() ==> (#[trigger] entries[i]).0 != (#[trigger] entries[j]).0
}

/// Whether a configuration tree keeps the rule of its kind: no map in it
/// has a key twice.
pub open spec fn config_well_formed(c: Config) -> bool
    decreases c,
{
    match c {
        Config::Leaf(_) => true,
        Config::List(items) => forall|i: int|
            0 <= i < items.len() ==> config_well_formed(#[trigger] items[i]),
        Config::Mapping(entries) => keys_unique(entries) && forall|i: int|
            0 <= i < entries.len() ==> config_well_formed((#[trigger] entries[i]).1),
    }
}

/// `children_view` goes child by child.
pub proof fn lemma_children_view(cs: Seq<NodeOrString>)
    ensures
        children_view(cs).len() == cs.len(),
        forall|i: int| 0 <= i < cs.len() ==> #[trigger] children_view(cs)[i] == child_view(cs[i]),
    decreases cs.len(),
{
    if cs.len() > 0 {
        lemma_children_view(cs.drop_last());
    }
}

/// `nodes_view` goes node by node.
pub proof fn lemma_nodes_view(ns: Seq<Node>)
    ensures
        nodes_view(ns).len() == ns.len(),
        forall|i: int| 0 <= i < ns.len() ==> #[trigger] nodes_view(ns)[i] == node_view(ns[i]),
    decreases ns.len(),
{
    if ns.len() > 0 {
        lemma_nodes_view(ns.drop_last());
    }
}

/// `configs_view` goes node by node.
pub proof fn lemma_configs_view(ns: Seq<MinifiedNode>)
    ensures
        configs_view(ns).len() == ns.len(),
        forall|i: int| 0 <= i < ns.len() ==> #[trigger] configs_view(ns)[i] == config_view(ns[i]),
    decreases ns.len(),
{
    if ns.len() > 0 {
        lemma_configs_view(ns.drop_last());
    }
}

/// `entries_view` goes entry by entry.
pub proof fn lemma_entries_view(es: Seq<(String, MinifiedNode)>)
    ensures
        entries_view(es).len() == es.len(),
        forall|i: int|
            0 <= i < es.len() ==> #[trigger] entries_view(es)[i] == (es[i].0@, config_view(es[i].1)),
    decreases es.len(),
{
    if es.len() > 0 {
        lemma_entries_view(es.drop_last());
    }
}

/// The model of a run of children grows with the run.
pub proof fn lemma_children_push(cs: Seq<NodeOrString>, c: NodeOrString)
    ensures
        children_view(cs.push(c)) == children_view(cs).push(child_view(c)),
{
    assert(cs.push(c).drop_last() =~= cs);
}

/// The model of a run of nodes grows with the run.
pub proof fn lemma_nodes_push(ns: Seq<Node>, n: Node)
    ensures
        nodes_view(ns.push(n)) == nodes_view(ns).push(node_view(n)),
{
    assert(ns.push(n).drop_last() =~= ns);
}

/// The model of a run of entries grows with the run.
pub proof fn lemma_entries_push(es: Seq<(String, MinifiedNode)>, e: (String, MinifiedNode))
    ensures
        entries_view(es.push(e)) == entries_view(es).push((e.0@, config_view(e.1))),
{
    assert(es.push(e).drop_last() =~= es);
}

/// The model of a run of configuration nodes grows with the run.
pub proof fn lemma_configs_push(ns: Seq<MinifiedNode>, n: MinifiedNode)
    ensures
        configs_view(ns.push(n)) == configs_view(ns).push(config_view(n)),
{
    assert(ns.push(n).drop_last() =~= ns);
}

/// The index of the first entry from `from` on whose key is `key`.
pub open spec fn key_index_from<V>(entries: Seq<(Seq<char>, V)>, key: Seq<char>, from: int) -> Option<
    int,
>
    decreases entries.len() - from,
{
    if from < 0 || from >= entries.len() {
        None
    } else if entries[from].0 == key {
        Some(from)
    } else {
        key_index_from(entries, key, from + 1)
    }
}

/// The index of the first entry whose key is `key`.
pub open spec fn key_index<V>(entries: Seq<(Seq<char>, V)>, key: Seq<char>) -> Option<int> {
    key_index_from(entries, key, 0)
}

/// Where `key_index_from` finds a key, it stands there and nowhere between
/// `from` and there; where it finds none, there is none from `from` on.
pub proof fn lemma_key_index_from<V>(entries: Seq<(Seq<char>, V)>, key: Seq<char>, from: int)
    requires
        0 <= from,
    ensures
        match key_index_from(entries, key, from) {
            Some(i) => {
                &&& from <= i < entries.len()
                &&& entries[i].0 == key
                &&& forall|j: int| from <= j < i ==> entries[j].0 != key
            },
            None => forall|j: int| from <= j < entries.len() ==> entries[j].0 != key,
        },
    decreases entries.len() - from,
{
    if from < entries.len() && entries[from].0 != key {
        lemma_key_index_from(entries, key, from + 1);
    }
}

/// A copy of a configuration node.
fn copy_of(node: &MinifiedNode) -> (copy: MinifiedNode)
    ensures
        copy@ == node@,
    decreases node,
{
    match node {
        MinifiedNode::String(text) => MinifiedNode::String(text.clone()),
        MinifiedNode::Array(items) => {
            let mut copies: Vec<MinifiedNode> = Vec::new();
            let mut i: usize = 0;
            while i < items.len()
                invariant
                    i <= items.len(),
                    copies.len() == i,
                    decreases_to!(*node => *items),
                    forall|j: int| 0 <= j < i ==> config_view(#[trigger] copies[j]) == config_view(items[j]),
                decreases items.len() - i,
            {
                proof {
                    assert(decreases_to!(*items => items[i as int]));
                }
                copies.push(copy_of(&items[i]));
                i += 1;
            }
            proof {
                lemma_configs_view(copies@);
                lemma_configs_view(items@);
                assert(configs_view(copies@) =~= configs_view(items@));
            }
            MinifiedNode::Array(copies)
        },
        MinifiedNode::Mapping(entries) => {
            let mut copies: Vec<(String, MinifiedNode)> = Vec::new();
            let mut i: usize = 0;
            while i < entries.len()
                invariant
                    i <= entries.len(),
                    copies.len() == i,
                    decreases_to!(*node => *entries),
                    forall|j: int|
                        0 <= j < i ==> (#[trigger] copies[j]).0@ == entries[j].0@ && config_view(
                            copies[j].1,
                        ) == config_view(entries[j].1),
                decreases entries.len() - i,
            {
                proof {
                    assert(decreases_to!(*entries => entries[i as int]));
                }
                copies.push((entries[i].0.clone(), copy_of(&entries[i].1)));
                i += 1;
            }
            proof {
                lemma_entries_view(copies@);
                lemma_entries_view(entries@);
                assert(entries_view(copies@) =~= entries_view(entries@));
            }
            MinifiedNode::Mapping(copies)
        },
    }
}

impl Clone for MinifiedNode {
    fn clone(&self) -> (copy: Self)
        ensures
            copy@ == self@,
    {
        copy_of(self)
    }
}

} // verus!
