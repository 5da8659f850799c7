//! The document builder: a tree that mirrors the structure of the text.

use crate::ast::{
    child_view, children_view, children_well_formed, lemma_children_push, lemma_nodes_push,
    lemma_nodes_view, nodes_view, well_formed, Child, Node, NodeOrString, Tree,
};
use crate::events::{event_stream, tokenize, Block, BlockEnd, Token};
use vstd::prelude::*;
use vstd::string::StringExecFns;

verus! {

/// Why a run of events is no document.
#[derive(Debug, Clone, Copy, PartialEq, Eq, Structural)]
pub enum ParseError {
    /// The event at `index` closes a block, and no block but the document
    /// itself is open.
    UnmatchedEnd { index: usize },
}

/// The builder between two events: the open nodes, the document first, and
/// the text that no node has taken yet.
pub struct DocState {
    pub stack: Seq<Tree>,
    pub buf: Seq<char>,
}

/// The node `t` after text was handed to it. A list takes none.
pub open spec fn tree_with_text(t: Tree, text: Seq<char>) -> Tree {
    match t {
        Tree::Document { children } => Tree::Document { children: children.push(Child::Text(text)) },
        Tree::Heading { level, children } => Tree::Heading {
            level,
            children: children.push(Child::Text(text)),
        },
        Tree::Paragraph { children } => Tree::Paragraph {
            children: children.push(Child::Text(text)),
        },
        Tree::ListItem { children } => Tree::ListItem { children: children.push(Child::Text(text)) },
        Tree::CodeBlock { info, content } => Tree::CodeBlock { info, content: content + text },
        Tree::List { .. } => t,
    }
}

/// The node `parent` after the closed node `node` was handed to it. A list
/// takes list items only, a code block takes nothing.
pub open spec fn tree_with_node(parent: Tree, node: Tree) -> Tree {
    match parent {
        Tree::Document { children } => Tree::Document { children: children.push(Child::Node(node)) },
        Tree::Heading { level, children } => Tree::Heading {
            level,
            children: children.push(Child::Node(node)),
        },
        Tree::Paragraph { children } => Tree::Paragraph {
            children: children.push(Child::Node(node)),
        },
        Tree::ListItem { children } => Tree::ListItem { children: children.push(Child::Node(node)) },
        Tree::List { ordered, items } => if node is ListItem {
            Tree::List { ordered, items: items.push(node) }
        } else {
            parent
        },
        Tree::CodeBlock { .. } => parent,
    }
}

/// The open nodes after the pending text `buf` went to the innermost one.
pub open spec fn flushed_stack(stack: Seq<Tree>, buf: Seq<char>) -> Seq<Tree> {
    if buf.len() == 0 || stack.len() == 0 {
        stack
    } else {
        stack.update(stack.len() - 1, tree_with_text(stack.last(), buf))
    }
}

/// The state after the pending text went to the innermost open node.
pub open spec fn flushed(st: DocState) -> DocState {
    DocState { stack: flushed_stack(st.stack, st.buf), buf: Seq::empty() }
}

/// The open nodes after `node` was handed to the innermost one, if there is one.
pub open spec fn adopted_stack(stack: Seq<Tree>, node: Tree) -> Seq<Tree> {
    if stack.len() == 0 {
        stack
    } else {
        stack.update(stack.len() - 1, tree_with_node(stack.last(), node))
    }
}

/// The empty node that a start event opens, if it opens one.
pub open spec fn opened(block: Block) -> Option<Tree> {
    match block {
        Block::Heading(level) => Some(
            Tree::Heading { level: level.number(), children: Seq::empty() },
        ),
        Block::Paragraph => Some(Tree::Paragraph { children: Seq::empty() }),
        Block::List(first) => Some(Tree::List { ordered: first is Some, items: Seq::empty() }),
        Block::Item => Some(Tree::ListItem { children: Seq::empty() }),
        Block::CodeBlock(_) => Some(Tree::CodeBlock { info: None, content: Seq::empty() }),
        Block::Other => None,
    }
}

/// Whether an end event closes a node of the tree.
pub open spec fn closes(end: BlockEnd) -> bool {
    end != BlockEnd::Other
}

/// The state after one event, or `None` where the event closes a node and
/// only the document is open.
pub open spec fn doc_step(st: DocState, token: Token) -> Option<DocState> {
    match token {
        Token::Start(block) => match opened(block) {
            Some(node) => Some(DocState { stack: flushed(st).stack.push(node), buf: Seq::empty() }),
            None => Some(flushed(st)),
        },
        Token::End(end) => if !closes(end) {
            Some(flushed(st))
        } else if st.stack.len() < 2 {
            None
        } else {
            let open = flushed(st).stack;
            Some(DocState { stack: adopted_stack(open.drop_last(), open.last()), buf: Seq::empty() })
        },
        Token::Text(text) => Some(DocState { stack: st.stack, buf: st.buf + text@ }),
        Token::Code(text) => Some(DocState { stack: st.stack, buf: st.buf + text@ }),
        Token::SoftBreak => Some(DocState { stack: st.stack, buf: st.buf.push(' ') }),
        Token::HardBreak => Some(DocState { stack: st.stack, buf: st.buf.push(' ') }),
        Token::Other => Some(st),
    }
}

/// The state after the events from `pos` on, starting in `st`, or the index
/// of the first event that closes a node while only the document is open.
pub open spec fn doc_from(tokens: Seq<Token>, pos: int, st: DocState) -> Result<DocState, int>
    decreases tokens.len() - pos,
{
    if pos < 0 || pos >= tokens.len() {
        Ok(st)
    } else {
        match doc_step(st, tokens[pos]) {
            Some(next) => doc_from(tokens, pos + 1, next),
            None => Err(pos),
        }
    }
}

/// The state in which the builder starts: the empty document, no text.
pub open spec fn doc_start() -> DocState {
    DocState { stack: seq![Tree::Document { children: Seq::empty() }], buf: Seq::empty() }
}

/// The document that a run of events builds. Nodes that are still open at
/// the end are left out, with what they hold.
pub open spec fn document_of(tokens: Seq<Token>) -> Result<Tree, int> {
    match doc_from(tokens, 0, doc_start()) {
        Ok(st) => Ok(flushed(st).stack[0]),
        Err(index) => Err(index),
    }
}

/// By how much an event changes the number of open nodes.
pub open spec fn depth_change(token: Token) -> int {
    match token {
        Token::Start(block) => if opened(block) is Some {
            1
        } else {
            0
        },
        Token::End(end) => if closes(end) {
            -1
        } else {
            0
        },
        _ => 0,
    }
}

/// The number of nodes, the document not counted, that the first `n` events
/// leave open: what they opened less what they closed.
pub open spec fn depth(tokens: Seq<Token>, n: int) -> int
    decreases n,
{
    if n <= 0 {
        0
    } else {
        depth(tokens, n - 1) + depth_change(tokens[n - 1])
    }
}

/// Whether no event closes more than was opened before it.
pub open spec fn nested(tokens: Seq<Token>) -> bool {
    forall|n: int| 0 <= n <= tokens.len() ==> depth(tokens, n) >= 0
}

/// What holds of the builder between any two events: the document is the
/// outermost open node, and every open node is well formed.
pub open spec fn doc_inv(st: DocState) -> bool {
    &&& st.stack.len() >= 1
    &&& st.stack[0] is Document
    &&& forall|i: int| 0 <= i < st.stack.len() ==> well_formed(#[trigger] st.stack[i])
}

proof fn lemma_children_grow(children: Seq<Child>, child: Child)
    requires
        children_well_formed(children),
        child matches Child::Node(node) ==> well_formed(node),
    ensures
        children_well_formed(children.push(child)),
{
    let grown = children.push(child);
    assert forall|i: int| 0 <= i < grown.len() implies match #[trigger] grown[i] {
        Child::Text(_) => true,
        Child::Node(node) => well_formed(node),
    } by {
        if i < children.len() {
            assert(grown[i] == children[i]);
        }
    }
}

proof fn lemma_with_text_well_formed(t: Tree, text: Seq<char>)
    requires
        well_formed(t),
    ensures
        well_formed(tree_with_text(t, text)),
        t is Document ==> tree_with_text(t, text) is Document,
{
    match t {
        Tree::Document { children } => lemma_children_grow(children, Child::Text(text)),
        Tree::Heading { children, .. } => lemma_children_grow(children, Child::Text(text)),
        Tree::Paragraph { children } => lemma_children_grow(children, Child::Text(text)),
        Tree::ListItem { children } => lemma_children_grow(children, Child::Text(text)),
        _ => {},
    }
}

proof fn lemma_with_node_well_formed(parent: Tree, node: Tree)
    requires
        well_formed(parent),
        well_formed(node),
    ensures
        well_formed(tree_with_node(parent, node)),
        parent is Document ==> tree_with_node(parent, node) is Document,
{
    match parent {
        Tree::Document { children } => lemma_children_grow(children, Child::Node(node)),
        Tree::Heading { children, .. } => lemma_children_grow(children, Child::Node(node)),
        Tree::Paragraph { children } => lemma_children_grow(children, Child::Node(node)),
        Tree::ListItem { children } => lemma_children_grow(children, Child::Node(node)),
        Tree::List { items, .. } => {
            if node is ListItem {
                let grown = items.push(node);
                assert forall|i: int| 0 <= i < grown.len() implies (#[trigger] grown[i])
                    is ListItem && well_formed(grown[i]) by {
                    if i < items.len() {
                        assert(grown[i] == items[i]);
                    }
                }
            }
        },
        _ => {},
    }
}

proof fn lemma_flushed_inv(st: DocState)
    requires
        doc_inv(st),
    ensures
        doc_inv(flushed(st)),
        flushed(st).stack.len() == st.stack.len(),
{
    assert(well_formed(st.stack.last())) by {
        assert(st.stack.last() == st.stack[st.stack.len() - 1]);
    }
    lemma_with_text_well_formed(st.stack.last(), st.buf);
    let next = flushed(st).stack;
    assert forall|i: int| 0 <= i < next.len() implies well_formed(#[trigger] next[i]) by {
        if i < next.len() - 1 {
            assert(next[i] == st.stack[i]);
        }
    }
}

proof fn lemma_step_inv(st: DocState, token: Token)
    requires
        doc_inv(st),
    ensures
        match doc_step(st, token) {
            Some(next) => doc_inv(next) && next.stack.len() == st.stack.len() + depth_change(token),
            None => st.stack.len() + depth_change(token) < 1,
        },
{
    lemma_flushed_inv(st);
    let open = flushed(st).stack;
    match token {
        Token::Start(block) => {
            match opened(block) {
                Some(node) => {
                    assert(well_formed(node)) by {
                        assert(children_well_formed(Seq::<Child>::empty()));
                        assert(Seq::<Tree>::empty().len() == 0);
                    }
                    let grown = open.push(node);
                    assert forall|i: int| 0 <= i < grown.len() implies well_formed(
                        #[trigger] grown[i],
                    ) by {
                        if i < open.len() {
                            assert(grown[i] == open[i]);
                        }
                    }
                },
                None => {},
            }
        },
        Token::End(end) => {
            if closes(end) && st.stack.len() >= 2 {
                let rest = open.drop_last();
                assert(well_formed(rest.last())) by {
                    assert(rest.last() == open[open.len() - 2]);
                }
                assert(well_formed(open.last())) by {
                    assert(open.last() == open[open.len() - 1]);
                }
                lemma_with_node_well_formed(rest.last(), open.last());
                let next = adopted_stack(rest, open.last());
                assert forall|i: int| 0 <= i < next.len() implies well_formed(
                    #[trigger] next[i],
                ) by {
                    if i < next.len() - 1 {
                        assert(next[i] == open[i]);
                    }
                }
                assert(next[0] is Document) by {
                    if next.len() > 1 {
                        assert(next[0] == open[0]);
                    }
                }
            }
        },
        _ => {},
    }
}

proof fn lemma_doc_from(tokens: Seq<Token>, pos: int, st: DocState)
    requires
        0 <= pos <= tokens.len(),
        doc_inv(st),
        st.stack.len() == 1 + depth(tokens, pos),
        forall|n: int| 0 <= n <= pos ==> depth(tokens, n) >= 0,
    ensures
        match doc_from(tokens, pos, st) {
            Ok(end) => doc_inv(end) && nested(tokens),
            Err(index) => {
                &&& pos <= index < tokens.len()
                &&& depth(tokens, index) == 0
                &&& depth(tokens, index + 1) < 0
            },
        },
    decreases tokens.len() - pos,
{
    if pos < tokens.len() {
        lemma_step_inv(st, tokens[pos]);
        match doc_step(st, tokens[pos]) {
            Some(next) => {
                assert(depth(tokens, pos + 1) == depth(tokens, pos) + depth_change(tokens[pos]));
                assert forall|n: int| 0 <= n <= pos + 1 implies depth(tokens, n) >= 0 by {
                    if n == pos + 1 {
                    }
                }
                lemma_doc_from(tokens, pos + 1, next);
            },
            None => {
                assert(depth(tokens, pos + 1) == depth(tokens, pos) + depth_change(tokens[pos]));
            },
        }
    }
}

/// Building succeeds exactly on the runs in which no event closes more than
/// was opened before it. The tree that comes out is a document and well
/// formed; a failure names the first event that closes too much.
pub proof fn lemma_document_of(tokens: Seq<Token>)
    ensures
        document_of(tokens) is Ok <==> nested(tokens),
        match document_of(tokens) {
            Ok(tree) => tree is Document && well_formed(tree),
            Err(index) => {
                &&& 0 <= index < tokens.len()
                &&& depth(tokens, index) == 0
                &&& tokens[index] matches Token::End(end) && closes(end)
            },
        },
{
    let start = doc_start();
    assert(doc_inv(start)) by {
        assert(start.stack[0] == Tree::Document { children: Seq::<Child>::empty() });
        assert(children_well_formed(Seq::<Child>::empty()));
        assert(well_formed(start.stack[0]));
    }
    lemma_doc_from(tokens, 0, start);
    match doc_from(tokens, 0, doc_start()) {
        Ok(st) => {
            lemma_flushed_inv(st);
        },
        Err(index) => {
            assert(depth(tokens, index + 1) == depth(tokens, index) + depth_change(tokens[index]));
        },
    }
}

/// Whether the run is `n` headings and nothing else: each is its start,
/// one text that is not empty, and its end.
pub open spec fn headings_only(tokens: Seq<Token>, n: nat) -> bool {
    &&& tokens.len() == 3 * n
    &&& forall|i: int|
        0 <= i < n ==> {
            &&& #[trigger] tokens[3 * i] matches Token::Start(Block::Heading(_))
            &&& tokens[3 * i + 1] matches Token::Text(text) && text@.len() > 0
            &&& tokens[3 * i + 2] == Token::End(BlockEnd::Heading)
        }
}

/// The heading that the events of heading `i` of such a run build: its
/// own level, and its own text as its one child.
pub open spec fn heading_at(tokens: Seq<Token>, i: int) -> Child {
    Child::Node(
        Tree::Heading {
            level: tokens[3 * i]->Start_0->Heading_0.number(),
            children: seq![Child::Text(tokens[3 * i + 1]->Text_0@)],
        },
    )
}

proof fn lemma_headings_from(tokens: Seq<Token>, n: nat, k: int)
    requires
        headings_only(tokens, n),
        0 <= k <= n,
    ensures
        doc_from(
            tokens,
            3 * k,
            DocState {
                stack: seq![
                    Tree::Document { children: Seq::new(k as nat, |i: int| heading_at(tokens, i)) },
                ],
                buf: Seq::empty(),
            },
        ) == Ok::<DocState, int>(
            DocState {
                stack: seq![
                    Tree::Document { children: Seq::new(n, |i: int| heading_at(tokens, i)) },
                ],
                buf: Seq::empty(),
            },
        ),
    decreases n - k,
{
    if k < n {
        let before = Seq::new(k as nat, |i: int| heading_at(tokens, i));
        let after = Seq::new((k + 1) as nat, |i: int| heading_at(tokens, i));
        let root = Tree::Document { children: before };
        let s0 = DocState { stack: seq![root], buf: Seq::empty() };
        let at = 3 * k;
        assert(tokens[3 * k] matches Token::Start(Block::Heading(_)));
        let level = tokens[at]->Start_0->Heading_0.number();
        let text = tokens[at + 1]->Text_0@;
        let empty_heading = Tree::Heading { level, children: Seq::empty() };
        let heading = Tree::Heading { level, children: seq![Child::Text(text)] };
        let s1 = DocState { stack: seq![root, empty_heading], buf: Seq::empty() };
        assert(doc_step(s0, tokens[at]) == Some(s1)) by {
            assert(flushed(s0).stack =~= s0.stack);
            assert(s0.stack.push(empty_heading) =~= s1.stack);
        }
        let s2 = DocState { stack: s1.stack, buf: text };
        assert(doc_step(s1, tokens[at + 1]) == Some(s2)) by {
            assert(Seq::<char>::empty() + text =~= text);
        }
        let s3 = DocState {
            stack: seq![Tree::Document { children: after }],
            buf: Seq::empty(),
        };
        assert(doc_step(s2, tokens[at + 2]) == Some(s3)) by {
            let open = flushed(s2).stack;
            assert(Seq::<Child>::empty().push(Child::Text(text)) =~= seq![Child::Text(text)]);
            assert(open =~= seq![root, heading]);
            assert(open.drop_last() =~= seq![root]);
            assert(before.push(Child::Node(heading)) =~= after);
            assert(adopted_stack(open.drop_last(), open.last()) =~= s3.stack);
        }
        lemma_headings_from(tokens, n, k + 1);
        assert(doc_from(tokens, at + 2, s2) == doc_from(tokens, at + 3, s3));
        assert(doc_from(tokens, at + 1, s1) == doc_from(tokens, at + 2, s2));
        assert(doc_from(tokens, at, s0) == doc_from(tokens, at + 1, s1));
    }
}

/// A run of `n` headings, of whatever levels, builds a document of `n`
/// headings side by side, in their order, each with its own level and its
/// own text.
pub proof fn lemma_heading_ladder(tokens: Seq<Token>, n: nat)
    requires
        headings_only(tokens, n),
    ensures
        document_of(tokens) == Ok::<Tree, int>(
            Tree::Document { children: Seq::new(n, |i: int| heading_at(tokens, i)) },
        ),
{
    lemma_headings_from(tokens, n, 0);
    assert(Seq::new(0nat, |i: int| heading_at(tokens, i)) =~= Seq::<Child>::empty());
    assert(doc_start().stack =~= seq![
        Tree::Document { children: Seq::new(0nat, |i: int| heading_at(tokens, i)) },
    ]);
}

/// The children and one more.
fn grown(children: Vec<NodeOrString>, child: NodeOrString) -> (r: Vec<NodeOrString>)
    ensures
        children_view(r@) == children_view(children@).push(child_view(child)),
{
    let mut children = children;
    proof {
        lemma_children_push(children@, child);
    }
    children.push(child);
    children
}

/// Hands `text` to a node.
fn with_text(node: Node, text: String) -> (r: Node)
    ensures
        r@ == tree_with_text(node@, text@),
{
    match node {
        Node::Document { children } => Node::Document {
            children: grown(children, NodeOrString::String(text)),
        },
        Node::Heading { level, children } => Node::Heading {
            level,
            children: grown(children, NodeOrString::String(text)),
        },
        Node::Paragraph { children } => Node::Paragraph {
            children: grown(children, NodeOrString::String(text)),
        },
        Node::ListItem { children } => Node::ListItem {
            children: grown(children, NodeOrString::String(text)),
        },
        Node::CodeBlock { info, content } => {
            let mut content = content;
            content.append(text.as_str());
            Node::CodeBlock { info, content }
        },
        Node::List { ordered, items } => Node::List { ordered, items },
    }
}

/// Hands the closed node `node` to `parent`.
fn with_node(parent: Node, node: Node) -> (r: Node)
    ensures
        r@ == tree_with_node(parent@, node@),
{
    match parent {
        Node::Document { children } => Node::Document {
            children: grown(children, NodeOrString::Node(Box::new(node))),
        },
        Node::Heading { level, children } => Node::Heading {
            level,
            children: grown(children, NodeOrString::Node(Box::new(node))),
        },
        Node::Paragraph { children } => Node::Paragraph {
            children: grown(children, NodeOrString::Node(Box::new(node))),
        },
        Node::ListItem { children } => Node::ListItem {
            children: grown(children, NodeOrString::Node(Box::new(node))),
        },
        Node::List { ordered, items } => {
            let mut items = items;
            let is_item = match &node {
                Node::ListItem { .. } => true,
                _ => false,
            };
            if is_item {
                proof {
                    lemma_nodes_push(items@, node);
                }
                items.push(node);
            }
            Node::List { ordered, items }
        },
        Node::CodeBlock { info, content } => Node::CodeBlock { info, content },
    }
}

/// Moves the pending text to the innermost open node and empties the buffer.
pub fn flush_text(stack: &mut Vec<Node>, buf: &mut String)
    ensures
        nodes_view(final(stack)@) == flushed_stack(nodes_view(old(stack)@), old(buf)@),
        final(buf)@ == Seq::<char>::empty(),
{
    if buf.as_str().is_empty() {
        assert(buf@ =~= Seq::<char>::empty());
        return ;
    }
    let text = buf.clone();
    buf.clear();
    proof {
        lemma_nodes_view(stack@);
    }
    match stack.pop() {
        Some(top) => {
            let ghost rest = stack@;
            let node = with_text(top, text);
            stack.push(node);
            proof {
                lemma_nodes_view(stack@);
                lemma_nodes_view(old(stack)@);
                assert(nodes_view(stack@) =~= flushed_stack(
                    nodes_view(old(stack)@),
                    old(buf)@,
                ));
            }
        },
        None => {},
    }
}

/// Hands a closed node to the innermost open node; without one the node is
/// dropped.
pub fn push_node_to_parent(stack: &mut Vec<Node>, node: Node)
    ensures
        nodes_view(final(stack)@) == adopted_stack(nodes_view(old(stack)@), node@),
{
    proof {
        lemma_nodes_view(stack@);
    }
    match stack.pop() {
        Some(parent) => {
            let grown = with_node(parent, node);
            stack.push(grown);
            proof {
                lemma_nodes_view(stack@);
                lemma_nodes_view(old(stack)@);
                assert(nodes_view(stack@) =~= adopted_stack(nodes_view(old(stack)@), node@));
            }
        },
        None => {},
    }
}

/// The empty node that a start event opens, if it opens one.
fn open_node(block: &Block) -> (r: Option<Node>)
    ensures
        match r {
            Some(node) => opened(*block) == Some(node@),
            None => opened(*block) is None,
        },
{
    match block {
        Block::Heading(level) => Some(Node::Heading { level: level.to_u8(), children: Vec::new() }),
        Block::Paragraph => Some(Node::Paragraph { children: Vec::new() }),
        Block::List(first) => Some(Node::List { ordered: first.is_some(), items: Vec::new() }),
        Block::Item => Some(Node::ListItem { children: Vec::new() }),
        Block::CodeBlock(_) => Some(Node::CodeBlock { info: None, content: String::new() }),
        Block::Other => None,
    }
}

/// Builds the document tree of a run of events.
///
/// Fails at the first event that closes a block while only the document is
/// open; otherwise the result is the document, whatever is still open at
/// the end being left out.
pub fn build_document(tokens: &[Token]) -> (r: Result<Node, ParseError>)
    ensures
        match r {
            Ok(node) => document_of(tokens@) == Ok::<Tree, int>(node@),
            Err(ParseError::UnmatchedEnd { index }) => document_of(tokens@) == Err::<Tree, int>(
                index as int,
            ),
        },
        r is Ok <==> nested(tokens@),
        r matches Ok(node) ==> node@ is Document && well_formed(node@),
{
    let mut stack: Vec<Node> = Vec::new();
    stack.push(Node::Document { children: Vec::new() });
    let mut buf = String::new();
    proof {
        lemma_nodes_view(stack@);
        assert(nodes_view(stack@) =~= doc_start().stack);
    }
    let mut i: usize = 0;
    while i < tokens.len()
        invariant
            i <= tokens.len(),
            stack.len() >= 1,
            doc_from(tokens@, 0, doc_start()) == doc_from(
                tokens@,
                i as int,
                DocState { stack: nodes_view(stack@), buf: buf@ },
            ),
        decreases tokens.len() - i,
    {
        let ghost before = DocState { stack: nodes_view(stack@), buf: buf@ };
        proof {
            lemma_nodes_view(stack@);
        }
        match &tokens[i] {
            Token::Start(block) => {
                flush_text(&mut stack, &mut buf);
                proof {
                    lemma_nodes_view(stack@);
                }
                match open_node(block) {
                    Some(node) => {
                        proof {
                            lemma_nodes_push(stack@, node);
                        }
                        stack.push(node);
                    },
                    None => {},
                }
            },
            Token::End(end) => {
                let tracked_end = match end {
                    BlockEnd::Other => false,
                    _ => true,
                };
                if tracked_end && stack.len() < 2 {
                    proof {
                        lemma_document_of(tokens@);
                    }
                    return Err(ParseError::UnmatchedEnd { index: i });
                }
                flush_text(&mut stack, &mut buf);
                proof {
                    lemma_nodes_view(stack@);
                }
                if tracked_end {
                    let ghost open = stack@;
                    let node = stack.pop().unwrap();
                    proof {
                        lemma_nodes_view(open);
                        lemma_nodes_view(stack@);
                        assert(nodes_view(stack@) =~= nodes_view(open).drop_last());
                    }
                    push_node_to_parent(&mut stack, node);
                    proof {
                        lemma_nodes_view(stack@);
                    }
                }
            },
            Token::Text(text) => {
                buf.append(text.as_str());
            },
            Token::Code(text) => {
                buf.append(text.as_str());
            },
            Token::SoftBreak => {
                buf.push(' ');
            },
            Token::HardBreak => {
                buf.push(' ');
            },
            Token::Other => {},
        }
        assert(doc_step(before, tokens@[i as int]) == Some(
            DocState { stack: nodes_view(stack@), buf: buf@ },
        ));
        i += 1;
    }
    flush_text(&mut stack, &mut buf);
    proof {
        lemma_nodes_view(stack@);
        lemma_document_of(tokens@);
    }
    Ok(root_of(stack))
}

/// The outermost of the open nodes.
fn root_of(stack: Vec<Node>) -> (root: Node)
    requires
        stack.len() >= 1,
    ensures
        root == stack@[0],
{
    let mut stack = stack;
    stack.truncate(1);
    stack.pop().unwrap()
}

/// Builds the document tree of a Markdown text.
pub fn parse_markdown(input: &str) -> (r: Result<Node, ParseError>)
    ensures
        match r {
            Ok(node) => document_of(event_stream(input@)) == Ok::<Tree, int>(node@),
            Err(ParseError::UnmatchedEnd { index }) => document_of(event_stream(input@)) == Err::<
                Tree,
                int,
            >(index as int),
        },
        r is Ok <==> nested(event_stream(input@)),
        r matches Ok(node) ==> node@ is Document && well_formed(node@),
{
    let tokens = tokenize(input);
    build_document(tokens.as_slice())
}

} // verus!
