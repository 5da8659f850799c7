//! From Markdown text to JSON, YAML, TOML or XML text.

use crate::ast::{
    child_view, children_view, config_view, configs_view, entries_view, key_index, keys_unique,
    lemma_children_view, lemma_configs_view, lemma_entries_view, lemma_key_index_from,
    lemma_nodes_view, node_view, nodes_view, Child, Config, MinifiedNode, Node, NodeOrString,
    Tree,
};
use crate::events::event_stream;
use crate::parse::{document_of, parse_markdown, ParseError};
use crate::parse_minified::{config_of, parse_markdown_minified};
use crate::sanitizers::{sanitize_keys, sanitized_keys};
use crate::text::ascii_lowercase;
use vstd::prelude::*;
use vstd::string::StringExecFns;

verus! {

/// The formats that a tree can be written in.
#[derive(Debug, Clone, Copy, PartialEq, Eq, Structural)]
pub enum OutputFormat {
    Json,
    Yaml,
    Toml,
    Xml,
}

/// How the text is read.
#[derive(Debug, Clone, Copy, PartialEq, Eq, Structural)]
pub enum ParsingMode {
    /// As a document: a tree of headings, paragraphs, lists and code blocks.
    Document,
    /// As a configuration: headings are keys, what stands under them values.
    Minified,
}

/// The format that a name stands for, whatever the case of its letters:
/// `json`, `yaml` or `yml`, `toml`, `xml`.
pub open spec fn format_named(name: Seq<char>) -> Option<OutputFormat> {
    let lower = ascii_lowercase(name);
    if lower == "json"@ {
        Some(OutputFormat::Json)
    } else if lower == "yaml"@ || lower == "yml"@ {
        Some(OutputFormat::Yaml)
    } else if lower == "toml"@ {
        Some(OutputFormat::Toml)
    } else if lower == "xml"@ {
        Some(OutputFormat::Xml)
    } else {
        None
    }
}

impl OutputFormat {
    /// The format that a name stands for, whatever the case of its letters.
    pub fn from_str(s: &str) -> (r: Option<Self>)
        ensures
            r == format_named(s@),
    {
        let lower = s.to_ascii_lowercase();
        if lower == String::from_str("json") {
            Some(OutputFormat::Json)
        } else if lower == String::from_str("yaml") || lower == String::from_str("yml") {
            Some(OutputFormat::Yaml)
        } else if lower == String::from_str("toml") {
            Some(OutputFormat::Toml)
        } else if lower == String::from_str("xml") {
            Some(OutputFormat::Xml)
        } else {
            None
        }
    }
}

impl Default for ParsingMode {
    fn default() -> (mode: Self)
        ensures
            mode == ParsingMode::Document,
    {
        ParsingMode::Document
    }
}

/// Why a text could not be converted.
#[derive(Debug)]
pub enum ConvertError {
    /// The format is not available. Every format is built in, so this
    /// library never returns it.
    UnsupportedFormat,
    /// The serializer refused the tree; the message is its own.
    Ser(String),
    /// The events of the text are no document.
    Structure(ParseError),
}

impl ConvertError {
    /// The error in words.
    pub open spec fn message_spec(self) -> Seq<char> {
        match self {
            ConvertError::UnsupportedFormat => "unsupported format"@,
            ConvertError::Ser(message) => "serialization: "@ + message@,
            ConvertError::Structure(_) => "structure: an event closes a block that is not open"@,
        }
    }

    /// The error in words.
    pub fn message(&self) -> (text: String)
        ensures
            text@ == self.message_spec(),
    {
        match self {
            ConvertError::UnsupportedFormat => String::from_str("unsupported format"),
            ConvertError::Ser(message) => {
                let mut text = String::from_str("serialization: ");
                text.append(message.as_str());
                text
            },
            ConvertError::Structure(_) => String::from_str(
                "structure: an event closes a block that is not open",
            ),
        }
    }
}

/// A value as the serializers see it: text, a number, a truth value, a list
/// of values, or a record of named values with no name twice.
pub enum Data {
    Flag(bool),
    Number(int),
    Text(Seq<char>),
    List(Seq<Data>),
    Record(Seq<(Seq<char>, Data)>),
}

/// The fields `acc` after the field `key` was set to `value`: a field of
/// that name keeps its place and takes the value, a new one comes last.
pub open spec fn inserted(acc: Seq<(Seq<char>, Data)>, key: Seq<char>, value: Data) -> Seq<
    (Seq<char>, Data),
> {
    match key_index(acc, key) {
        Some(i) => acc.update(i, (key, value)),
        None => acc.push((key, value)),
    }
}

/// The fields of a record that was filled with `entries`, one after the other.
pub open spec fn inserted_all(entries: Seq<(Seq<char>, Data)>) -> Seq<(Seq<char>, Data)>
    decreases entries.len(),
{
    if entries.len() == 0 {
        Seq::empty()
    } else {
        inserted(inserted_all(entries.drop_last()), entries.last().0, entries.last().1)
    }
}

/// The record that was filled with `entries`, one after the other.
pub open spec fn record(entries: Seq<(Seq<char>, Data)>) -> Data {
    Data::Record(inserted_all(entries))
}

/// The text of a heading: its text children, one after the other.
pub open spec fn heading_text(children: Seq<Child>) -> Seq<char>
    decreases children.len(),
{
    if children.len() == 0 {
        Seq::empty()
    } else {
        heading_text(children.drop_last()) + match children.last() {
            Child::Text(text) => text,
            Child::Node(_) => Seq::empty(),
        }
    }
}

/// A document node as data: a record that begins with the kind of the
/// node under `type`. A heading also has its `text`; a code block has
/// `info` only where a language tag was recorded.
pub open spec fn tree_data(t: Tree) -> Data
    decreases t,
{
    match t {
        Tree::Document { children } => record(
            seq![
                ("type"@, Data::Text("Document"@)),
                ("children"@, Data::List(children_data(children))),
            ],
        ),
        Tree::Heading { level, children } => record(
            seq![
                ("type"@, Data::Text("Heading"@)),
                ("level"@, Data::Number(level as int)),
                ("text"@, Data::Text(heading_text(children))),
                ("children"@, Data::List(children_data(children))),
            ],
        ),
        Tree::Paragraph { children } => record(
            seq![
                ("type"@, Data::Text("Paragraph"@)),
                ("children"@, Data::List(children_data(children))),
            ],
        ),
        Tree::CodeBlock { info, content } => match info {
            Some(lang) => record(
                seq![
                    ("type"@, Data::Text("CodeBlock"@)),
                    ("info"@, Data::Text(lang)),
                    ("content"@, Data::Text(content)),
                ],
            ),
            None => record(
                seq![("type"@, Data::Text("CodeBlock"@)), ("content"@, Data::Text(content))],
            ),
        },
        Tree::List { ordered, items } => record(
            seq![
                ("type"@, Data::Text("List"@)),
                ("ordered"@, Data::Flag(ordered)),
                ("items"@, Data::List(trees_data(items))),
            ],
        ),
        Tree::ListItem { children } => record(
            seq![
                ("type"@, Data::Text("ListItem"@)),
                ("children"@, Data::List(children_data(children))),
            ],
        ),
    }
}

/// A child as data: a nested node, or a record of kind `Text` with the
/// text as its `content`.
pub open spec fn child_data(c: Child) -> Data
    decreases c,
{
    match c {
        Child::Text(text) => record(
            seq![("type"@, Data::Text("Text"@)), ("content"@, Data::Text(text))],
        ),
        Child::Node(node) => tree_data(node),
    }
}

/// The children of a node as data, in order.
pub open spec fn children_data(children: Seq<Child>) -> Seq<Data>
    decreases children,
{
    if children.len() == 0 {
        Seq::empty()
    } else {
        children_data(children.drop_last()).push(child_data(children.last()))
    }
}

/// The items of a list as data, in order.
pub open spec fn trees_data(trees: Seq<Tree>) -> Seq<Data>
    decreases trees,
{
    if trees.len() == 0 {
        Seq::empty()
    } else {
        trees_data(trees.drop_last()).push(tree_data(trees.last()))
    }
}

/// A configuration node as data: a leaf is text, a list a list, a map a
/// record of its entries.
pub open spec fn config_data(c: Config) -> Data
    decreases c,
{
    match c {
        Config::Leaf(text) => Data::Text(text),
        Config::List(items) => Data::List(configs_data(items)),
        Config::Mapping(entries) => record(entries_data(entries)),
    }
}

/// The items of a configuration list as data, in order.
pub open spec fn configs_data(items: Seq<Config>) -> Seq<Data>
    decreases items,
{
    if items.len() == 0 {
        Seq::empty()
    } else {
        configs_data(items.drop_last()).push(config_data(items.last()))
    }
}

/// The entries of a configuration map as data, in order.
pub open spec fn entries_data(entries: Seq<(Seq<char>, Config)>) -> Seq<(Seq<char>, Data)>
    decreases entries,
{
    if entries.len() == 0 {
        Seq::empty()
    } else {
        entries_data(entries.drop_last()).push((entries.last().0, config_data(entries.last().1)))
    }
}

/// A record that is filled with fields of which no two have the same name
/// has these fields, in their order.
pub proof fn lemma_record_of_distinct(entries: Seq<(Seq<char>, Data)>)
    requires
        keys_unique(entries),
    ensures
        record(entries) == Data::Record(entries),
    decreases entries.len(),
{
    if entries.len() > 0 {
        let before = entries.drop_last();
        assert(keys_unique(before)) by {
            assert forall|i: int, j: int| 0 <= i < j < before.len() implies (#[trigger] before[i]).0
                != (#[trigger] before[j]).0 by {
                assert(before[i] == entries[i]);
                assert(before[j] == entries[j]);
            }
        }
        lemma_record_of_distinct(before);
        lemma_key_index_from(before, entries.last().0, 0);
        assert(key_index(before, entries.last().0) is None) by {
            if key_index(before, entries.last().0) is Some {
                let i = key_index(before, entries.last().0)->0;
                assert(before[i] == entries[i]);
                assert(entries[i].0 != entries[entries.len() - 1].0);
            }
        }
        assert(before.push(entries.last()) =~= entries);
    } else {
        assert(entries =~= Seq::<(Seq<char>, Data)>::empty());
    }
}

/// The record of a map in which no key stands twice has one field for
/// each entry, in the order of the entries.
pub proof fn lemma_config_record(entries: Seq<(Seq<char>, Config)>)
    requires
        keys_unique(entries),
    ensures
        config_data(Config::Mapping(entries)) == Data::Record(entries_data(entries)),
        entries_data(entries).len() == entries.len(),
        forall|i: int|
            0 <= i < entries.len() ==> #[trigger] entries_data(entries)[i] == (
                entries[i].0,
                config_data(entries[i].1),
            ),
{
    lemma_entries_data(entries);
    let fields = entries_data(entries);
    assert(keys_unique(fields)) by {
        assert forall|i: int, j: int| 0 <= i < j < fields.len() implies (#[trigger] fields[i]).0
            != (#[trigger] fields[j]).0 by {
            assert(fields[i].0 == entries[i].0);
            assert(fields[j].0 == entries[j].0);
        }
    }
    lemma_record_of_distinct(fields);
}

/// The names of the fields of a document record are all different.
proof fn lemma_field_names()
    ensures
        "type"@ != "children"@,
        "type"@ != "level"@,
        "type"@ != "text"@,
        "type"@ != "info"@,
        "type"@ != "content"@,
        "type"@ != "ordered"@,
        "type"@ != "items"@,
        "level"@ != "text"@,
        "level"@ != "children"@,
        "text"@ != "children"@,
        "info"@ != "content"@,
        "ordered"@ != "items"@,
{
    reveal_strlit("type");
    reveal_strlit("children");
    reveal_strlit("level");
    reveal_strlit("text");
    reveal_strlit("info");
    reveal_strlit("content");
    reveal_strlit("ordered");
    reveal_strlit("items");
    assert("type"@.len() == 4 && "text"@.len() == 4 && "info"@.len() == 4);
    assert("level"@.len() == 5 && "items"@.len() == 5);
    assert("content"@.len() == 7 && "ordered"@.len() == 7);
    assert("children"@.len() == 8);
    assert("type"@[1] == 'y' && "text"@[1] == 'e');
    assert("type"@[0] == 't' && "info"@[0] == 'i');
    assert("content"@[0] == 'c' && "ordered"@[0] == 'o' && "info"@[0] == 'i');
    assert("level"@[0] == 'l' && "items"@[0] == 'i');
}

/// The record of a document node has the fields of its kind, each once
/// and in this order: `type` first, then what the node holds.
pub proof fn lemma_tree_record(t: Tree)
    ensures
        tree_data(t) == match t {
            Tree::Document { children } => Data::Record(
                seq![
                    ("type"@, Data::Text("Document"@)),
                    ("children"@, Data::List(children_data(children))),
                ],
            ),
            Tree::Heading { level, children } => Data::Record(
                seq![
                    ("type"@, Data::Text("Heading"@)),
                    ("level"@, Data::Number(level as int)),
                    ("text"@, Data::Text(heading_text(children))),
                    ("children"@, Data::List(children_data(children))),
                ],
            ),
            Tree::Paragraph { children } => Data::Record(
                seq![
                    ("type"@, Data::Text("Paragraph"@)),
                    ("children"@, Data::List(children_data(children))),
                ],
            ),
            Tree::CodeBlock { info: Some(lang), content } => Data::Record(
                seq![
                    ("type"@, Data::Text("CodeBlock"@)),
                    ("info"@, Data::Text(lang)),
                    ("content"@, Data::Text(content)),
                ],
            ),
            Tree::CodeBlock { info: None, content } => Data::Record(
                seq![("type"@, Data::Text("CodeBlock"@)), ("content"@, Data::Text(content))],
            ),
            Tree::List { ordered, items } => Data::Record(
                seq![
                    ("type"@, Data::Text("List"@)),
                    ("ordered"@, Data::Flag(ordered)),
                    ("items"@, Data::List(trees_data(items))),
                ],
            ),
            Tree::ListItem { children } => Data::Record(
                seq![
                    ("type"@, Data::Text("ListItem"@)),
                    ("children"@, Data::List(children_data(children))),
                ],
            ),
        },
{
    lemma_field_names();
    match t {
        Tree::Document { children } => {
            lemma_record_of_distinct(
                seq![
                    ("type"@, Data::Text("Document"@)),
                    ("children"@, Data::List(children_data(children))),
                ],
            );
        },
        Tree::Heading { level, children } => {
            lemma_record_of_distinct(
                seq![
                    ("type"@, Data::Text("Heading"@)),
                    ("level"@, Data::Number(level as int)),
                    ("text"@, Data::Text(heading_text(children))),
                    ("children"@, Data::List(children_data(children))),
                ],
            );
        },
        Tree::Paragraph { children } => {
            lemma_record_of_distinct(
                seq![
                    ("type"@, Data::Text("Paragraph"@)),
                    ("children"@, Data::List(children_data(children))),
                ],
            );
        },
        Tree::CodeBlock { info: Some(lang), content } => {
            lemma_record_of_distinct(
                seq![
                    ("type"@, Data::Text("CodeBlock"@)),
                    ("info"@, Data::Text(lang)),
                    ("content"@, Data::Text(content)),
                ],
            );
        },
        Tree::CodeBlock { info: None, content } => {
            lemma_record_of_distinct(
                seq![("type"@, Data::Text("CodeBlock"@)), ("content"@, Data::Text(content))],
            );
        },
        Tree::List { ordered, items } => {
            lemma_record_of_distinct(
                seq![
                    ("type"@, Data::Text("List"@)),
                    ("ordered"@, Data::Flag(ordered)),
                    ("items"@, Data::List(trees_data(items))),
                ],
            );
        },
        Tree::ListItem { children } => {
            lemma_record_of_distinct(
                seq![
                    ("type"@, Data::Text("ListItem"@)),
                    ("children"@, Data::List(children_data(children))),
                ],
            );
        },
    }
}

/// `serde_json::Value`: the tree that the serializers are handed.
#[verifier::external_type_specification]
#[verifier::external_body]
pub struct ExValue(serde_json::Value);

/// `serde_json::Error`: why the JSON serializer refused.
#[verifier::external_type_specification]
#[verifier::external_body]
pub struct ExJsonError(serde_json::Error);

/// `serde_yaml::Error`: why the YAML serializer refused.
#[verifier::external_type_specification]
#[verifier::external_body]
pub struct ExYamlError(serde_yaml::Error);

/// `toml::ser::Error`: why the TOML serializer refused.
#[verifier::external_type_specification]
#[verifier::external_body]
pub struct ExTomlError(toml::ser::Error);

/// `quick_xml::DeError`: why the XML serializer refused.
#[verifier::external_type_specification]
#[verifier::external_body]
pub struct ExXmlError(quick_xml::DeError);

/// What a `serde_json::Value` holds, where it is made of truth values,
/// whole numbers, text, lists and records.
pub uninterp spec fn value_data(v: serde_json::Value) -> Data;

/// What the values hold, in order.
pub open spec fn values_data(vs: Seq<serde_json::Value>) -> Seq<Data> {
    Seq::new(vs.len(), |i: int| value_data(vs[i]))
}

/// What the named values hold, in order.
pub open spec fn fields_data(fs: Seq<(String, serde_json::Value)>) -> Seq<(Seq<char>, Data)> {
    Seq::new(fs.len(), |i: int| (fs[i].0@, value_data(fs[i].1)))
}

/// `serde_json::Value::Bool`.
#[verifier::external_body]
fn json_flag(b: bool) -> (v: serde_json::Value)
    ensures
        value_data(v) == Data::Flag(b),
{
    serde_json::Value::Bool(b)
}

/// `serde_json::Value::from` on a `u8`: the number itself.
#[verifier::external_body]
fn json_number(n: u8) -> (v: serde_json::Value)
    ensures
        value_data(v) == Data::Number(n as int),
{
    serde_json::Value::from(n)
}

/// `serde_json::Value::String`.
#[verifier::external_body]
fn json_text(s: String) -> (v: serde_json::Value)
    ensures
        value_data(v) == Data::Text(s@),
{
    serde_json::Value::String(s)
}

/// `serde_json::Value::Array`.
#[verifier::external_body]
fn json_list(items: Vec<serde_json::Value>) -> (v: serde_json::Value)
    ensures
        value_data(v) == Data::List(values_data(items@)),
{
    serde_json::Value::Array(items)
}

/// `serde_json::Value::Object` of the `serde_json::Map` that `from_iter`
/// makes of the fields: they are inserted one after the other, and the map
/// keeps the order of insertion; a name that comes again keeps its place
/// and takes the later value.
#[verifier::external_body]
fn json_record(fields: Vec<(String, serde_json::Value)>) -> (v: serde_json::Value)
    ensures
        value_data(v) == record(fields_data(fields@)),
{
    serde_json::Value::Object(serde_json::Map::from_iter(fields))
}

/// The text that `serde_json::to_string_pretty` gives for a value that
/// holds `d`, or `None` where it fails.
pub uninterp spec fn json_rendering(d: Data) -> Option<Seq<char>>;

/// The text that `serde_yaml::to_string` gives for a value that holds `d`,
/// or `None` where it fails.
pub uninterp spec fn yaml_rendering(d: Data) -> Option<Seq<char>>;

/// The text that `toml::to_string_pretty` gives for a value that holds
/// `d`, or `None` where it fails.
pub uninterp spec fn toml_rendering(d: Data) -> Option<Seq<char>>;

/// The text that `quick_xml::se::to_string_with_root` gives for the root
/// tag `root` and a value that holds `d`, or `None` where it fails.
pub uninterp spec fn xml_rendering(root: Seq<char>, d: Data) -> Option<Seq<char>>;

/// `serde_json::to_string_pretty`: the outcome depends on what the value
/// holds alone.
#[verifier::external_body]
fn to_json(value: &serde_json::Value) -> (r: Result<String, serde_json::Error>)
    ensures
        match r {
            Ok(text) => json_rendering(value_data(*value)) == Some(text@),
            Err(_) => json_rendering(value_data(*value)) is None,
        },
{
    serde_json::to_string_pretty(value)
}

/// `serde_yaml::to_string`: the outcome depends on what the value holds alone.
#[verifier::external_body]
fn to_yaml(value: &serde_json::Value) -> (r: Result<String, serde_yaml::Error>)
    ensures
        match r {
            Ok(text) => yaml_rendering(value_data(*value)) == Some(text@),
            Err(_) => yaml_rendering(value_data(*value)) is None,
        },
{
    serde_yaml::to_string(value)
}

/// `toml::to_string_pretty`: the outcome depends on what the value holds alone.
#[verifier::external_body]
fn to_toml(value: &serde_json::Value) -> (r: Result<String, toml::ser::Error>)
    ensures
        match r {
            Ok(text) => toml_rendering(value_data(*value)) == Some(text@),
            Err(_) => toml_rendering(value_data(*value)) is None,
        },
{
    toml::to_string_pretty(value)
}

/// `quick_xml::se::to_string_with_root`: the outcome depends on the root
/// tag and on what the value holds alone.
#[verifier::external_body]
fn to_xml(root: &str, value: &serde_json::Value) -> (r: Result<String, quick_xml::DeError>)
    ensures
        match r {
            Ok(text) => xml_rendering(root@, value_data(*value)) == Some(text@),
            Err(_) => xml_rendering(root@, value_data(*value)) is None,
        },
{
    quick_xml::se::to_string_with_root(root, value)
}

/// `children_data` goes child by child.
proof fn lemma_children_data(children: Seq<Child>)
    ensures
        children_data(children).len() == children.len(),
        forall|i: int|
            0 <= i < children.len() ==> #[trigger] children_data(children)[i] == child_data(
                children[i],
            ),
    decreases children.len(),
{
    if children.len() > 0 {
        lemma_children_data(children.drop_last());
    }
}

/// `trees_data` goes node by node.
proof fn lemma_trees_data(trees: Seq<Tree>)
    ensures
        trees_data(trees).len() == trees.len(),
        forall|i: int| 0 <= i < trees.len() ==> #[trigger] trees_data(trees)[i] == tree_data(trees[i]),
    decreases trees.len(),
{
    if trees.len() > 0 {
        lemma_trees_data(trees.drop_last());
    }
}

/// `configs_data` goes item by item.
proof fn lemma_configs_data(items: Seq<Config>)
    ensures
        configs_data(items).len() == items.len(),
        forall|i: int|
            0 <= i < items.len() ==> #[trigger] configs_data(items)[i] == config_data(items[i]),
    decreases items.len(),
{
    if items.len() > 0 {
        lemma_configs_data(items.drop_last());
    }
}

/// `entries_data` goes entry by entry.
proof fn lemma_entries_data(entries: Seq<(Seq<char>, Config)>)
    ensures
        entries_data(entries).len() == entries.len(),
        forall|i: int|
            0 <= i < entries.len() ==> #[trigger] entries_data(entries)[i] == (
                entries[i].0,
                config_data(entries[i].1),
            ),
    decreases entries.len(),
{
    if entries.len() > 0 {
        lemma_entries_data(entries.drop_last());
    }
}

/// The text of a heading grows with its children.
proof fn lemma_heading_text_push(children: Seq<Child>, child: Child)
    ensures
        heading_text(children.push(child)) == heading_text(children) + match child {
            Child::Text(text) => text,
            Child::Node(_) => Seq::empty(),
        },
{
    assert(children.push(child).drop_last() =~= children);
}

/// The text children of a node, one after the other.
fn text_of(children: &Vec<NodeOrString>) -> (text: String)
    ensures
        text@ == heading_text(children_view(children@)),
{
    let mut text = String::new();
    let mut i: usize = 0;
    proof {
        lemma_children_view(children@);
    }
    let ghost models = children_view(children@);
    assert(models.take(0) =~= Seq::<Child>::empty());
    while i < children.len()
        invariant
            i <= children.len(),
            models == children_view(children@),
            models.len() == children.len(),
            forall|j: int| 0 <= j < children.len() ==> #[trigger] models[j] == child_view(children[j]),
            text@ == heading_text(models.take(i as int)),
        decreases children.len() - i,
    {
        proof {
            lemma_heading_text_push(models.take(i as int), models[i as int]);
            assert(models.take(i + 1) =~= models.take(i as int).push(models[i as int]));
        }
        match &children[i] {
            NodeOrString::String(part) => {
                text.append(part.as_str());
            },
            NodeOrString::Node(_) => {
                assert(text@ + Seq::<char>::empty() =~= text@);
            },
        }
        i += 1;
    }
    assert(models.take(children.len() as int) =~= models);
    text
}

/// A record of a kind that has children.
fn children_value(children: &Vec<NodeOrString>) -> (v: serde_json::Value)
    ensures
        value_data(v) == Data::List(children_data(children_view(children@))),
    decreases children,
{
    let mut values: Vec<serde_json::Value> = Vec::new();
    let mut i: usize = 0;
    let ghost models = children_view(children@);
    proof {
        lemma_children_view(children@);
        lemma_children_data(models);
    }
    while i < children.len()
        invariant
            i <= children.len(),
            values.len() == i,
            models == children_view(children@),
            models.len() == children.len(),
            children_data(models).len() == children.len(),
            forall|j: int| 0 <= j < children.len() ==> #[trigger] models[j] == child_view(children[j]),
            forall|j: int|
                0 <= j < children.len() ==> #[trigger] children_data(models)[j] == child_data(
                    models[j],
                ),
            forall|j: int| 0 <= j < i ==> value_data(#[trigger] values[j]) == child_data(models[j]),
        decreases children.len() - i,
    {
        proof {
            assert(decreases_to!(*children => children[i as int]));
        }
        let value = match &children[i] {
            NodeOrString::String(text) => {
                let mut fields: Vec<(String, serde_json::Value)> = Vec::new();
                fields.push((String::from_str("type"), json_text(String::from_str("Text"))));
                fields.push((String::from_str("content"), json_text(text.clone())));
                assert(fields_data(fields@) =~= seq![
                    ("type"@, Data::Text("Text"@)),
                    ("content"@, Data::Text(text@)),
                ]);
                json_record(fields)
            },
            NodeOrString::Node(node) => node_value(&**node),
        };
        values.push(value);
        i += 1;
    }
    assert(values_data(values@) =~= children_data(models));
    json_list(values)
}

/// The document node as a value for the serializers.
pub fn node_value(node: &Node) -> (v: serde_json::Value)
    ensures
        value_data(v) == tree_data(node@),
    decreases node,
{
    let mut fields: Vec<(String, serde_json::Value)> = Vec::new();
    match node {
        Node::Document { children } => {
            let list = children_value(children);
            fields.push((String::from_str("type"), json_text(String::from_str("Document"))));
            fields.push((String::from_str("children"), list));
            assert(fields_data(fields@) =~= seq![
                ("type"@, Data::Text("Document"@)),
                ("children"@, Data::List(children_data(children_view(children@)))),
            ]);
        },
        Node::Heading { level, children } => {
            let list = children_value(children);
            fields.push((String::from_str("type"), json_text(String::from_str("Heading"))));
            fields.push((String::from_str("level"), json_number(*level)));
            fields.push((String::from_str("text"), json_text(text_of(children))));
            fields.push((String::from_str("children"), list));
            assert(fields_data(fields@) =~= seq![
                ("type"@, Data::Text("Heading"@)),
                ("level"@, Data::Number(*level as int)),
                ("text"@, Data::Text(heading_text(children_view(children@)))),
                ("children"@, Data::List(children_data(children_view(children@)))),
            ]);
        },
        Node::Paragraph { children } => {
            let list = children_value(children);
            fields.push((String::from_str("type"), json_text(String::from_str("Paragraph"))));
            fields.push((String::from_str("children"), list));
            assert(fields_data(fields@) =~= seq![
                ("type"@, Data::Text("Paragraph"@)),
                ("children"@, Data::List(children_data(children_view(children@)))),
            ]);
        },
        Node::CodeBlock { info, content } => {
            fields.push((String::from_str("type"), json_text(String::from_str("CodeBlock"))));
            match info {
                Some(lang) => {
                    fields.push((String::from_str("info"), json_text(lang.clone())));
                    fields.push((String::from_str("content"), json_text(content.clone())));
                    assert(fields_data(fields@) =~= seq![
                        ("type"@, Data::Text("CodeBlock"@)),
                        ("info"@, Data::Text(lang@)),
                        ("content"@, Data::Text(content@)),
                    ]);
                },
                None => {
                    fields.push((String::from_str("content"), json_text(content.clone())));
                    assert(fields_data(fields@) =~= seq![
                        ("type"@, Data::Text("CodeBlock"@)),
                        ("content"@, Data::Text(content@)),
                    ]);
                },
            }
        },
        Node::List { ordered, items } => {
            let mut values: Vec<serde_json::Value> = Vec::new();
            let mut i: usize = 0;
            let ghost models = nodes_view(items@);
            proof {
                lemma_nodes_view(items@);
                lemma_trees_data(models);
            }
            while i < items.len()
                invariant
                    i <= items.len(),
                    values.len() == i,
                    decreases_to!(*node => *items),
                    models == nodes_view(items@),
                    models.len() == items.len(),
                    trees_data(models).len() == items.len(),
                    forall|j: int| 0 <= j < items.len() ==> #[trigger] models[j] == node_view(items[j]),
                    forall|j: int|
                        0 <= j < items.len() ==> #[trigger] trees_data(models)[j] == tree_data(
                            models[j],
                        ),
                    forall|j: int|
                        0 <= j < i ==> value_data(#[trigger] values[j]) == tree_data(models[j]),
                decreases items.len() - i,
            {
                proof {
                    assert(decreases_to!(*items => items[i as int]));
                }
                let value = node_value(&items[i]);
                values.push(value);
                i += 1;
            }
            assert(values_data(values@) =~= trees_data(models));
            fields.push((String::from_str("type"), json_text(String::from_str("List"))));
            fields.push((String::from_str("ordered"), json_flag(*ordered)));
            fields.push((String::from_str("items"), json_list(values)));
            assert(fields_data(fields@) =~= seq![
                ("type"@, Data::Text("List"@)),
                ("ordered"@, Data::Flag(*ordered)),
                ("items"@, Data::List(trees_data(models))),
            ]);
        },
        Node::ListItem { children } => {
            let list = children_value(children);
            fields.push((String::from_str("type"), json_text(String::from_str("ListItem"))));
            fields.push((String::from_str("children"), list));
            assert(fields_data(fields@) =~= seq![
                ("type"@, Data::Text("ListItem"@)),
                ("children"@, Data::List(children_data(children_view(children@)))),
            ]);
        },
    }
    json_record(fields)
}

/// The configuration node as a value for the serializers.
pub fn config_value(node: &MinifiedNode) -> (v: serde_json::Value)
    ensures
        value_data(v) == config_data(node@),
    decreases node,
{
    match node {
        MinifiedNode::String(text) => json_text(text.clone()),
        MinifiedNode::Array(items) => {
            let mut values: Vec<serde_json::Value> = Vec::new();
            let mut i: usize = 0;
            let ghost models = configs_view(items@);
            proof {
                lemma_configs_view(items@);
                lemma_configs_data(models);
            }
            while i < items.len()
                invariant
                    i <= items.len(),
                    values.len() == i,
                    decreases_to!(*node => *items),
                    models == configs_view(items@),
                    models.len() == items.len(),
                    configs_data(models).len() == items.len(),
                    forall|j: int|
                        0 <= j < items.len() ==> #[trigger] models[j] == config_view(items[j]),
                    forall|j: int|
                        0 <= j < items.len() ==> #[trigger] configs_data(models)[j] == config_data(
                            models[j],
                        ),
                    forall|j: int|
                        0 <= j < i ==> value_data(#[trigger] values[j]) == config_data(models[j]),
                decreases items.len() - i,
            {
                proof {
                    assert(decreases_to!(*items => items[i as int]));
                }
                let value = config_value(&items[i]);
                values.push(value);
                i += 1;
            }
            assert(values_data(values@) =~= configs_data(models));
            json_list(values)
        },
        MinifiedNode::Mapping(entries) => {
            let mut fields: Vec<(String, serde_json::Value)> = Vec::new();
            let mut i: usize = 0;
            let ghost models = entries_view(entries@);
            proof {
                lemma_entries_view(entries@);
                lemma_entries_data(models);
            }
            while i < entries.len()
                invariant
                    i <= entries.len(),
                    fields.len() == i,
                    decreases_to!(*node => *entries),
                    models == entries_view(entries@),
                    models.len() == entries.len(),
                    entries_data(models).len() == entries.len(),
                    forall|j: int|
                        0 <= j < entries.len() ==> #[trigger] models[j] == (
                            entries[j].0@,
                            config_view(entries[j].1),
                        ),
                    forall|j: int|
                        0 <= j < entries.len() ==> #[trigger] entries_data(models)[j] == (
                            models[j].0,
                            config_data(models[j].1),
                        ),
                    forall|j: int|
                        0 <= j < i ==> (#[trigger] fields[j]).0@ == models[j].0 && value_data(
                            fields[j].1,
                        ) == config_data(models[j].1),
                decreases entries.len() - i,
            {
                proof {
                    assert(decreases_to!(*entries => entries[i as int]));
                }
                let value = config_value(&entries[i].1);
                fields.push((entries[i].0.clone(), value));
                i += 1;
            }
            assert(fields_data(fields@) =~= entries_data(models));
            json_record(fields)
        },
    }
}

/// The root tag of the XML text of a tree: the name of its kind.
pub open spec fn root_tag(mode: ParsingMode) -> Seq<char> {
    match mode {
        ParsingMode::Document => "Node"@,
        ParsingMode::Minified => "MinifiedNode"@,
    }
}

/// The text of `d` in a format, or `None` where its serializer fails.
pub open spec fn rendering(fmt: OutputFormat, root: Seq<char>, d: Data) -> Option<Seq<char>> {
    match fmt {
        OutputFormat::Json => json_rendering(d),
        OutputFormat::Yaml => yaml_rendering(d),
        OutputFormat::Toml => toml_rendering(d),
        OutputFormat::Xml => xml_rendering(root, d),
    }
}

/// Writes a value in a format. `root` is the root tag of XML text; the
/// other formats have none.
pub fn serialize_ast(value: &serde_json::Value, fmt: OutputFormat, root: &str) -> (r: Result<
    String,
    ConvertError,
>)
    ensures
        match r {
            Ok(text) => rendering(fmt, root@, value_data(*value)) == Some(text@),
            Err(ConvertError::Ser(_)) => rendering(fmt, root@, value_data(*value)) is None,
            Err(_) => false,
        },
{
    match fmt {
        OutputFormat::Json => match to_json(value) {
            Ok(text) => Ok(text),
            Err(e) => Err(ConvertError::Ser(e.to_string())),
        },
        OutputFormat::Yaml => match to_yaml(value) {
            Ok(text) => Ok(text),
            Err(e) => Err(ConvertError::Ser(e.to_string())),
        },
        OutputFormat::Toml => match to_toml(value) {
            Ok(text) => Ok(text),
            Err(e) => Err(ConvertError::Ser(e.to_string())),
        },
        OutputFormat::Xml => match to_xml(root, value) {
            Ok(text) => Ok(text),
            Err(e) => Err(ConvertError::Ser(e.to_string())),
        },
    }
}

/// What a run of events is as data, in a mode and for a format: the
/// document tree, or the configuration tree, its keys sanitized where the
/// format is XML. `Err` with the index of the event at which the document
/// builder fails.
pub open spec fn data_of(tokens: Seq<crate::events::Token>, fmt: OutputFormat, mode: ParsingMode) -> Result<
    Data,
    int,
> {
    match mode {
        ParsingMode::Document => match document_of(tokens) {
            Ok(tree) => Ok(tree_data(tree)),
            Err(index) => Err(index),
        },
        ParsingMode::Minified => Ok(
            config_data(
                if fmt == OutputFormat::Xml {
                    sanitized_keys(config_of(tokens))
                } else {
                    config_of(tokens)
                },
            ),
        ),
    }
}

/// Whether `r` is what converting a run of events gives: the text that
/// the serializer wrote; `Ser` where the serializer refused the tree;
/// `Structure` where the events are no document.
pub open spec fn converts_to(
    r: Result<String, ConvertError>,
    tokens: Seq<crate::events::Token>,
    fmt: OutputFormat,
    mode: ParsingMode,
) -> bool {
    match r {
        Ok(text) => data_of(tokens, fmt, mode) matches Ok(d) && rendering(fmt, root_tag(mode), d)
            == Some(text@),
        Err(ConvertError::Ser(_)) => data_of(tokens, fmt, mode) matches Ok(d) && rendering(
            fmt,
            root_tag(mode),
            d,
        ) is None,
        Err(ConvertError::Structure(ParseError::UnmatchedEnd { index })) => data_of(
            tokens,
            fmt,
            mode,
        ) == Err::<Data, int>(index as int),
        Err(ConvertError::UnsupportedFormat) => false,
    }
}

/// Reads a Markdown text in a mode and writes its tree in a format.
///
/// Fails with `Structure` exactly where the events of the text are no
/// document, and with `Ser` exactly where the serializer refuses the tree.
pub fn convert_str(input: &str, fmt: OutputFormat, mode: ParsingMode) -> (r: Result<
    String,
    ConvertError,
>)
    ensures
        converts_to(r, event_stream(input@), fmt, mode),
{
    match mode {
        ParsingMode::Document => {
            match parse_markdown(input) {
                Ok(ast) => {
                    let value = node_value(&ast);
                    serialize_ast(&value, fmt, "Node")
                },
                Err(e) => Err(ConvertError::Structure(e)),
            }
        },
        ParsingMode::Minified => {
            let ast = parse_markdown_minified(input);
            let ast = match fmt {
                OutputFormat::Xml => sanitize_keys(ast),
                _ => ast,
            };
            let value = config_value(&ast);
            serialize_ast(&value, fmt, "MinifiedNode")
        },
    }
}

/// Reads a Markdown text as a document and writes it in the format of
/// the given name; a failure comes as its message.
pub fn convert(input: &str, format: &str) -> (r: Result<String, String>)
    ensures
        match format_named(format@) {
            None => r matches Err(message) && message@
                == "invalid format (use json|yaml|toml|xml)"@,
            Some(fmt) => exists|inner: Result<String, ConvertError>|
                {
                    &&& #[trigger] converts_to(
                        inner,
                        event_stream(input@),
                        fmt,
                        ParsingMode::Document,
                    )
                    &&& match inner {
                        Ok(text) => r matches Ok(t) && t@ == text@,
                        Err(e) => r matches Err(message) && message@ == e.message_spec(),
                    }
                },
        },
{
    match OutputFormat::from_str(format) {
        None => Err(String::from_str("invalid format (use json|yaml|toml|xml)")),
        Some(fmt) => {
            let inner = convert_str(input, fmt, ParsingMode::default());
            let r = match &inner {
                Ok(text) => Ok(text.clone()),
                Err(e) => Err(e.message()),
            };
            assert(converts_to(inner, event_stream(input@), fmt, ParsingMode::Document));
            r
        },
    }
}

} // verus!
