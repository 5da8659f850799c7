//! The configuration builder: headings become the keys of nested maps, and
//! what stands under a heading becomes the value of its key.

use crate::ast::{
    config_view, config_well_formed, configs_view, entries_view, key_index, key_index_from,
    keys_unique, lemma_configs_push, lemma_configs_view, lemma_entries_push, lemma_entries_view,
    lemma_key_index_from, Config, MinifiedNode,
};
use crate::events::{event_stream, tokenize, Block, BlockEnd, Fence, Token};
use crate::text::{spaces, trimmed};
use vstd::prelude::*;
use vstd::string::StringExecFns;

verus! {

/// The keys of a heading path, outermost first.
pub open spec fn path_keys(path: Seq<(u8, String)>) -> Seq<Seq<char>> {
    Seq::new(path.len(), |i: int| path[i].1@)
}

/// The entries of a map; a leaf or a list has none.
pub open spec fn entries_of(node: Config) -> Seq<(Seq<char>, Config)> {
    match node {
        Config::Mapping(entries) => entries,
        _ => Seq::empty(),
    }
}

/// `node` made into a map in which the path `keys` leads through maps to a
/// map. A leaf or a list in the way is replaced by a map, a key that is
/// missing is added with an empty map; nothing else changes.
pub open spec fn with_path(node: Config, keys: Seq<Seq<char>>) -> Config
    decreases keys.len(),
{
    let entries = entries_of(node);
    if keys.len() == 0 {
        Config::Mapping(entries)
    } else {
        match key_index(entries, keys[0]) {
            Some(i) => Config::Mapping(
                entries.update(i, (entries[i].0, with_path(entries[i].1, keys.drop_first()))),
            ),
            None => Config::Mapping(
                entries.push(
                    (keys[0], with_path(Config::Mapping(Seq::empty()), keys.drop_first())),
                ),
            ),
        }
    }
}

/// `node` with the key `key`, and an empty leaf as its value, added at the
/// end of the map that the path `keys` leads to. A key that the map has
/// already is left as it is. Where the path does not lead through maps to a
/// map, nothing changes.
pub open spec fn with_key(node: Config, keys: Seq<Seq<char>>, key: Seq<char>) -> Config
    decreases keys.len(),
{
    match node {
        Config::Mapping(entries) => if keys.len() == 0 {
            if key_index(entries, key) is Some {
                node
            } else {
                Config::Mapping(entries.push((key, Config::Leaf(Seq::empty()))))
            }
        } else {
            match key_index(entries, keys[0]) {
                Some(i) => Config::Mapping(
                    entries.update(
                        i,
                        (entries[i].0, with_key(entries[i].1, keys.drop_first(), key)),
                    ),
                ),
                None => node,
            }
        },
        _ => node,
    }
}

/// Two line feeds: what parts a fragment from the next.
pub open spec fn blank_line() -> Seq<char> {
    seq!['\n', '\n']
}

/// The bullet lines of a list item: one line for a leaf, behind `margin`;
/// the lines of a nested list two spaces further in. A map has none.
pub open spec fn bullet_lines(node: Config, margin: Seq<char>) -> Seq<char>
    decreases node,
{
    match node {
        Config::Leaf(text) => margin + seq!['*', ' '] + text + seq!['\n'],
        Config::List(items) => bullet_lines_of(items, margin + seq![' ', ' ']),
        Config::Mapping(_) => Seq::empty(),
    }
}

/// The bullet lines of the items of a list, in order.
pub open spec fn bullet_lines_of(items: Seq<Config>, margin: Seq<char>) -> Seq<char>
    decreases items,
{
    if items.len() == 0 {
        Seq::empty()
    } else {
        bullet_lines_of(items.drop_last(), margin) + bullet_lines(items.last(), margin)
    }
}

/// A fragment as text: a leaf and a blank line, or the bullet lines of a
/// list and a line feed.
pub open spec fn fragment_text(fragment: Config) -> Seq<char> {
    match fragment {
        Config::Leaf(text) => text + blank_line(),
        Config::List(items) => bullet_lines_of(items, Seq::empty()) + seq!['\n'],
        Config::Mapping(_) => Seq::empty(),
    }
}

/// The fragments as one text, in order.
pub open spec fn fragments_text(content: Seq<Config>) -> Seq<char>
    decreases content.len(),
{
    if content.len() == 0 {
        Seq::empty()
    } else {
        fragments_text(content.drop_last()) + fragment_text(content.last())
    }
}

/// What a value that is already there puts before the fragments: a leaf
/// that is not empty stays, with a blank line after it.
pub open spec fn kept_text(prev: Config) -> Seq<char> {
    match prev {
        Config::Leaf(text) => if text.len() > 0 {
            text + blank_line()
        } else {
            Seq::empty()
        },
        _ => Seq::empty(),
    }
}

/// The value of a key after the fragments `content` were flushed to it.
///
/// A map stays: sections win over content. One list alone becomes the
/// value. Anything else becomes one leaf: the text that was there, then the
/// fragments, trimmed.
pub open spec fn merged(prev: Config, content: Seq<Config>) -> Config {
    if prev is Mapping {
        prev
    } else if content.len() == 1 && content[0] is List {
        content[0]
    } else {
        Config::Leaf(trimmed(kept_text(prev) + fragments_text(content)))
    }
}

/// `node` after the fragments `content` were flushed to the key that the
/// path `keys` ends in. Where the path is empty or does not lead through
/// maps to a key, nothing changes.
pub open spec fn with_content(node: Config, keys: Seq<Seq<char>>, content: Seq<Config>) -> Config
    decreases keys.len(),
{
    if keys.len() == 0 {
        node
    } else {
        match node {
            Config::Mapping(entries) => match key_index(entries, keys[0]) {
                Some(i) => Config::Mapping(
                    entries.update(
                        i,
                        (
                            entries[i].0,
                            if keys.len() == 1 {
                                merged(entries[i].1, content)
                            } else {
                                with_content(entries[i].1, keys.drop_first(), content)
                            },
                        ),
                    ),
                ),
                None => node,
            },
            _ => node,
        }
    }
}

/// How many events stand at `pos` and after it.
pub open spec fn left(tokens: Seq<Token>, pos: int) -> nat {
    if 0 <= pos <= tokens.len() {
        (tokens.len() - pos) as nat
    } else {
        0
    }
}

/// The fragments of a list item once its pending text `buf` is closed:
/// the text, trimmed, is the last fragment unless nothing is left of it.
pub open spec fn closed_parts(parts: Seq<Config>, buf: Seq<char>) -> Seq<Config> {
    if trimmed(buf).len() > 0 {
        parts.push(Config::Leaf(trimmed(buf)))
    } else {
        parts
    }
}

/// The pending text of a list item after a nested list began: gone if it
/// became a fragment.
pub open spec fn text_after_nested(buf: Seq<char>) -> Seq<char> {
    if trimmed(buf).len() > 0 {
        Seq::empty()
    } else {
        buf
    }
}

/// Reads a list from `pos`, just behind the event that began it, with
/// `items` read so far: the items of the list, and how many events were
/// read up to and with the end of the list.
///
/// Each item adds its fragments to the list, one entry each.
pub open spec fn list_from(tokens: Seq<Token>, pos: int, items: Seq<Config>) -> (Seq<Config>, nat)
    decreases left(tokens, pos),
{
    if pos < 0 || pos >= tokens.len() {
        (items, 0)
    } else {
        match tokens[pos] {
            Token::End(BlockEnd::List) => (items, 1),
            Token::Start(Block::Item) => {
                let (parts, used) = item_from(tokens, pos + 1, Seq::empty(), Seq::empty());
                let (all, more) = list_from(tokens, pos + 1 + used, items + parts);
                (all, 1 + used + more)
            },
            _ => {
                let (all, more) = list_from(tokens, pos + 1, items);
                (all, 1 + more)
            },
        }
    }
}

/// Reads a list item from `pos`, just behind the event that began it, with
/// the pending text `buf` and the fragments `parts` read so far: the
/// fragments of the item, and how many events were read up to and with the
/// end of the item.
///
/// Text gathers in `buf`, a line break counting as one space. A nested
/// list closes the text before it as a fragment and is itself the next.
pub open spec fn item_from(tokens: Seq<Token>, pos: int, buf: Seq<char>, parts: Seq<Config>) -> (
    Seq<Config>,
    nat,
)
    decreases left(tokens, pos),
{
    if pos < 0 || pos >= tokens.len() {
        (closed_parts(parts, buf), 0)
    } else {
        match tokens[pos] {
            Token::End(BlockEnd::Item) => (closed_parts(parts, buf), 1),
            Token::Start(Block::List(_)) => {
                let (inner, used) = list_from(tokens, pos + 1, Seq::empty());
                let (all, more) = item_from(
                    tokens,
                    pos + 1 + used,
                    text_after_nested(buf),
                    closed_parts(parts, buf).push(Config::List(inner)),
                );
                (all, 1 + used + more)
            },
            Token::Text(text) => {
                let (all, more) = item_from(tokens, pos + 1, buf + text@, parts);
                (all, 1 + more)
            },
            Token::Code(text) => {
                let (all, more) = item_from(tokens, pos + 1, buf + text@, parts);
                (all, 1 + more)
            },
            Token::SoftBreak => {
                let (all, more) = item_from(tokens, pos + 1, buf.push(' '), parts);
                (all, 1 + more)
            },
            Token::HardBreak => {
                let (all, more) = item_from(tokens, pos + 1, buf.push(' '), parts);
                (all, 1 + more)
            },
            _ => {
                let (all, more) = item_from(tokens, pos + 1, buf, parts);
                (all, 1 + more)
            },
        }
    }
}

/// The builder between two events.
pub struct ConfigState {
    /// The tree built so far.
    pub root: Config,
    /// The headings that are open, outermost first, each with its level.
    pub path: Seq<(u8, Seq<char>)>,
    /// The text that is no fragment yet.
    pub buf: Seq<char>,
    /// The level of the heading whose text is being read.
    pub pending: Option<u8>,
    /// The fragments read since the last heading.
    pub content: Seq<Config>,
}

/// The keys of the open headings, outermost first.
pub open spec fn keys_of(path: Seq<(u8, Seq<char>)>) -> Seq<Seq<char>> {
    Seq::new(path.len(), |i: int| path[i].1)
}

/// The open headings that stay open when a heading of `level` begins:
/// those at the end of the path with that level or a deeper one close.
pub open spec fn popped(path: Seq<(u8, Seq<char>)>, level: u8) -> Seq<(u8, Seq<char>)>
    decreases path.len(),
{
    if path.len() > 0 && path.last().0 >= level {
        popped(path.drop_last(), level)
    } else {
        path
    }
}

/// The tree after the fragments read so far went to the innermost open
/// heading. Without an open heading, or without fragments, nothing changes.
pub open spec fn settled_root(st: ConfigState) -> Config {
    if st.path.len() > 0 && st.content.len() > 0 {
        with_content(st.root, keys_of(st.path), st.content)
    } else {
        st.root
    }
}

/// The fragments that are still pending after `settled_root`.
pub open spec fn settled_content(st: ConfigState) -> Seq<Config> {
    if st.path.len() > 0 && st.content.len() > 0 {
        Seq::empty()
    } else {
        st.content
    }
}

/// Three backticks.
pub open spec fn fence() -> Seq<char> {
    seq!['`', '`', '`']
}

/// The line that opens a code block in a leaf: the fence and the language tag.
pub open spec fn fence_line(kind: Fence) -> Seq<char> {
    match kind {
        Fence::Fenced(lang) => fence() + lang@ + seq!['\n'],
        Fence::Indented => fence() + seq!['\n'],
    }
}

/// The state after one event that does not begin a list.
pub open spec fn config_step(st: ConfigState, token: Token) -> ConfigState {
    match token {
        Token::Start(Block::Heading(level)) => ConfigState {
            root: settled_root(st),
            path: st.path,
            buf: Seq::empty(),
            pending: Some(level.number()),
            content: settled_content(st),
        },
        Token::End(BlockEnd::Heading) => match st.pending {
            Some(level) => {
                let key = trimmed(st.buf);
                let path = popped(st.path, level);
                ConfigState {
                    root: with_key(with_path(st.root, keys_of(path)), keys_of(path), key),
                    path: path.push((level, key)),
                    buf: Seq::empty(),
                    pending: None,
                    content: st.content,
                }
            },
            None => ConfigState { buf: Seq::empty(), ..st },
        },
        Token::Start(Block::CodeBlock(kind)) => ConfigState {
            buf: st.buf + fence_line(kind),
            ..st
        },
        Token::End(BlockEnd::CodeBlock) => ConfigState {
            buf: Seq::empty(),
            content: st.content.push(Config::Leaf(st.buf + fence() + seq!['\n'])),
            ..st
        },
        Token::Text(text) => ConfigState { buf: st.buf + text@, ..st },
        Token::Code(text) => ConfigState { buf: st.buf + text@, ..st },
        Token::SoftBreak => ConfigState { buf: st.buf.push('\n'), ..st },
        Token::HardBreak => ConfigState { buf: st.buf.push('\n'), ..st },
        Token::End(BlockEnd::Paragraph) => ConfigState {
            buf: Seq::empty(),
            content: if trimmed(st.buf).len() > 0 {
                st.content.push(Config::Leaf(trimmed(st.buf)))
            } else {
                st.content
            },
            ..st
        },
        _ => st,
    }
}

/// The state after the events from `pos` on, starting in `st`. A list is
/// read as a whole and becomes one fragment.
pub open spec fn config_from(tokens: Seq<Token>, pos: int, st: ConfigState) -> ConfigState
    decreases left(tokens, pos),
{
    if pos < 0 || pos >= tokens.len() {
        st
    } else {
        match tokens[pos] {
            Token::Start(Block::List(_)) => {
                let (items, used) = list_from(tokens, pos + 1, Seq::empty());
                config_from(
                    tokens,
                    pos + 1 + used,
                    ConfigState { content: st.content.push(Config::List(items)), ..st },
                )
            },
            token => config_from(tokens, pos + 1, config_step(st, token)),
        }
    }
}

/// The state in which the builder starts: an empty map, nothing open.
pub open spec fn config_start() -> ConfigState {
    ConfigState {
        root: Config::Mapping(Seq::empty()),
        path: Seq::empty(),
        buf: Seq::empty(),
        pending: None,
        content: Seq::empty(),
    }
}

/// The configuration tree that a run of events builds.
pub open spec fn config_of(tokens: Seq<Token>) -> Config {
    settled_root(config_from(tokens, 0, config_start()))
}

/// Whether every one of the fragments is well formed.
pub open spec fn all_well_formed(content: Seq<Config>) -> bool {
    forall|i: int| 0 <= i < content.len() ==> config_well_formed(#[trigger] content[i])
}

/// A value that replaces another under the same key keeps a map well formed.
proof fn lemma_update_well_formed(entries: Seq<(Seq<char>, Config)>, i: int, value: Config)
    requires
        config_well_formed(Config::Mapping(entries)),
        0 <= i < entries.len(),
        config_well_formed(value),
    ensures
        config_well_formed(Config::Mapping(entries.update(i, (entries[i].0, value)))),
{
    let next = entries.update(i, (entries[i].0, value));
    assert forall|a: int, b: int| 0 <= a < b < next.len() implies (#[trigger] next[a]).0 != (
    #[trigger] next[b]).0 by {
        assert(next[a].0 == entries[a].0);
        assert(next[b].0 == entries[b].0);
    }
    assert forall|a: int| 0 <= a < next.len() implies config_well_formed(
        (#[trigger] next[a]).1,
    ) by {
        if a != i {
            assert(next[a] == entries[a]);
        }
    }
}

/// A new key at the end keeps a map well formed.
proof fn lemma_push_well_formed(entries: Seq<(Seq<char>, Config)>, key: Seq<char>, value: Config)
    requires
        config_well_formed(Config::Mapping(entries)),
        key_index(entries, key) is None,
        config_well_formed(value),
    ensures
        config_well_formed(Config::Mapping(entries.push((key, value)))),
{
    lemma_key_index_from(entries, key, 0);
    let next = entries.push((key, value));
    assert forall|a: int, b: int| 0 <= a < b < next.len() implies (#[trigger] next[a]).0 != (
    #[trigger] next[b]).0 by {
        assert(next[a] == entries[a]);
        if b < entries.len() {
            assert(next[b] == entries[b]);
        }
    }
    assert forall|a: int| 0 <= a < next.len() implies config_well_formed(
        (#[trigger] next[a]).1,
    ) by {
        if a < entries.len() {
            assert(next[a] == entries[a]);
        }
    }
}

/// Making a path lead through maps gives a map and keeps the tree well formed.
pub proof fn lemma_with_path(node: Config, keys: Seq<Seq<char>>)
    requires
        config_well_formed(node),
    ensures
        with_path(node, keys) is Mapping,
        config_well_formed(with_path(node, keys)),
    decreases keys.len(),
{
    let entries = entries_of(node);
    assert(config_well_formed(Config::Mapping(entries)));
    if keys.len() > 0 {
        lemma_key_index_from(entries, keys[0], 0);
        match key_index(entries, keys[0]) {
            Some(i) => {
                lemma_with_path(entries[i].1, keys.drop_first());
                lemma_update_well_formed(entries, i, with_path(entries[i].1, keys.drop_first()));
            },
            None => {
                let empty = Config::Mapping(Seq::empty());
                assert(config_well_formed(empty));
                lemma_with_path(empty, keys.drop_first());
                lemma_push_well_formed(entries, keys[0], with_path(empty, keys.drop_first()));
            },
        }
    }
}

/// Adding a key keeps the kind of the root and keeps the tree well formed.
pub proof fn lemma_with_key(node: Config, keys: Seq<Seq<char>>, key: Seq<char>)
    requires
        config_well_formed(node),
    ensures
        with_key(node, keys, key) is Mapping <==> node is Mapping,
        config_well_formed(with_key(node, keys, key)),
    decreases keys.len(),
{
    match node {
        Config::Mapping(entries) => {
            if keys.len() == 0 {
                if key_index(entries, key) is None {
                    lemma_push_well_formed(entries, key, Config::Leaf(Seq::empty()));
                }
            } else {
                lemma_key_index_from(entries, keys[0], 0);
                match key_index(entries, keys[0]) {
                    Some(i) => {
                        lemma_with_key(entries[i].1, keys.drop_first(), key);
                        lemma_update_well_formed(
                            entries,
                            i,
                            with_key(entries[i].1, keys.drop_first(), key),
                        );
                    },
                    None => {},
                }
            }
        },
        _ => {},
    }
}

/// Flushing well-formed fragments keeps the kind of the root and keeps the
/// tree well formed.
pub proof fn lemma_with_content(node: Config, keys: Seq<Seq<char>>, content: Seq<Config>)
    requires
        config_well_formed(node),
        all_well_formed(content),
    ensures
        with_content(node, keys, content) is Mapping <==> node is Mapping,
        config_well_formed(with_content(node, keys, content)),
    decreases keys.len(),
{
    if keys.len() > 0 {
        match node {
            Config::Mapping(entries) => {
                lemma_key_index_from(entries, keys[0], 0);
                match key_index(entries, keys[0]) {
                    Some(i) => {
                        if keys.len() == 1 {
                            assert(config_well_formed(merged(entries[i].1, content)));
                            lemma_update_well_formed(entries, i, merged(entries[i].1, content));
                        } else {
                            lemma_with_content(entries[i].1, keys.drop_first(), content);
                            lemma_update_well_formed(
                                entries,
                                i,
                                with_content(entries[i].1, keys.drop_first(), content),
                            );
                        }
                    },
                    None => {},
                }
            },
            _ => {},
        }
    }
}

/// One more well-formed fragment.
proof fn lemma_all_well_formed_push(content: Seq<Config>, fragment: Config)
    requires
        all_well_formed(content),
        config_well_formed(fragment),
    ensures
        all_well_formed(content.push(fragment)),
{
    let next = content.push(fragment);
    assert forall|i: int| 0 <= i < next.len() implies config_well_formed(#[trigger] next[i]) by {
        if i < content.len() {
            assert(next[i] == content[i]);
        }
    }
}

/// Two runs of well-formed fragments, one after the other.
proof fn lemma_all_well_formed_add(a: Seq<Config>, b: Seq<Config>)
    requires
        all_well_formed(a),
        all_well_formed(b),
    ensures
        all_well_formed(a + b),
{
    let next = a + b;
    assert forall|i: int| 0 <= i < next.len() implies config_well_formed(#[trigger] next[i]) by {
        if i < a.len() {
            assert(next[i] == a[i]);
        } else {
            assert(next[i] == b[i - a.len()]);
        }
    }
}

/// A list reader reads no more events than there are, and what it reads
/// is well formed.
pub proof fn lemma_list_from(tokens: Seq<Token>, pos: int, items: Seq<Config>)
    requires
        all_well_formed(items),
    ensures
        list_from(tokens, pos, items).1 <= left(tokens, pos),
        all_well_formed(list_from(tokens, pos, items).0),
    decreases left(tokens, pos), 0nat,
{
    if 0 <= pos < tokens.len() {
        match tokens[pos] {
            Token::End(BlockEnd::List) => {},
            Token::Start(Block::Item) => {
                assert(all_well_formed(Seq::<Config>::empty()));
                lemma_item_from(tokens, pos + 1, Seq::empty(), Seq::empty());
                let (parts, used) = item_from(tokens, pos + 1, Seq::empty(), Seq::empty());
                lemma_all_well_formed_add(items, parts);
                lemma_list_from(tokens, pos + 1 + used, items + parts);
            },
            _ => {
                lemma_list_from(tokens, pos + 1, items);
            },
        }
    }
}

/// An item reader reads no more events than there are, and what it reads
/// is well formed.
pub proof fn lemma_item_from(tokens: Seq<Token>, pos: int, buf: Seq<char>, parts: Seq<Config>)
    requires
        all_well_formed(parts),
    ensures
        item_from(tokens, pos, buf, parts).1 <= left(tokens, pos),
        all_well_formed(item_from(tokens, pos, buf, parts).0),
    decreases left(tokens, pos), 0nat,
{
    lemma_all_well_formed_push(parts, Config::Leaf(trimmed(buf)));
    if 0 <= pos < tokens.len() {
        match tokens[pos] {
            Token::End(BlockEnd::Item) => {},
            Token::Start(Block::List(_)) => {
                assert(all_well_formed(Seq::<Config>::empty()));
                lemma_list_from(tokens, pos + 1, Seq::empty());
                let (inner, used) = list_from(tokens, pos + 1, Seq::empty());
                assert(config_well_formed(Config::List(inner)));
                lemma_all_well_formed_push(closed_parts(parts, buf), Config::List(inner));
                lemma_item_from(
                    tokens,
                    pos + 1 + used,
                    text_after_nested(buf),
                    closed_parts(parts, buf).push(Config::List(inner)),
                );
            },
            Token::Text(text) => {
                lemma_item_from(tokens, pos + 1, buf + text@, parts);
            },
            Token::Code(text) => {
                lemma_item_from(tokens, pos + 1, buf + text@, parts);
            },
            Token::SoftBreak => {
                lemma_item_from(tokens, pos + 1, buf.push(' '), parts);
            },
            Token::HardBreak => {
                lemma_item_from(tokens, pos + 1, buf.push(' '), parts);
            },
            _ => {
                lemma_item_from(tokens, pos + 1, buf, parts);
            },
        }
    }
}

/// What holds of the builder between any two events: the root is a map,
/// and the tree and the pending fragments are well formed.
pub open spec fn config_inv(st: ConfigState) -> bool {
    &&& st.root is Mapping
    &&& config_well_formed(st.root)
    &&& all_well_formed(st.content)
}

proof fn lemma_settled(st: ConfigState)
    requires
        config_inv(st),
    ensures
        settled_root(st) is Mapping,
        config_well_formed(settled_root(st)),
        all_well_formed(settled_content(st)),
{
    lemma_with_content(st.root, keys_of(st.path), st.content);
}

proof fn lemma_config_step(st: ConfigState, token: Token)
    requires
        config_inv(st),
    ensures
        config_inv(config_step(st, token)),
{
    match token {
        Token::Start(Block::Heading(_)) => {
            lemma_settled(st);
        },
        Token::End(BlockEnd::Heading) => {
            match st.pending {
                Some(level) => {
                    let path = popped(st.path, level);
                    lemma_with_path(st.root, keys_of(path));
                    lemma_with_key(with_path(st.root, keys_of(path)), keys_of(path), trimmed(st.buf));
                },
                None => {},
            }
        },
        Token::End(BlockEnd::CodeBlock) => {
            lemma_all_well_formed_push(st.content, Config::Leaf(st.buf + fence() + seq!['\n']));
        },
        Token::End(BlockEnd::Paragraph) => {
            lemma_all_well_formed_push(st.content, Config::Leaf(trimmed(st.buf)));
        },
        _ => {},
    }
}

proof fn lemma_config_from(tokens: Seq<Token>, pos: int, st: ConfigState)
    requires
        config_inv(st),
    ensures
        config_inv(config_from(tokens, pos, st)),
    decreases left(tokens, pos),
{
    if 0 <= pos < tokens.len() {
        match tokens[pos] {
            Token::Start(Block::List(_)) => {
                assert(all_well_formed(Seq::<Config>::empty()));
                lemma_list_from(tokens, pos + 1, Seq::empty());
                let (items, used) = list_from(tokens, pos + 1, Seq::empty());
                assert(config_well_formed(Config::List(items)));
                lemma_all_well_formed_push(st.content, Config::List(items));
                lemma_config_from(
                    tokens,
                    pos + 1 + used,
                    ConfigState { content: st.content.push(Config::List(items)), ..st },
                );
            },
            token => {
                lemma_config_step(st, token);
                lemma_config_from(tokens, pos + 1, config_step(st, token));
            },
        }
    }
}

/// Whatever the events, the tree that they build has a map as its root,
/// and no map in it has a key twice.
pub proof fn lemma_config_of(tokens: Seq<Token>)
    ensures
        config_of(tokens) is Mapping,
        config_well_formed(config_of(tokens)),
{
    let start = config_start();
    assert(config_inv(start)) by {
        assert(keys_unique(Seq::<(Seq<char>, Config)>::empty()));
        assert(config_well_formed(start.root));
    }
    lemma_config_from(tokens, 0, start);
    lemma_settled(config_from(tokens, 0, start));
}

/// The node that the path `keys` leads to through maps, if it leads to one.
pub open spec fn node_at(node: Config, keys: Seq<Seq<char>>) -> Option<Config>
    decreases keys.len(),
{
    if keys.len() == 0 {
        Some(node)
    } else {
        match node {
            Config::Mapping(entries) => match key_index(entries, keys[0]) {
                Some(i) => node_at(entries[i].1, keys.drop_first()),
                None => None,
            },
            _ => None,
        }
    }
}

/// A new value under a key that is there leaves every key where it is found.
proof fn lemma_key_index_update(
    entries: Seq<(Seq<char>, Config)>,
    i: int,
    value: Config,
    key: Seq<char>,
    from: int,
)
    requires
        0 <= i < entries.len(),
        0 <= from,
    ensures
        key_index_from(entries.update(i, (entries[i].0, value)), key, from) == key_index_from(
            entries,
            key,
            from,
        ),
    decreases entries.len() - from,
{
    if from < entries.len() {
        let next = entries.update(i, (entries[i].0, value));
        assert(next[from].0 == entries[from].0);
        if entries[from].0 != key {
            lemma_key_index_update(entries, i, value, key, from + 1);
        }
    }
}

/// A key that was missing is found at the end once it was added there.
proof fn lemma_key_index_push(
    entries: Seq<(Seq<char>, Config)>,
    key: Seq<char>,
    value: Config,
    from: int,
)
    requires
        0 <= from <= entries.len(),
        key_index_from(entries, key, from) is None,
    ensures
        key_index_from(entries.push((key, value)), key, from) == Some(entries.len() as int),
    decreases entries.len() - from,
{
    let next = entries.push((key, value));
    if from < entries.len() {
        assert(next[from] == entries[from]);
        lemma_key_index_push(entries, key, value, from + 1);
    }
}

/// After `with_path` the path leads to a map.
pub proof fn lemma_path_leads_to_a_map(node: Config, keys: Seq<Seq<char>>)
    ensures
        node_at(with_path(node, keys), keys) matches Some(tip) && tip is Mapping,
    decreases keys.len(),
{
    let entries = entries_of(node);
    if keys.len() > 0 {
        lemma_key_index_from(entries, keys[0], 0);
        match key_index(entries, keys[0]) {
            Some(i) => {
                let value = with_path(entries[i].1, keys.drop_first());
                lemma_path_leads_to_a_map(entries[i].1, keys.drop_first());
                lemma_key_index_update(entries, i, value, keys[0], 0);
            },
            None => {
                let value = with_path(Config::Mapping(Seq::empty()), keys.drop_first());
                lemma_path_leads_to_a_map(Config::Mapping(Seq::empty()), keys.drop_first());
                lemma_key_index_push(entries, keys[0], value, 0);
            },
        }
    }
}

/// Where the path leads to a map already, `with_path` changes nothing.
pub proof fn lemma_with_path_keeps_sections(node: Config, keys: Seq<Seq<char>>)
    requires
        node is Mapping,
        node_at(node, keys) matches Some(tip) && tip is Mapping,
    ensures
        with_path(node, keys) == node,
    decreases keys.len(),
{
    let entries = entries_of(node);
    if keys.len() > 0 {
        lemma_key_index_from(entries, keys[0], 0);
        let i = key_index(entries, keys[0])->0;
        let rest = keys.drop_first();
        assert(node_at(node, keys) == node_at(entries[i].1, rest));
        assert(entries[i].1 is Mapping) by {
            if rest.len() > 0 {
                assert(node_at(entries[i].1, rest) is Some);
            }
        }
        lemma_with_path_keeps_sections(entries[i].1, keys.drop_first());
        assert(entries.update(i, (entries[i].0, entries[i].1)) =~= entries);
    }
}

/// Where the path leads to a map, `with_key` leaves that map with the key:
/// as it was if it had the key, else with the key and an empty leaf last.
pub proof fn lemma_key_is_added(node: Config, keys: Seq<Seq<char>>, key: Seq<char>)
    requires
        node_at(node, keys) matches Some(tip) && tip is Mapping,
    ensures
        node_at(with_key(node, keys, key), keys) == Some(
            Config::Mapping(
                if key_index(entries_of(node_at(node, keys)->0), key) is Some {
                    entries_of(node_at(node, keys)->0)
                } else {
                    entries_of(node_at(node, keys)->0).push((key, Config::Leaf(Seq::empty())))
                },
            ),
        ),
    decreases keys.len(),
{
    if keys.len() > 0 {
        let entries = entries_of(node);
        lemma_key_index_from(entries, keys[0], 0);
        let i = key_index(entries, keys[0])->0;
        lemma_key_is_added(entries[i].1, keys.drop_first(), key);
        lemma_key_index_update(
            entries,
            i,
            with_key(entries[i].1, keys.drop_first(), key),
            keys[0],
            0,
        );
    }
}

/// Where the path leads to a node, `with_content` leaves there what
/// `merged` makes of that node and the fragments.
pub proof fn lemma_content_is_flushed(node: Config, keys: Seq<Seq<char>>, content: Seq<Config>)
    requires
        keys.len() > 0,
        node_at(node, keys) is Some,
    ensures
        node_at(with_content(node, keys, content), keys) == Some(
            merged(node_at(node, keys)->0, content),
        ),
    decreases keys.len(),
{
    let entries = entries_of(node);
    let rest = keys.drop_first();
    assert(node is Mapping);
    assert(key_index(entries, keys[0]) is Some);
    lemma_key_index_from(entries, keys[0], 0);
    let i = key_index(entries, keys[0])->0;
    assert(node_at(node, keys) == node_at(entries[i].1, rest));
    let value = if keys.len() == 1 {
        merged(entries[i].1, content)
    } else {
        with_content(entries[i].1, rest, content)
    };
    let after = entries.update(i, (entries[i].0, value));
    assert(with_content(node, keys, content) == Config::Mapping(after));
    lemma_key_index_update(entries, i, value, keys[0], 0);
    assert(key_index(after, keys[0]) == Some(i));
    assert(after[i].1 == value);
    assert(node_at(Config::Mapping(after), keys) == node_at(value, rest));
    if keys.len() == 1 {
        assert(rest.len() == 0);
    } else {
        lemma_content_is_flushed(entries[i].1, rest, content);
    }
}

/// Whether an event is one of inline formatting, or of another element
/// that the trees do not keep.
pub open spec fn is_formatting(token: Token) -> bool {
    ||| token matches Token::Start(Block::Other)
    ||| token matches Token::End(BlockEnd::Other)
    ||| token is Other
}

/// The builder loses formatting: an event of inline formatting changes
/// nothing, under a heading, in a list and in a list item.
pub proof fn lemma_formatting_is_lost(
    tokens: Seq<Token>,
    pos: int,
    st: ConfigState,
    items: Seq<Config>,
    buf: Seq<char>,
    parts: Seq<Config>,
)
    requires
        0 <= pos < tokens.len(),
        is_formatting(tokens[pos]),
    ensures
        config_from(tokens, pos, st) == config_from(tokens, pos + 1, st),
        list_from(tokens, pos, items).0 == list_from(tokens, pos + 1, items).0,
        list_from(tokens, pos, items).1 == 1 + list_from(tokens, pos + 1, items).1,
        item_from(tokens, pos, buf, parts).0 == item_from(tokens, pos + 1, buf, parts).0,
        item_from(tokens, pos, buf, parts).1 == 1 + item_from(tokens, pos + 1, buf, parts).1,
{
    assert(config_step(st, tokens[pos]) == st);
}

/// Whether the events from `pos` on are `n` plain items and then the end
/// of their list: each item is its start, one text that is not all white
/// space, and its end.
pub open spec fn plain_items(tokens: Seq<Token>, pos: int, n: nat) -> bool {
    &&& 0 <= pos
    &&& pos + 3 * n < tokens.len()
    &&& tokens[pos + 3 * n] == Token::End(BlockEnd::List)
    &&& forall|i: int|
        0 <= i < n ==> {
            &&& #[trigger] tokens[pos + 3 * i] == Token::Start(Block::Item)
            &&& tokens[pos + 3 * i + 1] matches Token::Text(text) && trimmed(text@).len() > 0
            &&& tokens[pos + 3 * i + 2] == Token::End(BlockEnd::Item)
        }
}

/// The text of the plain item `i` of the list that begins at `pos`, trimmed.
pub open spec fn plain_item_text(tokens: Seq<Token>, pos: int, i: int) -> Seq<char> {
    trimmed(tokens[pos + 3 * i + 1]->Text_0@)
}

proof fn lemma_plain_list_from(tokens: Seq<Token>, pos: int, n: nat, k: int, items: Seq<Config>)
    requires
        plain_items(tokens, pos, n),
        0 <= k <= n,
    ensures
        list_from(tokens, pos + 3 * k, items).0 == items + Seq::new(
            (n - k) as nat,
            |i: int| Config::Leaf(plain_item_text(tokens, pos, k + i)),
        ),
        list_from(tokens, pos + 3 * k, items).1 == 3 * (n - k) + 1,
    decreases n - k,
{
    let rest = Seq::new(
        (n - k) as nat,
        |i: int| Config::Leaf(plain_item_text(tokens, pos, k + i)),
    );
    let at = pos + 3 * k;
    if k == n {
        assert(items + rest =~= items);
    } else {
        assert(tokens[pos + 3 * k] == Token::Start(Block::Item));
        let text = tokens[at + 1]->Text_0@;
        let none = Seq::<Config>::empty();
        assert(tokens[at + 2] == Token::End(BlockEnd::Item));
        assert(Seq::<char>::empty() + text =~= text);
        assert(item_from(tokens, at + 2, text, none) == (closed_parts(none, text), 1nat));
        assert(item_from(tokens, at + 1, Seq::empty(), none) == (closed_parts(none, text), 2nat));
        let parts = closed_parts(none, text);
        assert(parts == none.push(Config::Leaf(trimmed(text))));
        assert(pos + 3 * (k + 1) == at + 3);
        lemma_plain_list_from(tokens, pos, n, k + 1, items + parts);
        let later = Seq::new(
            (n - k - 1) as nat,
            |i: int| Config::Leaf(plain_item_text(tokens, pos, k + 1 + i)),
        );
        assert(items + parts + later =~= items + rest);
    }
}

/// A list of `n` plain items is read as `n` leaves, one for each item and
/// in their order, each the text of its item, trimmed.
pub proof fn lemma_plain_list(tokens: Seq<Token>, pos: int, n: nat)
    requires
        plain_items(tokens, pos, n),
    ensures
        list_from(tokens, pos, Seq::empty()).0 == Seq::new(
            n,
            |i: int| Config::Leaf(plain_item_text(tokens, pos, i)),
        ),
        list_from(tokens, pos, Seq::empty()).0.len() == n,
        list_from(tokens, pos, Seq::empty()).1 == 3 * n + 1,
{
    lemma_plain_list_from(tokens, pos, n, 0, Seq::empty());
    let leaves = Seq::new(n, |i: int| Config::Leaf(plain_item_text(tokens, pos, i)));
    assert(Seq::<Config>::empty() + Seq::new(
        (n - 0) as nat,
        |i: int| Config::Leaf(plain_item_text(tokens, pos, 0 + i)),
    ) =~= leaves);
}

/// Sections win over content: fragments that are flushed to a key that
/// holds a map change nothing.
pub proof fn lemma_sections_win(entries: Seq<(Seq<char>, Config)>, content: Seq<Config>)
    ensures
        merged(Config::Mapping(entries), content) == Config::Mapping(entries),
{
}

/// One list alone becomes the value of its key as it is, item by item,
/// whatever leaf or list the key held before.
pub proof fn lemma_lone_list_stays(prev: Config, items: Seq<Config>)
    requires
        !(prev is Mapping),
    ensures
        merged(prev, seq![Config::List(items)]) == Config::List(items),
{
}

/// The index of the first entry with the key `key`.
fn find_key(entries: &Vec<(String, MinifiedNode)>, key: &String) -> (r: Option<usize>)
    ensures
        match r {
            Some(i) => key_index(entries_view(entries@), key@) == Some(i as int) && i
                < entries.len(),
            None => key_index(entries_view(entries@), key@) is None,
        },
{
    proof {
        lemma_entries_view(entries@);
    }
    let mut i: usize = 0;
    while i < entries.len()
        invariant
            i <= entries.len(),
            entries_view(entries@).len() == entries.len(),
            forall|j: int|
                0 <= j < entries.len() ==> #[trigger] entries_view(entries@)[j] == (
                    entries[j].0@,
                    config_view(entries[j].1),
                ),
            key_index(entries_view(entries@), key@) == key_index_from(
                entries_view(entries@),
                key@,
                i as int,
            ),
        decreases entries.len() - i,
    {
        if entries[i].0 == *key {
            return Some(i);
        }
        i += 1;
    }
    None
}

/// Takes the node out of `slot` and leaves an empty leaf there.
fn take_node(slot: &mut MinifiedNode) -> (node: MinifiedNode)
    ensures
        node == *old(slot),
{
    let mut taken = MinifiedNode::String(String::new());
    core::mem::swap(slot, &mut taken);
    taken
}

fn with_path_from(node: MinifiedNode, path: &[(u8, String)], from: usize) -> (r: MinifiedNode)
    requires
        from <= path.len(),
    ensures
        r@ == with_path(node@, path_keys(path@).skip(from as int)),
    decreases path.len() - from,
{
    let ghost keys = path_keys(path@).skip(from as int);
    let mut entries = match node {
        MinifiedNode::Mapping(entries) => entries,
        _ => Vec::new(),
    };
    assert(entries_view(entries@) == entries_of(node@));
    if from == path.len() {
        return MinifiedNode::Mapping(entries);
    }
    assert(keys[0] == path[from as int].1@);
    assert(keys.drop_first() =~= path_keys(path@).skip(from + 1));
    let ghost before = entries@;
    proof {
        lemma_entries_view(before);
    }
    match find_key(&entries, &path[from].1) {
        Some(i) => {
            let (key, value) = entries.remove(i);
            let value = with_path_from(value, path, from + 1);
            entries.insert(i, (key, value));
            proof {
                lemma_entries_view(entries@);
                assert(entries_view(entries@) =~= entries_view(before).update(
                    i as int,
                    (entries_view(before)[i as int].0, config_view(value)),
                ));
            }
        },
        None => {
            let value = with_path_from(MinifiedNode::Mapping(Vec::new()), path, from + 1);
            let key = path[from].1.clone();
            proof {
                lemma_entries_push(entries@, (key, value));
            }
            entries.push((key, value));
        },
    }
    MinifiedNode::Mapping(entries)
}

/// Makes the path lead through maps to a map: a leaf or a list in the way
/// is replaced by an empty map, a key that is missing is added.
pub fn ensure_path_is_map(root: &mut MinifiedNode, path: &[(u8, String)])
    ensures
        final(root)@ == with_path(old(root)@, path_keys(path@)),
{
    let node = take_node(root);
    assert(path_keys(path@).skip(0) =~= path_keys(path@));
    *root = with_path_from(node, path, 0);
}

fn with_key_from(node: MinifiedNode, path: &[(u8, String)], from: usize, key: String) -> (r:
    MinifiedNode)
    requires
        from <= path.len(),
    ensures
        r@ == with_key(node@, path_keys(path@).skip(from as int), key@),
    decreases path.len() - from,
{
    let ghost keys = path_keys(path@).skip(from as int);
    match node {
        MinifiedNode::Mapping(entries) => {
            let mut entries = entries;
            let ghost before = entries@;
            proof {
                lemma_entries_view(before);
            }
            if from == path.len() {
                match find_key(&entries, &key) {
                    Some(_) => {},
                    None => {
                        let value = MinifiedNode::String(String::new());
                        proof {
                            lemma_entries_push(entries@, (key, value));
                        }
                        entries.push((key, value));
                    },
                }
            } else {
                assert(keys[0] == path[from as int].1@);
                assert(keys.drop_first() =~= path_keys(path@).skip(from + 1));
                match find_key(&entries, &path[from].1) {
                    Some(i) => {
                        let (name, value) = entries.remove(i);
                        let value = with_key_from(value, path, from + 1, key);
                        entries.insert(i, (name, value));
                        proof {
                            lemma_entries_view(entries@);
                            assert(entries_view(entries@) =~= entries_view(before).update(
                                i as int,
                                (entries_view(before)[i as int].0, config_view(value)),
                            ));
                        }
                    },
                    None => {
                        assert(entries@ == before);
                    },
                }
            }
            MinifiedNode::Mapping(entries)
        },
        other => other,
    }
}

/// Adds `key`, with an empty leaf as its value, to the map that the path
/// leads to, unless the map has the key already.
pub fn add_key_to_map(root: &mut MinifiedNode, path: &[(u8, String)], key: String)
    ensures
        final(root)@ == with_key(old(root)@, path_keys(path@), key@),
{
    let node = take_node(root);
    assert(path_keys(path@).skip(0) =~= path_keys(path@));
    *root = with_key_from(node, path, 0, key);
}

/// The bullet lines of a list grow with the list.
proof fn lemma_bullet_lines_push(items: Seq<Config>, item: Config, margin: Seq<char>)
    ensures
        bullet_lines_of(items.push(item), margin) == bullet_lines_of(items, margin) + bullet_lines(
            item,
            margin,
        ),
{
    assert(items.push(item).drop_last() =~= items);
}

/// The text of a run of fragments grows with the run.
proof fn lemma_fragments_text_push(content: Seq<Config>, fragment: Config)
    ensures
        fragments_text(content.push(fragment)) == fragments_text(content) + fragment_text(
            fragment,
        ),
{
    assert(content.push(fragment).drop_last() =~= content);
}

/// The models of the first `n + 1` nodes are those of the first `n` and of the next.
proof fn lemma_configs_take(ns: Seq<MinifiedNode>, n: int)
    requires
        0 <= n < ns.len(),
    ensures
        configs_view(ns.take(n + 1)) == configs_view(ns.take(n)).push(config_view(ns[n])),
{
    assert(ns.take(n + 1).drop_last() =~= ns.take(n));
}

fn bullets_into(buf: &mut String, node: &MinifiedNode, margin: &String)
    ensures
        final(buf)@ == old(buf)@ + bullet_lines(node@, margin@),
    decreases node,
{
    match node {
        MinifiedNode::String(text) => {
            buf.append(margin.as_str());
            buf.push('*');
            buf.push(' ');
            buf.append(text.as_str());
            buf.push('\n');
            assert(buf@ =~= old(buf)@ + (margin@ + seq!['*', ' '] + text@ + seq!['\n']));
        },
        MinifiedNode::Array(items) => {
            let mut inner = margin.clone();
            inner.push(' ');
            inner.push(' ');
            assert(inner@ =~= margin@ + seq![' ', ' ']);
            let mut i: usize = 0;
            assert(items@.take(0) =~= Seq::<MinifiedNode>::empty());
            assert(buf@ =~= old(buf)@ + Seq::<char>::empty());
            while i < items.len()
                invariant
                    i <= items.len(),
                    decreases_to!(*node => *items),
                    buf@ == old(buf)@ + bullet_lines_of(
                        configs_view(items@.take(i as int)),
                        inner@,
                    ),
                decreases items.len() - i,
            {
                proof {
                    assert(decreases_to!(*items => items[i as int]));
                }
                bullets_into(buf, &items[i], &inner);
                proof {
                    lemma_configs_take(items@, i as int);
                    lemma_bullet_lines_push(
                        configs_view(items@.take(i as int)),
                        config_view(items[i as int]),
                        inner@,
                    );
                    assert(buf@ =~= old(buf)@ + bullet_lines_of(
                        configs_view(items@.take(i + 1)),
                        inner@,
                    ));
                }
                i += 1;
            }
            assert(items@.take(items.len() as int) =~= items@);
        },
        MinifiedNode::Mapping(_) => {
            assert(buf@ =~= old(buf)@ + Seq::<char>::empty());
        },
    }
}

/// Writes a list item as bullet lines behind `indent` spaces: one line for
/// a leaf, the lines of a nested list two spaces further in.
pub fn stringify_list_item(buf: &mut String, node: &MinifiedNode, indent: usize)
    ensures
        final(buf)@ == old(buf)@ + bullet_lines(node@, spaces(indent as nat)),
{
    let mut margin = String::new();
    let mut n: usize = 0;
    assert(margin@ =~= spaces(0));
    while n < indent
        invariant
            n <= indent,
            margin@ == spaces(n as nat),
        decreases indent - n,
    {
        margin.push(' ');
        n += 1;
        assert(margin@ =~= spaces(n as nat));
    }
    bullets_into(buf, node, &margin);
}

/// Writes a fragment as text: a leaf and a blank line, or the bullet lines
/// of a list and a line feed.
fn fragment_into(buf: &mut String, fragment: &MinifiedNode)
    ensures
        final(buf)@ == old(buf)@ + fragment_text(fragment@),
{
    match fragment {
        MinifiedNode::String(text) => {
            buf.append(text.as_str());
            buf.push('\n');
            buf.push('\n');
            assert(buf@ =~= old(buf)@ + (text@ + blank_line()));
        },
        MinifiedNode::Array(items) => {
            let mut i: usize = 0;
            assert(items@.take(0) =~= Seq::<MinifiedNode>::empty());
            assert(buf@ =~= old(buf)@ + Seq::<char>::empty());
            assert(spaces(0) =~= Seq::<char>::empty());
            while i < items.len()
                invariant
                    i <= items.len(),
                    spaces(0) == Seq::<char>::empty(),
                    buf@ == old(buf)@ + bullet_lines_of(
                        configs_view(items@.take(i as int)),
                        Seq::empty(),
                    ),
                decreases items.len() - i,
            {
                stringify_list_item(buf, &items[i], 0);
                proof {
                    lemma_configs_take(items@, i as int);
                    lemma_bullet_lines_push(
                        configs_view(items@.take(i as int)),
                        config_view(items[i as int]),
                        Seq::empty(),
                    );
                    assert(buf@ =~= old(buf)@ + bullet_lines_of(
                        configs_view(items@.take(i + 1)),
                        Seq::empty(),
                    ));
                }
                i += 1;
            }
            assert(items@.take(items.len() as int) =~= items@);
            buf.push('\n');
            assert(buf@ =~= old(buf)@ + (bullet_lines_of(configs_view(items@), Seq::empty())
                + seq!['\n']));
        },
        MinifiedNode::Mapping(_) => {
            assert(buf@ =~= old(buf)@ + Seq::<char>::empty());
        },
    }
}

/// The value of a key after the fragments `content` were flushed to it.
fn merge_content(prev: MinifiedNode, content: Vec<MinifiedNode>) -> (r: MinifiedNode)
    ensures
        r@ == merged(prev@, configs_view(content@)),
{
    proof {
        lemma_configs_view(content@);
    }
    let mut combined = String::new();
    match &prev {
        MinifiedNode::Mapping(_) => {
            return prev;
        },
        MinifiedNode::String(text) => {
            if !text.as_str().is_empty() {
                combined.append(text.as_str());
                combined.push('\n');
                combined.push('\n');
            }
        },
        MinifiedNode::Array(_) => {},
    }
    assert(combined@ =~= kept_text(prev@));
    if content.len() == 1 {
        let lone_list = match &content[0] {
            MinifiedNode::Array(_) => true,
            _ => false,
        };
        if lone_list {
            let mut content = content;
            return content.pop().unwrap();
        }
    }
    let mut i: usize = 0;
    assert(content@.take(0) =~= Seq::<MinifiedNode>::empty());
    assert(combined@ =~= kept_text(prev@) + Seq::<char>::empty());
    while i < content.len()
        invariant
            i <= content.len(),
            combined@ == kept_text(prev@) + fragments_text(configs_view(content@.take(i as int))),
        decreases content.len() - i,
    {
        fragment_into(&mut combined, &content[i]);
        proof {
            lemma_configs_take(content@, i as int);
            lemma_fragments_text_push(
                configs_view(content@.take(i as int)),
                config_view(content[i as int]),
            );
            assert(combined@ =~= kept_text(prev@) + fragments_text(
                configs_view(content@.take(i + 1)),
            ));
        }
        i += 1;
    }
    assert(content@.take(content.len() as int) =~= content@);
    MinifiedNode::String(combined.as_str().trim().to_owned())
}

fn with_content_from(
    node: MinifiedNode,
    path: &[(u8, String)],
    from: usize,
    content: Vec<MinifiedNode>,
) -> (r: MinifiedNode)
    requires
        from <= path.len(),
    ensures
        r@ == with_content(node@, path_keys(path@).skip(from as int), configs_view(content@)),
    decreases path.len() - from,
{
    let ghost keys = path_keys(path@).skip(from as int);
    if from == path.len() {
        return node;
    }
    assert(keys[0] == path[from as int].1@);
    assert(keys.drop_first() =~= path_keys(path@).skip(from + 1));
    match node {
        MinifiedNode::Mapping(entries) => {
            let mut entries = entries;
            let ghost before = entries@;
            proof {
                lemma_entries_view(before);
            }
            match find_key(&entries, &path[from].1) {
                Some(i) => {
                    let (name, value) = entries.remove(i);
                    let value = if from + 1 == path.len() {
                        merge_content(value, content)
                    } else {
                        with_content_from(value, path, from + 1, content)
                    };
                    entries.insert(i, (name, value));
                    proof {
                        lemma_entries_view(entries@);
                        assert(entries_view(entries@) =~= entries_view(before).update(
                            i as int,
                            (entries_view(before)[i as int].0, config_view(value)),
                        ));
                    }
                },
                None => {
                    assert(entries@ == before);
                },
            }
            MinifiedNode::Mapping(entries)
        },
        other => other,
    }
}

/// Flushes the fragments `content` to the key that the path ends in.
///
/// A key that holds a map keeps it: sections win over content. One list
/// alone becomes the value of the key. Anything else becomes one leaf.
pub fn append_content_to_tip(
    root: &mut MinifiedNode,
    path: &[(u8, String)],
    content: Vec<MinifiedNode>,
)
    ensures
        final(root)@ == with_content(old(root)@, path_keys(path@), configs_view(content@)),
{
    let node = take_node(root);
    assert(path_keys(path@).skip(0) =~= path_keys(path@));
    *root = with_content_from(node, path, 0, content);
}

/// The models of two runs of nodes, one after the other.
proof fn lemma_configs_add(a: Seq<MinifiedNode>, b: Seq<MinifiedNode>)
    ensures
        configs_view(a + b) == configs_view(a) + configs_view(b),
{
    lemma_configs_view(a);
    lemma_configs_view(b);
    lemma_configs_view(a + b);
    assert(configs_view(a + b) =~= configs_view(a) + configs_view(b));
}

/// Closes the pending text of a list item: trimmed, it becomes a fragment
/// unless nothing is left of it. Says whether it did.
fn close_text(parts: &mut Vec<MinifiedNode>, buf: &String) -> (closed: bool)
    ensures
        configs_view(final(parts)@) == closed_parts(configs_view(old(parts)@), buf@),
        closed == (trimmed(buf@).len() > 0),
{
    let text = buf.as_str().trim();
    if !text.is_empty() {
        let leaf = MinifiedNode::String(text.to_owned());
        proof {
            lemma_configs_push(parts@, leaf);
        }
        parts.push(leaf);
        true
    } else {
        false
    }
}

/// Reads one list item from `pos`, just behind the event that began it:
/// its fragments, and the position behind the end of the item.
fn parse_item(tokens: &[Token], pos: usize) -> (r: (Vec<MinifiedNode>, usize))
    requires
        pos <= tokens.len(),
    ensures
        configs_view(r.0@) == item_from(tokens@, pos as int, Seq::empty(), Seq::empty()).0,
        r.1 == pos + item_from(tokens@, pos as int, Seq::empty(), Seq::empty()).1,
        r.1 <= tokens.len(),
    decreases tokens.len() - pos,
{
    let mut parts: Vec<MinifiedNode> = Vec::new();
    let mut buf = String::new();
    let mut i = pos;
    let ghost goal = item_from(tokens@, pos as int, Seq::empty(), Seq::empty());
    proof {
        lemma_configs_view(parts@);
        assert(configs_view(parts@) =~= Seq::<Config>::empty());
    }
    while i < tokens.len()
        invariant
            pos <= i <= tokens.len(),
            goal == item_from(tokens@, pos as int, Seq::empty(), Seq::empty()),
            goal.0 == item_from(tokens@, i as int, buf@, configs_view(parts@)).0,
            goal.1 == (i - pos) + item_from(tokens@, i as int, buf@, configs_view(parts@)).1,
        decreases tokens.len() - i,
    {
        match &tokens[i] {
            Token::End(BlockEnd::Item) => {
                close_text(&mut parts, &buf);
                return (parts, i + 1);
            },
            Token::Start(Block::List(_)) => {
                if close_text(&mut parts, &buf) {
                    buf.clear();
                }
                let (nested, next) = list_at(tokens, i + 1);
                proof {
                    lemma_configs_push(parts@, nested);
                }
                parts.push(nested);
                i = next;
            },
            Token::Text(text) => {
                buf.append(text.as_str());
                i += 1;
            },
            Token::Code(text) => {
                buf.append(text.as_str());
                i += 1;
            },
            Token::SoftBreak => {
                buf.push(' ');
                i += 1;
            },
            Token::HardBreak => {
                buf.push(' ');
                i += 1;
            },
            _ => {
                i += 1;
            },
        }
    }
    close_text(&mut parts, &buf);
    (parts, i)
}

/// Reads a list from `pos`, just behind the event that began it: the list,
/// and the position behind its end.
///
/// An item with one fragment is that fragment; the fragments of an item
/// with several stand in the list side by side. Behind the last event
/// there is nothing to read: the list is empty and the position stays.
pub fn parse_recursive_list(tokens: &[Token], pos: usize) -> (r: (MinifiedNode, usize))
    ensures
        r.0@ == Config::List(list_from(tokens@, pos as int, Seq::empty()).0),
        r.1 == pos + list_from(tokens@, pos as int, Seq::empty()).1,
        pos <= tokens.len() ==> r.1 <= tokens.len(),
{
    if pos <= tokens.len() {
        list_at(tokens, pos)
    } else {
        let items: Vec<MinifiedNode> = Vec::new();
        proof {
            lemma_configs_view(items@);
            assert(configs_view(items@) =~= Seq::<Config>::empty());
        }
        (MinifiedNode::Array(items), pos)
    }
}

fn list_at(tokens: &[Token], pos: usize) -> (r: (MinifiedNode, usize))
    requires
        pos <= tokens.len(),
    ensures
        r.0@ == Config::List(list_from(tokens@, pos as int, Seq::empty()).0),
        r.1 == pos + list_from(tokens@, pos as int, Seq::empty()).1,
        r.1 <= tokens.len(),
    decreases tokens.len() - pos,
{
    let mut items: Vec<MinifiedNode> = Vec::new();
    let mut i = pos;
    let ghost goal = list_from(tokens@, pos as int, Seq::empty());
    proof {
        lemma_configs_view(items@);
        assert(configs_view(items@) =~= Seq::<Config>::empty());
    }
    while i < tokens.len()
        invariant
            pos <= i <= tokens.len(),
            goal == list_from(tokens@, pos as int, Seq::empty()),
            goal.0 == list_from(tokens@, i as int, configs_view(items@)).0,
            goal.1 == (i - pos) + list_from(tokens@, i as int, configs_view(items@)).1,
        decreases tokens.len() - i,
    {
        match &tokens[i] {
            Token::End(BlockEnd::List) => {
                return (MinifiedNode::Array(items), i + 1);
            },
            Token::Start(Block::Item) => {
                let (parts, next) = parse_item(tokens, i + 1);
                let mut parts = parts;
                proof {
                    lemma_configs_add(items@, parts@);
                }
                items.append(&mut parts);
                i = next;
            },
            _ => {
                i += 1;
            },
        }
    }
    (MinifiedNode::Array(items), i)
}

/// The open headings of the builder, as the model has them.
pub open spec fn path_view(path: Seq<(u8, String)>) -> Seq<(u8, Seq<char>)> {
    Seq::new(path.len(), |i: int| (path[i].0, path[i].1@))
}

/// Closes the headings at the end of the path whose level is `level` or deeper.
fn pop_to_level(path: &mut Vec<(u8, String)>, level: u8)
    ensures
        path_view(final(path)@) == popped(path_view(old(path)@), level),
{
    while path.len() > 0 && path[path.len() - 1].0 >= level
        invariant
            popped(path_view(path@), level) == popped(path_view(old(path)@), level),
        decreases path.len(),
    {
        let ghost before = path@;
        path.pop();
        assert(path_view(path@) =~= path_view(before).drop_last());
    }
}

/// Builds the configuration tree of a run of events.
///
/// The root is a map. Each heading is a key of the map of the nearest
/// heading above it with a lower level; what stands under a heading, up to
/// the next one, is the value of its key, unless the heading has headings
/// of its own.
pub fn build_config(tokens: &[Token]) -> (root: MinifiedNode)
    ensures
        root@ == config_of(tokens@),
        root@ is Mapping,
        config_well_formed(root@),
{
    proof {
        lemma_config_of(tokens@);
    }
    let mut root = MinifiedNode::Mapping(Vec::new());
    let mut path: Vec<(u8, String)> = Vec::new();
    let mut buf = String::new();
    let mut pending: Option<u8> = None;
    let mut content: Vec<MinifiedNode> = Vec::new();
    let mut i: usize = 0;
    proof {
        lemma_entries_view(Seq::<(String, MinifiedNode)>::empty());
        lemma_configs_view(content@);
        assert(path_view(path@) =~= Seq::<(u8, Seq<char>)>::empty());
        assert(configs_view(content@) =~= Seq::<Config>::empty());
        assert(entries_view(Seq::<(String, MinifiedNode)>::empty()) =~= Seq::<
            (Seq<char>, Config),
        >::empty());
    }
    while i < tokens.len()
        invariant
            i <= tokens.len(),
            config_from(tokens@, 0, config_start()) == config_from(
                tokens@,
                i as int,
                ConfigState {
                    root: root@,
                    path: path_view(path@),
                    buf: buf@,
                    pending,
                    content: configs_view(content@),
                },
            ),
        decreases tokens.len() - i,
    {
        let ghost st = ConfigState {
            root: root@,
            path: path_view(path@),
            buf: buf@,
            pending,
            content: configs_view(content@),
        };
        assert(keys_of(path_view(path@)) =~= path_keys(path@));
        proof {
            lemma_configs_view(content@);
        }
        match &tokens[i] {
            Token::Start(Block::List(_)) => {
                let (list, next) = list_at(tokens, i + 1);
                proof {
                    lemma_configs_push(content@, list);
                }
                content.push(list);
                i = next;
            },
            Token::Start(Block::Heading(level)) => {
                if path.len() > 0 && content.len() > 0 {
                    let mut fragments: Vec<MinifiedNode> = Vec::new();
                    core::mem::swap(&mut content, &mut fragments);
                    append_content_to_tip(&mut root, path.as_slice(), fragments);
                    proof {
                        lemma_configs_view(content@);
                        assert(configs_view(content@) =~= Seq::<Config>::empty());
                    }
                }
                pending = Some(level.to_u8());
                buf.clear();
                i += 1;
            },
            Token::End(BlockEnd::Heading) => {
                match pending {
                    Some(level) => {
                        let key = buf.as_str().trim().to_owned();
                        pop_to_level(&mut path, level);
                        assert(keys_of(path_view(path@)) =~= path_keys(path@));
                        ensure_path_is_map(&mut root, path.as_slice());
                        add_key_to_map(&mut root, path.as_slice(), key.clone());
                        let ghost before = path@;
                        path.push((level, key));
                        assert(path_view(path@) =~= path_view(before).push((level, key@)));
                    },
                    None => {},
                }
                pending = None;
                buf.clear();
                i += 1;
            },
            Token::Start(Block::CodeBlock(kind)) => {
                buf.push('`');
                buf.push('`');
                buf.push('`');
                match kind {
                    Fence::Fenced(lang) => {
                        buf.append(lang.as_str());
                    },
                    Fence::Indented => {},
                }
                buf.push('\n');
                assert(buf@ =~= st.buf + fence_line(*kind));
                i += 1;
            },
            Token::End(BlockEnd::CodeBlock) => {
                buf.push('`');
                buf.push('`');
                buf.push('`');
                buf.push('\n');
                assert(buf@ =~= st.buf + fence() + seq!['\n']);
                let leaf = MinifiedNode::String(buf.clone());
                proof {
                    lemma_configs_push(content@, leaf);
                }
                content.push(leaf);
                buf.clear();
                i += 1;
            },
            Token::Text(text) => {
                buf.append(text.as_str());
                i += 1;
            },
            Token::Code(text) => {
                buf.append(text.as_str());
                i += 1;
            },
            Token::SoftBreak => {
                buf.push('\n');
                i += 1;
            },
            Token::HardBreak => {
                buf.push('\n');
                i += 1;
            },
            Token::End(BlockEnd::Paragraph) => {
                let text = buf.as_str().trim();
                if !text.is_empty() {
                    let leaf = MinifiedNode::String(text.to_owned());
                    proof {
                        lemma_configs_push(content@, leaf);
                    }
                    content.push(leaf);
                }
                buf.clear();
                i += 1;
            },
            _ => {
                i += 1;
            },
        }
    }
    assert(keys_of(path_view(path@)) =~= path_keys(path@));
    if path.len() > 0 && content.len() > 0 {
        proof {
            lemma_configs_view(content@);
        }
        append_content_to_tip(&mut root, path.as_slice(), content);
    } else {
        proof {
            lemma_configs_view(content@);
        }
    }
    root
}

/// Builds the configuration tree of a Markdown text.
pub fn parse_markdown_minified(input: &str) -> (root: MinifiedNode)
    ensures
        root@ == config_of(event_stream(input@)),
        root@ is Mapping,
        config_well_formed(root@),
{
    let tokens = tokenize(input);
    build_config(tokens.as_slice())
}

} // verus!
