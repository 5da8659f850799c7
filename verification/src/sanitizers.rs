//! Tag names that are safe to use as XML element names.

use crate::ast::{
    config_view, configs_view, entries_view, lemma_configs_view, lemma_entries_view, Config,
    MinifiedNode,
};
use crate::text::{alphabetic, alphanumeric};
use vstd::prelude::*;

verus! {

/// What the first character of a name contributes to its tag.
pub open spec fn tag_head(c: char) -> Seq<char> {
    if alphabetic(c) || c == '_' {
        seq![c]
    } else if alphanumeric(c) {
        seq!['_', c]
    } else {
        seq!['_']
    }
}

/// What any later character of a name becomes in its tag.
pub open spec fn tag_char(c: char) -> char {
    if alphanumeric(c) || c == '-' || c == '_' || c == '.' {
        c
    } else {
        '_'
    }
}

/// The tag that stands for the name `s`.
pub open spec fn sanitized_tag(s: Seq<char>) -> Seq<char> {
    if s.len() == 0 {
        seq!['_']
    } else {
        tag_head(s[0]) + s.subrange(1, s.len() as int).map_values(|c: char| tag_char(c))
    }
}

/// Turns a name into a tag: a letter or `_` first, then letters, digits,
/// `-`, `_` and `.` only.
pub fn sanitize_xml_tag(s: &str) -> (out: String)
    ensures
        out@ == sanitized_tag(s@),
{
    let mut out = String::new();
    let mut first = true;
    for c in it: s.chars()
        invariant
            it.seq() == s@,
            first == (it.index() == 0),
            !first ==> out@ == sanitized_tag(s@.take(it.index())),
            first ==> out@.len() == 0,
    {
        if first {
            if c.is_alphabetic() || c == '_' {
                out.push(c);
            } else {
                out.push('_');
                if c.is_alphanumeric() {
                    out.push(c);
                }
            }
            first = false;
        } else {
            out.push(tag_char_of(c));
        }
    }
    if first {
        out.push('_');
    }
    out
}

fn tag_char_of(c: char) -> (r: char)
    ensures
        r == tag_char(c),
{
    if c.is_alphanumeric() || c == '-' || c == '_' || c == '.' {
        c
    } else {
        '_'
    }
}

/// Applying the sanitizer twice gives what applying it once gives.
pub proof fn lemma_sanitized_tag_idempotent(s: Seq<char>)
    ensures
        sanitized_tag(sanitized_tag(s)) == sanitized_tag(s),
{
    let once = sanitized_tag(s);
    if s.len() == 0 {
        assert(once.subrange(1, once.len() as int) =~= Seq::<char>::empty());
        assert(sanitized_tag(once) =~= once);
    } else {
        let tail = once.subrange(1, once.len() as int);
        assert(tag_head(once[0]) =~= seq![once[0]]);
        assert forall|i: int| 0 <= i < tail.len() implies tag_char(#[trigger] tail[i])
            == tail[i] by {
            assert(tail[i] == once[i + 1]);
        }
        assert(tail.map_values(|c: char| tag_char(c)) =~= tail);
        assert(sanitized_tag(once) =~= once);
    }
}

/// A tag is never empty, begins with a letter or `_`, and goes on with
/// letters, digits, `-`, `_` and `.` only.
pub proof fn lemma_sanitized_tag_is_tag(s: Seq<char>)
    ensures
        sanitized_tag(s).len() >= 1,
        alphabetic(sanitized_tag(s)[0]) || sanitized_tag(s)[0] == '_',
        forall|i: int|
            1 <= i < sanitized_tag(s).len() ==> {
                let c = #[trigger] sanitized_tag(s)[i];
                alphanumeric(c) || c == '-' || c == '_' || c == '.'
            },
{
}

/// The tree `c` with every key of every map sanitized. Leaves stay.
pub open spec fn sanitized_keys(c: Config) -> Config
    decreases c,
{
    match c {
        Config::Leaf(_) => c,
        Config::List(items) => Config::List(sanitized_items(items)),
        Config::Mapping(entries) => Config::Mapping(sanitized_entries(entries)),
    }
}

/// The items of a list, each with its keys sanitized.
pub open spec fn sanitized_items(items: Seq<Config>) -> Seq<Config>
    decreases items,
{
    if items.len() == 0 {
        Seq::empty()
    } else {
        sanitized_items(items.drop_last()).push(sanitized_keys(items.last()))
    }
}

/// The entries of a map, each with its key and the keys of its value sanitized.
pub open spec fn sanitized_entries(entries: Seq<(Seq<char>, Config)>) -> Seq<(Seq<char>, Config)>
    decreases entries,
{
    if entries.len() == 0 {
        Seq::empty()
    } else {
        sanitized_entries(entries.drop_last()).push(
            (sanitized_tag(entries.last().0), sanitized_keys(entries.last().1)),
        )
    }
}

/// `sanitized_items` goes item by item.
pub proof fn lemma_sanitized_items(items: Seq<Config>)
    ensures
        sanitized_items(items).len() == items.len(),
        forall|i: int|
            0 <= i < items.len() ==> #[trigger] sanitized_items(items)[i] == sanitized_keys(
                items[i],
            ),
    decreases items.len(),
{
    if items.len() > 0 {
        lemma_sanitized_items(items.drop_last());
    }
}

/// `sanitized_entries` goes entry by entry.
pub proof fn lemma_sanitized_entries(entries: Seq<(Seq<char>, Config)>)
    ensures
        sanitized_entries(entries).len() == entries.len(),
        forall|i: int|
            0 <= i < entries.len() ==> #[trigger] sanitized_entries(entries)[i] == (
                sanitized_tag(entries[i].0),
                sanitized_keys(entries[i].1),
            ),
    decreases entries.len(),
{
    if entries.len() > 0 {
        lemma_sanitized_entries(entries.drop_last());
    }
}

/// Sanitizing the keys of a tree twice gives what sanitizing them once gives.
pub proof fn lemma_sanitized_keys_idempotent(c: Config)
    ensures
        sanitized_keys(sanitized_keys(c)) == sanitized_keys(c),
    decreases c,
{
    match c {
        Config::Leaf(_) => {},
        Config::List(items) => {
            let once = sanitized_items(items);
            lemma_sanitized_items(items);
            lemma_sanitized_items(once);
            assert forall|i: int| 0 <= i < items.len() implies #[trigger] sanitized_items(once)[i]
                == once[i] by {
                lemma_sanitized_keys_idempotent(items[i]);
            }
            assert(sanitized_items(once) =~= once);
        },
        Config::Mapping(entries) => {
            let once = sanitized_entries(entries);
            lemma_sanitized_entries(entries);
            lemma_sanitized_entries(once);
            assert forall|i: int|
                0 <= i < entries.len() implies #[trigger] sanitized_entries(once)[i]
                == once[i] by {
                lemma_sanitized_keys_idempotent(entries[i].1);
                lemma_sanitized_tag_idempotent(entries[i].0);
            }
            assert(sanitized_entries(once) =~= once);
        },
    }
}

/// Sanitizes every key of every map in the tree; leaves are content and stay.
pub fn sanitize_keys(node: MinifiedNode) -> (out: MinifiedNode)
    ensures
        out@ == sanitized_keys(node@),
    decreases node,
{
    match node {
        MinifiedNode::Mapping(entries) => {
            let mut clean: Vec<(String, MinifiedNode)> = Vec::new();
            let ghost all = entries@;
            proof {
                lemma_entries_view(all);
                lemma_sanitized_entries(entries_view(all));
                lemma_entries_view(clean@);
            }
            for entry in it: entries
                invariant
                    it.seq() == all,
                    decreases_to!(node => all),
                    clean.len() == it.index(),
                    entries_view(clean@) =~= sanitized_entries(entries_view(all)).take(
                        it.index(),
                    ),
                    entries_view(all).len() == all.len(),
                    forall|j: int|
                        0 <= j < all.len() ==> #[trigger] entries_view(all)[j] == (
                            all[j].0@,
                            config_view(all[j].1),
                        ),
                    sanitized_entries(entries_view(all)).len() == all.len(),
                    forall|j: int|
                        0 <= j < all.len() ==> #[trigger] sanitized_entries(entries_view(all))[j]
                            == (
                            sanitized_tag(entries_view(all)[j].0),
                            sanitized_keys(entries_view(all)[j].1),
                        ),
            {
                let ghost k = it.index();
                proof {
                    assert(decreases_to!(all => all[k]));
                }
                let (key, value) = entry;
                let tag = sanitize_xml_tag(key.as_str());
                let value = sanitize_keys(value);
                let ghost before = clean@;
                clean.push((tag, value));
                proof {
                    lemma_entries_view(clean@);
                    lemma_entries_view(before);
                    assert(entries_view(clean@) =~= sanitized_entries(entries_view(all)).take(
                        k + 1,
                    ));
                }
            }
            assert(sanitized_entries(entries_view(all)).take(all.len() as int)
                =~= sanitized_entries(entries_view(all)));
            MinifiedNode::Mapping(clean)
        },
        MinifiedNode::Array(items) => {
            let mut clean: Vec<MinifiedNode> = Vec::new();
            let ghost all = items@;
            proof {
                lemma_configs_view(all);
                lemma_sanitized_items(configs_view(all));
                lemma_configs_view(clean@);
            }
            for item in it: items
                invariant
                    it.seq() == all,
                    decreases_to!(node => all),
                    clean.len() == it.index(),
                    configs_view(clean@) =~= sanitized_items(configs_view(all)).take(it.index()),
                    configs_view(all).len() == all.len(),
                    forall|j: int|
                        0 <= j < all.len() ==> #[trigger] configs_view(all)[j] == config_view(
                            all[j],
                        ),
                    sanitized_items(configs_view(all)).len() == all.len(),
                    forall|j: int|
                        0 <= j < all.len() ==> #[trigger] sanitized_items(configs_view(all))[j]
                            == sanitized_keys(configs_view(all)[j]),
            {
                let ghost k = it.index();
                proof {
                    assert(decreases_to!(all => all[k]));
                }
                let item = sanitize_keys(item);
                let ghost before = clean@;
                clean.push(item);
                proof {
                    lemma_configs_view(clean@);
                    lemma_configs_view(before);
                    assert(configs_view(clean@) =~= sanitized_items(configs_view(all)).take(
                        k + 1,
                    ));
                }
            }
            assert(sanitized_items(configs_view(all)).take(all.len() as int) =~= sanitized_items(
                configs_view(all),
            ));
            MinifiedNode::Array(clean)
        },
        MinifiedNode::String(text) => MinifiedNode::String(text),
    }
}

} // verus!
