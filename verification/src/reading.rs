//! The text of a document, and the runs of events of which a document keeps
//! every character.

use crate::ast::{Child, Tree};
use crate::events::{Block, Token};
use crate::parse::{
    adopted_stack, closes, doc_from, doc_start, doc_step, document_of, flushed, opened,
    tree_with_node, tree_with_text, DocState,
};
use vstd::prelude::*;

verus! {

/// The text of a tree, in reading order: its text leaves and the contents
/// of its code blocks.
pub open spec fn tree_text(t: Tree) -> Seq<char>
    decreases t,
{
    match t {
        Tree::Document { children } => children_text(children),
        Tree::Heading { children, .. } => children_text(children),
        Tree::Paragraph { children } => children_text(children),
        Tree::ListItem { children } => children_text(children),
        Tree::CodeBlock { content, .. } => content,
        Tree::List { items, .. } => trees_text(items),
    }
}

/// The text of a run of children, in order.
pub open spec fn children_text(children: Seq<Child>) -> Seq<char>
    decreases children,
{
    if children.len() == 0 {
        Seq::empty()
    } else {
        children_text(children.drop_last()) + match children.last() {
            Child::Text(text) => text,
            Child::Node(node) => tree_text(node),
        }
    }
}

/// The text of a run of trees, in order.
pub open spec fn trees_text(trees: Seq<Tree>) -> Seq<char>
    decreases trees,
{
    if trees.len() == 0 {
        Seq::empty()
    } else {
        trees_text(trees.drop_last()) + tree_text(trees.last())
    }
}

/// The text that an event brings: its own for text and inline code, one
/// space for a line break, none for anything else.
pub open spec fn token_text(token: Token) -> Seq<char> {
    match token {
        Token::Text(text) => text@,
        Token::Code(text) => text@,
        Token::SoftBreak => seq![' '],
        Token::HardBreak => seq![' '],
        _ => Seq::empty(),
    }
}

/// The text of a run of events, in order. Formatting adds nothing to it.
pub open spec fn tokens_text(tokens: Seq<Token>) -> Seq<char>
    decreases tokens.len(),
{
    if tokens.len() == 0 {
        Seq::empty()
    } else {
        tokens_text(tokens.drop_last()) + token_text(tokens.last())
    }
}

/// The kinds of node.
pub enum Kind {
    Document,
    Heading,
    Paragraph,
    CodeBlock,
    List,
    ListItem,
}

/// The kind of a tree.
pub open spec fn kind_of(t: Tree) -> Kind {
    match t {
        Tree::Document { .. } => Kind::Document,
        Tree::Heading { .. } => Kind::Heading,
        Tree::Paragraph { .. } => Kind::Paragraph,
        Tree::CodeBlock { .. } => Kind::CodeBlock,
        Tree::List { .. } => Kind::List,
        Tree::ListItem { .. } => Kind::ListItem,
    }
}

/// The kind of node that a start event opens, if it opens one.
pub open spec fn opened_kind(block: Block) -> Option<Kind> {
    match block {
        Block::Heading(_) => Some(Kind::Heading),
        Block::Paragraph => Some(Kind::Paragraph),
        Block::List(_) => Some(Kind::List),
        Block::Item => Some(Kind::ListItem),
        Block::CodeBlock(_) => Some(Kind::CodeBlock),
        Block::Other => None,
    }
}

/// Whether a node of this kind takes text: all but a list.
pub open spec fn takes_text(kind: Kind) -> bool {
    !(kind is List)
}

/// Whether a node of kind `parent` takes a closed node of kind `node`: a
/// code block takes none, a list takes list items, the others take all.
pub open spec fn takes_node(parent: Kind, node: Kind) -> bool {
    match parent {
        Kind::CodeBlock => false,
        Kind::List => node is ListItem,
        _ => true,
    }
}

/// The kinds of the nodes that the first `n` events leave open, the
/// document first. An event that closes a node while only the document is
/// open closes nothing.
pub open spec fn open_kinds(tokens: Seq<Token>, n: int) -> Seq<Kind>
    decreases n,
{
    if n <= 0 {
        seq![Kind::Document]
    } else {
        let before = open_kinds(tokens, n - 1);
        match tokens[n - 1] {
            Token::Start(block) => match opened_kind(block) {
                Some(kind) => before.push(kind),
                None => before,
            },
            Token::End(end) => if closes(end) && before.len() >= 2 {
                before.drop_last()
            } else {
                before
            },
            _ => before,
        }
    }
}

/// Whether an event brings text.
pub open spec fn brings_text(token: Token) -> bool {
    token is Text || token is Code || token is SoftBreak || token is HardBreak
}

/// Whether every event finds a node that takes what it brings: text comes
/// while no list is innermost, a node closes into a node that takes it,
/// and at the end nothing but the document is open.
pub open spec fn keeps_all(tokens: Seq<Token>) -> bool {
    &&& open_kinds(tokens, tokens.len() as int).len() == 1
    &&& forall|n: int|
        0 <= n < tokens.len() && brings_text(#[trigger] tokens[n]) ==> takes_text(
            open_kinds(tokens, n).last(),
        )
    &&& forall|n: int|
        0 <= n < tokens.len() && (#[trigger] tokens[n] matches Token::End(end) && closes(end)) ==> {
            let kinds = open_kinds(tokens, n);
            kinds.len() >= 2 && takes_node(kinds[kinds.len() - 2], kinds.last())
        }
}

/// The text of the open nodes, outermost first.
pub open spec fn stack_text(stack: Seq<Tree>) -> Seq<char>
    decreases stack.len(),
{
    if stack.len() == 0 {
        Seq::empty()
    } else {
        stack_text(stack.drop_last()) + tree_text(stack.last())
    }
}

/// The kinds of the open nodes, outermost first.
pub open spec fn kinds_of(stack: Seq<Tree>) -> Seq<Kind> {
    Seq::new(stack.len(), |i: int| kind_of(stack[i]))
}

/// What holds of the builder after the first `n` events of a run that
/// keeps all: the open nodes are of the kinds that the events say, and the
/// open nodes and the pending text hold the text of the events.
spec fn text_inv(tokens: Seq<Token>, n: int, st: DocState) -> bool {
    &&& st.stack.len() >= 1
    &&& kinds_of(st.stack) == open_kinds(tokens, n)
    &&& stack_text(st.stack) + st.buf == tokens_text(tokens.take(n))
    &&& st.buf.len() > 0 ==> takes_text(kind_of(st.stack.last()))
}

proof fn lemma_with_text(t: Tree, text: Seq<char>)
    ensures
        kind_of(tree_with_text(t, text)) == kind_of(t),
        takes_text(kind_of(t)) ==> tree_text(tree_with_text(t, text)) == tree_text(t) + text,
{
    match t {
        Tree::Document { children } => {
            assert(children.push(Child::Text(text)).drop_last() =~= children);
        },
        Tree::Heading { children, .. } => {
            assert(children.push(Child::Text(text)).drop_last() =~= children);
        },
        Tree::Paragraph { children } => {
            assert(children.push(Child::Text(text)).drop_last() =~= children);
        },
        Tree::ListItem { children } => {
            assert(children.push(Child::Text(text)).drop_last() =~= children);
        },
        _ => {},
    }
}

proof fn lemma_with_node(parent: Tree, node: Tree)
    ensures
        kind_of(tree_with_node(parent, node)) == kind_of(parent),
        takes_node(kind_of(parent), kind_of(node)) ==> tree_text(tree_with_node(parent, node))
            == tree_text(parent) + tree_text(node),
{
    match parent {
        Tree::Document { children } => {
            assert(children.push(Child::Node(node)).drop_last() =~= children);
        },
        Tree::Heading { children, .. } => {
            assert(children.push(Child::Node(node)).drop_last() =~= children);
        },
        Tree::Paragraph { children } => {
            assert(children.push(Child::Node(node)).drop_last() =~= children);
        },
        Tree::ListItem { children } => {
            assert(children.push(Child::Node(node)).drop_last() =~= children);
        },
        Tree::List { items, .. } => {
            assert(items.push(node).drop_last() =~= items);
        },
        _ => {},
    }
}

proof fn lemma_stack_text_last(stack: Seq<Tree>, top: Tree)
    requires
        stack.len() >= 1,
    ensures
        stack_text(stack.update(stack.len() - 1, top)) == stack_text(stack.drop_last()) + tree_text(
            top,
        ),
{
    assert(stack.update(stack.len() - 1, top).drop_last() =~= stack.drop_last());
}

proof fn lemma_flushed_text(tokens: Seq<Token>, n: int, st: DocState)
    requires
        text_inv(tokens, n, st),
    ensures
        text_inv(tokens, n, flushed(st)),
        flushed(st).stack.len() == st.stack.len(),
        stack_text(flushed(st).stack) == tokens_text(tokens.take(n)),
{
    let next = flushed(st);
    if st.buf.len() > 0 {
        lemma_with_text(st.stack.last(), st.buf);
        lemma_stack_text_last(st.stack, tree_with_text(st.stack.last(), st.buf));
        assert(stack_text(next.stack) =~= stack_text(st.stack) + st.buf);
        assert(kinds_of(next.stack) =~= kinds_of(st.stack));
    } else {
        assert(stack_text(st.stack) + st.buf =~= stack_text(st.stack));
    }
    assert(stack_text(next.stack) + next.buf =~= stack_text(next.stack));
}

proof fn lemma_text_step(tokens: Seq<Token>, n: int, st: DocState)
    requires
        keeps_all(tokens),
        0 <= n < tokens.len(),
        text_inv(tokens, n, st),
    ensures
        doc_step(st, tokens[n]) matches Some(next) && text_inv(tokens, n + 1, next),
{
    let token = tokens[n];
    let kinds = open_kinds(tokens, n);
    assert(tokens.take(n + 1).drop_last() =~= tokens.take(n));
    assert(tokens.take(n + 1).last() == token);
    assert(tokens_text(tokens.take(n + 1)) == tokens_text(tokens.take(n)) + token_text(token));
    lemma_flushed_text(tokens, n, st);
    let open = flushed(st).stack;
    match token {
        Token::Start(block) => {
            match opened(block) {
                Some(node) => {
                    let next = open.push(node);
                    assert(next.drop_last() =~= open);
                    assert(tree_text(node) =~= Seq::<char>::empty());
                    assert(kinds_of(next) =~= kinds.push(kind_of(node)));
                    assert(stack_text(next) + Seq::<char>::empty() =~= stack_text(open)
                        + Seq::<char>::empty());
                },
                None => {},
            }
            assert(tokens_text(tokens.take(n)) + Seq::<char>::empty() =~= tokens_text(
                tokens.take(n),
            ));
        },
        Token::End(end) => {
            if closes(end) {
                assert(kinds.len() >= 2);
                assert(kinds_of(st.stack).len() == st.stack.len());
                let rest = open.drop_last();
                let parent = rest.last();
                let node = open.last();
                assert(kind_of(parent) == kinds[kinds.len() - 2]) by {
                    assert(kinds_of(open)[open.len() - 2] == kind_of(open[open.len() - 2]));
                }
                assert(kind_of(node) == kinds.last()) by {
                    assert(kinds_of(open)[open.len() - 1] == kind_of(open[open.len() - 1]));
                }
                lemma_with_node(parent, node);
                let next = adopted_stack(rest, node);
                lemma_stack_text_last(rest, tree_with_node(parent, node));
                assert(stack_text(open) == stack_text(rest) + tree_text(node));
                assert(stack_text(rest) == stack_text(rest.drop_last()) + tree_text(parent));
                assert(stack_text(next) == stack_text(rest.drop_last()) + (tree_text(parent)
                    + tree_text(node)));
                assert(stack_text(next) =~= stack_text(open));
                assert(kinds_of(next) =~= kinds.drop_last());
                assert(stack_text(next) + Seq::<char>::empty() =~= stack_text(open)
                    + Seq::<char>::empty());
            }
            assert(tokens_text(tokens.take(n)) + Seq::<char>::empty() =~= tokens_text(
                tokens.take(n),
            ));
        },
        Token::Text(text) => {
            assert(kind_of(st.stack.last()) == kinds.last()) by {
                assert(kinds_of(st.stack)[st.stack.len() - 1] == kind_of(
                    st.stack[st.stack.len() - 1],
                ));
            }
            assert(stack_text(st.stack) + (st.buf + text@) =~= (stack_text(st.stack) + st.buf)
                + text@);
        },
        Token::Code(text) => {
            assert(kind_of(st.stack.last()) == kinds.last()) by {
                assert(kinds_of(st.stack)[st.stack.len() - 1] == kind_of(
                    st.stack[st.stack.len() - 1],
                ));
            }
            assert(stack_text(st.stack) + (st.buf + text@) =~= (stack_text(st.stack) + st.buf)
                + text@);
        },
        Token::SoftBreak => {
            assert(kind_of(st.stack.last()) == kinds.last()) by {
                assert(kinds_of(st.stack)[st.stack.len() - 1] == kind_of(
                    st.stack[st.stack.len() - 1],
                ));
            }
            assert(stack_text(st.stack) + st.buf.push(' ') =~= (stack_text(st.stack) + st.buf)
                + seq![' ']);
        },
        Token::HardBreak => {
            assert(kind_of(st.stack.last()) == kinds.last()) by {
                assert(kinds_of(st.stack)[st.stack.len() - 1] == kind_of(
                    st.stack[st.stack.len() - 1],
                ));
            }
            assert(stack_text(st.stack) + st.buf.push(' ') =~= (stack_text(st.stack) + st.buf)
                + seq![' ']);
        },
        Token::Other => {
            assert(tokens_text(tokens.take(n)) + Seq::<char>::empty() =~= tokens_text(
                tokens.take(n),
            ));
        },
    }
}

proof fn lemma_text_from(tokens: Seq<Token>, pos: int, st: DocState)
    requires
        keeps_all(tokens),
        0 <= pos <= tokens.len(),
        text_inv(tokens, pos, st),
    ensures
        doc_from(tokens, pos, st) matches Ok(end) && text_inv(tokens, tokens.len() as int, end),
    decreases tokens.len() - pos,
{
    if pos < tokens.len() {
        lemma_text_step(tokens, pos, st);
        lemma_text_from(tokens, pos + 1, doc_step(st, tokens[pos])->0);
    }
}

/// The builder loses formatting and keeps text: where every event finds a
/// node that takes what it brings, building succeeds, and the text of the
/// document is the text of the events, character by character.
pub proof fn lemma_text_is_kept(tokens: Seq<Token>)
    requires
        keeps_all(tokens),
    ensures
        document_of(tokens) matches Ok(tree) && tree_text(tree) == tokens_text(tokens),
{
    let start = doc_start();
    assert(text_inv(tokens, 0, start)) by {
        assert(kinds_of(start.stack) =~= open_kinds(tokens, 0));
        assert(start.stack.drop_last() =~= Seq::<Tree>::empty());
        assert(stack_text(start.stack.drop_last()) =~= Seq::<char>::empty());
        assert(tree_text(start.stack.last()) =~= Seq::<char>::empty());
        assert(stack_text(start.stack) == stack_text(start.stack.drop_last()) + tree_text(
            start.stack.last(),
        ));
        assert(tokens.take(0) =~= Seq::<Token>::empty());
        assert(stack_text(start.stack) + start.buf =~= Seq::<char>::empty());
    }
    lemma_text_from(tokens, 0, start);
    let end = doc_from(tokens, 0, start)->Ok_0;
    lemma_flushed_text(tokens, tokens.len() as int, end);
    let last = flushed(end).stack;
    assert(tokens.take(tokens.len() as int) =~= tokens);
    assert(kinds_of(end.stack).len() == end.stack.len());
    assert(last.len() == 1);
    assert(last.drop_last() =~= Seq::<Tree>::empty());
    assert(stack_text(last.drop_last()) =~= Seq::<char>::empty());
    assert(stack_text(last) == stack_text(last.drop_last()) + tree_text(last.last()));
    assert(stack_text(last) =~= tree_text(last[0]));
}

/// The text of two runs of events, one after the other.
proof fn lemma_tokens_text_add(a: Seq<Token>, b: Seq<Token>)
    ensures
        tokens_text(a + b) == tokens_text(a) + tokens_text(b),
    decreases b.len(),
{
    if b.len() == 0 {
        assert(a + b =~= a);
        assert(tokens_text(a) + Seq::<char>::empty() =~= tokens_text(a));
    } else {
        assert((a + b).drop_last() =~= a + b.drop_last());
        assert((a + b).last() == b.last());
        lemma_tokens_text_add(a, b.drop_last());
        assert(tokens_text(a + b) =~= tokens_text(a) + tokens_text(b));
    }
}

/// Formatting adds nothing to the text of a run of events: with an event
/// that begins or ends an element, or one of another kind without text,
/// put in anywhere, the text is the same.
pub proof fn lemma_formatting_has_no_text(a: Seq<Token>, token: Token, b: Seq<Token>)
    requires
        !brings_text(token),
    ensures
        tokens_text(a + seq![token] + b) == tokens_text(a + b),
{
    lemma_tokens_text_add(a + seq![token], b);
    lemma_tokens_text_add(a, seq![token]);
    lemma_tokens_text_add(a, b);
    assert(seq![token].drop_last() =~= Seq::<Token>::empty());
    assert(seq![token].last() == token);
    assert(token_text(token) =~= Seq::<char>::empty());
    assert(tokens_text(seq![token]) == tokens_text(seq![token].drop_last()) + token_text(token));
    assert(tokens_text(seq![token]) =~= Seq::<char>::empty());
    assert(tokens_text(a) + Seq::<char>::empty() =~= tokens_text(a));
}

} // verus!
