//! The event stream that the builders read, and the lexer that produces it.

use vstd::prelude::*;

verus! {

/// The level of a heading.
#[derive(Debug, Clone, Copy, PartialEq, Eq, Structural)]
pub enum Level {
    H1,
    H2,
    H3,
    H4,
    H5,
    H6,
}

impl Level {
    /// The level as a number, from 1 to 6.
    pub open spec fn number(self) -> u8 {
        match self {
            Level::H1 => 1,
            Level::H2 => 2,
            Level::H3 => 3,
            Level::H4 => 4,
            Level::H5 => 5,
            Level::H6 => 6,
        }
    }

    /// The level as a number, from 1 to 6.
    pub fn to_u8(self) -> (n: u8)
        ensures
            n == self.number(),
            1 <= n <= 6,
    {
        match self {
            Level::H1 => 1,
            Level::H2 => 2,
            Level::H3 => 3,
            Level::H4 => 4,
            Level::H5 => 5,
            Level::H6 => 6,
        }
    }
}

/// How a code block was written.
#[derive(Debug, PartialEq)]
pub enum Fence {
    /// Indented by four spaces.
    Indented,
    /// Between fences, with the language tag that followed the opening fence.
    Fenced(String),
}

/// What a start event opens.
#[derive(Debug, PartialEq)]
pub enum Block {
    Heading(Level),
    Paragraph,
    /// A list; the number of its first item if it is ordered.
    List(Option<u64>),
    Item,
    CodeBlock(Fence),
    /// Emphasis, links and every other element that the trees do not keep.
    Other,
}

/// What an end event closes.
#[derive(Debug, Clone, Copy, PartialEq, Eq, Structural)]
pub enum BlockEnd {
    Heading,
    Paragraph,
    List,
    Item,
    CodeBlock,
    /// The end of an element that the trees do not keep.
    Other,
}

/// One event of the stream.
#[derive(Debug, PartialEq)]
pub enum Token {
    Start(Block),
    End(BlockEnd),
    Text(String),
    /// Inline code, without its backticks.
    Code(String),
    SoftBreak,
    HardBreak,
    /// Rules, raw HTML and every other event that the trees do not keep.
    Other,
}

/// `pulldown_cmark::Event`: an event as the lexer hands it out.
#[verifier::external_type_specification]
#[verifier::external_body]
pub struct ExEvent<'a>(pulldown_cmark::Event<'a>);

/// `pulldown_cmark::Tag`: what a start event of the lexer opens.
#[verifier::external_type_specification]
#[verifier::external_body]
pub struct ExTag<'a>(pulldown_cmark::Tag<'a>);

/// `pulldown_cmark::TagEnd`: what an end event of the lexer closes.
#[verifier::external_type_specification]
#[verifier::external_body]
pub struct ExTagEnd(pulldown_cmark::TagEnd);

/// `pulldown_cmark::HeadingLevel`: the level of a heading of the lexer.
#[verifier::external_type_specification]
#[verifier::external_body]
pub struct ExHeadingLevel(pulldown_cmark::HeadingLevel);

/// `pulldown_cmark::CodeBlockKind`: how a code block of the lexer was written.
#[verifier::external_type_specification]
#[verifier::external_body]
pub struct ExCodeBlockKind<'a>(pulldown_cmark::CodeBlockKind<'a>);

/// An event of the lexer, split by its variant.
enum EventParts<'a> {
    Start(pulldown_cmark::Tag<'a>),
    End(pulldown_cmark::TagEnd),
    Text(String),
    Code(String),
    SoftBreak,
    HardBreak,
    Other,
}

/// A start tag of the lexer, split by its variant.
enum TagParts<'a> {
    Heading(pulldown_cmark::HeadingLevel),
    Paragraph,
    List(Option<u64>),
    Item,
    CodeBlock(pulldown_cmark::CodeBlockKind<'a>),
    Other,
}

/// The events that `pulldown_cmark::Parser`, made by `Parser::new`, yields
/// over `input`, from first to last, each as a token.
pub uninterp spec fn event_stream(input: Seq<char>) -> Seq<Token>;

/// Runs `pulldown_cmark::Parser::new(input)` to its end and hands out its
/// events, each as a token. The events depend on the text alone.
#[verifier::external_body]
fn lex(input: &str) -> (tokens: Vec<Token>)
    ensures
        tokens@ == event_stream(input@),
{
    pulldown_cmark::Parser::new(input).map(|ev| token_of(ev)).collect()
}

/// The token that stands for an event of the lexer: a start or an end with
/// what it opens or closes, text and inline code with their characters, a
/// line break as it is, and `Other` for every other event.
pub uninterp spec fn event_token(ev: pulldown_cmark::Event) -> Token;

/// What a start tag of the lexer opens: a heading with its level, a
/// paragraph, a list with its first number, a list item, a code block with
/// its fence, and `Other` for every other tag.
pub uninterp spec fn tag_block(tag: pulldown_cmark::Tag) -> Block;

/// What an end tag of the lexer closes: a heading, a paragraph, a list, a
/// list item, a code block, and `Other` for every other tag.
pub uninterp spec fn end_block(end: pulldown_cmark::TagEnd) -> BlockEnd;

/// The level that a heading level of the lexer is: `H1` for its `H1`, and
/// so on to `H6`.
pub uninterp spec fn level_held(level: pulldown_cmark::HeadingLevel) -> Level;

/// The fence that a code block kind of the lexer is: `Indented`, or
/// `Fenced` with its language tag.
pub uninterp spec fn fence_held(kind: pulldown_cmark::CodeBlockKind) -> Fence;

/// Tells the variants of `pulldown_cmark::Event` apart, moving what each
/// holds: the token of the event is made of these parts.
#[verifier::external_body]
fn event_parts<'a>(ev: pulldown_cmark::Event<'a>) -> (parts: EventParts<'a>)
    ensures
        event_token(ev) == match parts {
            EventParts::Start(tag) => Token::Start(tag_block(tag)),
            EventParts::End(end) => Token::End(end_block(end)),
            EventParts::Text(text) => Token::Text(text),
            EventParts::Code(text) => Token::Code(text),
            EventParts::SoftBreak => Token::SoftBreak,
            EventParts::HardBreak => Token::HardBreak,
            EventParts::Other => Token::Other,
        },
{
    match ev {
        pulldown_cmark::Event::Start(tag) => EventParts::Start(tag),
        pulldown_cmark::Event::End(end) => EventParts::End(end),
        pulldown_cmark::Event::Text(t) => EventParts::Text(t.into_string()),
        pulldown_cmark::Event::Code(t) => EventParts::Code(t.into_string()),
        pulldown_cmark::Event::SoftBreak => EventParts::SoftBreak,
        pulldown_cmark::Event::HardBreak => EventParts::HardBreak,
        _ => EventParts::Other,
    }
}

/// Tells the variants of `pulldown_cmark::Tag` apart, moving what each
/// holds: the block of the tag is made of these parts.
#[verifier::external_body]
fn tag_parts<'a>(tag: pulldown_cmark::Tag<'a>) -> (parts: TagParts<'a>)
    ensures
        tag_block(tag) == match parts {
            TagParts::Heading(level) => Block::Heading(level_held(level)),
            TagParts::Paragraph => Block::Paragraph,
            TagParts::List(first) => Block::List(first),
            TagParts::Item => Block::Item,
            TagParts::CodeBlock(kind) => Block::CodeBlock(fence_held(kind)),
            TagParts::Other => Block::Other,
        },
{
    match tag {
        pulldown_cmark::Tag::Heading { level, .. } => TagParts::Heading(level),
        pulldown_cmark::Tag::Paragraph => TagParts::Paragraph,
        pulldown_cmark::Tag::List(first) => TagParts::List(first),
        pulldown_cmark::Tag::Item => TagParts::Item,
        pulldown_cmark::Tag::CodeBlock(kind) => TagParts::CodeBlock(kind),
        _ => TagParts::Other,
    }
}

/// Tells the variants of `pulldown_cmark::TagEnd` apart.
#[verifier::external_body]
fn block_end_of(end: pulldown_cmark::TagEnd) -> (closed: BlockEnd)
    ensures
        closed == end_block(end),
{
    match end {
        pulldown_cmark::TagEnd::Heading(_) => BlockEnd::Heading,
        pulldown_cmark::TagEnd::Paragraph => BlockEnd::Paragraph,
        pulldown_cmark::TagEnd::List(_) => BlockEnd::List,
        pulldown_cmark::TagEnd::Item => BlockEnd::Item,
        pulldown_cmark::TagEnd::CodeBlock => BlockEnd::CodeBlock,
        _ => BlockEnd::Other,
    }
}

/// Tells the variants of `pulldown_cmark::HeadingLevel` apart.
#[verifier::external_body]
fn level_of(level: pulldown_cmark::HeadingLevel) -> (held: Level)
    ensures
        held == level_held(level),
{
    match level {
        pulldown_cmark::HeadingLevel::H1 => Level::H1,
        pulldown_cmark::HeadingLevel::H2 => Level::H2,
        pulldown_cmark::HeadingLevel::H3 => Level::H3,
        pulldown_cmark::HeadingLevel::H4 => Level::H4,
        pulldown_cmark::HeadingLevel::H5 => Level::H5,
        pulldown_cmark::HeadingLevel::H6 => Level::H6,
    }
}

/// Tells the variants of `pulldown_cmark::CodeBlockKind` apart.
#[verifier::external_body]
fn fence_of<'a>(kind: pulldown_cmark::CodeBlockKind<'a>) -> (held: Fence)
    ensures
        held == fence_held(kind),
{
    match kind {
        pulldown_cmark::CodeBlockKind::Indented => Fence::Indented,
        pulldown_cmark::CodeBlockKind::Fenced(lang) => Fence::Fenced(lang.into_string()),
    }
}

/// The token that stands for one event of the lexer.
fn token_of<'a>(ev: pulldown_cmark::Event<'a>) -> (token: Token)
    ensures
        token == event_token(ev),
{
    match event_parts(ev) {
        EventParts::Start(tag) => Token::Start(
            match tag_parts(tag) {
                TagParts::Heading(level) => Block::Heading(level_of(level)),
                TagParts::Paragraph => Block::Paragraph,
                TagParts::List(first) => Block::List(first),
                TagParts::Item => Block::Item,
                TagParts::CodeBlock(kind) => Block::CodeBlock(fence_of(kind)),
                TagParts::Other => Block::Other,
            },
        ),
        EventParts::End(end) => Token::End(block_end_of(end)),
        EventParts::Text(text) => Token::Text(text),
        EventParts::Code(text) => Token::Code(text),
        EventParts::SoftBreak => Token::SoftBreak,
        EventParts::HardBreak => Token::HardBreak,
        EventParts::Other => Token::Other,
    }
}

/// The events of a Markdown text, in order.
pub fn tokenize(input: &str) -> (tokens: Vec<Token>)
    ensures
        tokens@ == event_stream(input@),
{
    lex(input)
}

} // verus!
