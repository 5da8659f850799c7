use datadown::parse_minified::{
    add_key_to_map, append_content_to_tip, ensure_path_is_map, parse_recursive_list,
    stringify_list_item,
};
use datadown::{
    build_config, parse_markdown_minified, Block, BlockEnd, Fence, Level, MinifiedNode, Token,
};

fn text(s: &str) -> Token {
    Token::Text(s.to_string())
}

fn leaf(s: &str) -> MinifiedNode {
    MinifiedNode::String(s.to_string())
}

fn list(items: Vec<MinifiedNode>) -> MinifiedNode {
    MinifiedNode::Array(items)
}

fn map(entries: Vec<(&str, MinifiedNode)>) -> MinifiedNode {
    MinifiedNode::Mapping(entries.into_iter().map(|(k, v)| (k.to_string(), v)).collect())
}

fn path(keys: &[(u8, &str)]) -> Vec<(u8, String)> {
    keys.iter().map(|(l, k)| (*l, k.to_string())).collect()
}

fn heading(level: Level, key: &str) -> Vec<Token> {
    vec![
        Token::Start(Block::Heading(level)),
        text(key),
        Token::End(BlockEnd::Heading),
    ]
}

fn paragraph(s: &str) -> Vec<Token> {
    vec![
        Token::Start(Block::Paragraph),
        text(s),
        Token::End(BlockEnd::Paragraph),
    ]
}

#[test]
fn no_events_make_an_empty_map() {
    assert_eq!(build_config(&[]), map(vec![]));
    assert_eq!(parse_markdown_minified(""), map(vec![]));
}

#[test]
fn a_section_wins_over_the_text_of_its_heading() {
    let mut tokens = heading(Level::H1, "A");
    tokens.extend(paragraph("Ignored Text"));
    tokens.extend(heading(Level::H2, "B"));
    tokens.extend(paragraph("Kept Text"));
    let expected = map(vec![("A", map(vec![("B", leaf("Kept Text"))]))]);
    assert_eq!(build_config(&tokens), expected);
    assert_eq!(
        parse_markdown_minified("# A\nIgnored Text\n\n## B\nKept Text"),
        expected
    );
}

#[test]
fn one_list_alone_is_the_value_item_by_item() {
    let ast = parse_markdown_minified("# K\n* a\n* b\n* c\n* d");
    assert_eq!(
        ast,
        map(vec![("K", list(vec![leaf("a"), leaf("b"), leaf("c"), leaf("d")]))])
    );
}

#[test]
fn text_and_a_list_become_one_leaf_with_bullet_lines() {
    let ast = parse_markdown_minified("# K\nintro\n\n* a\n* b\n");
    assert_eq!(ast, map(vec![("K", leaf("intro\n\n* a\n* b"))]));
}

#[test]
fn two_lists_become_one_leaf() {
    let ast = parse_markdown_minified("# K\n* a\n\n<!-- -->\n\n* b\n");
    assert_eq!(ast, map(vec![("K", leaf("* a\n\n* b"))]));
}

#[test]
fn nested_bullets_are_two_spaces_further_in() {
    let ast = parse_markdown_minified("# K\ntext\n\n* a\n  * b\n    * c\n* d\n");
    assert_eq!(
        ast,
        map(vec![("K", leaf("text\n\n* a\n  * b\n    * c\n* d"))])
    );
}

#[test]
fn the_text_of_a_row_stands_beside_the_list_of_its_columns() {
    let md = "\n# Matrix\n* Row 1\n  * Col 1\n  * Col 2\n* Row 2\n  * Col 3\n";
    let expected = map(vec![(
        "Matrix",
        list(vec![
            leaf("Row 1"),
            list(vec![leaf("Col 1"), leaf("Col 2")]),
            leaf("Row 2"),
            list(vec![leaf("Col 3")]),
        ]),
    )]);
    assert_eq!(parse_markdown_minified(md), expected);
}

#[test]
fn an_item_that_is_a_list_alone_is_that_list() {
    let tokens = vec![
        Token::Start(Block::Item),
        Token::Start(Block::List(None)),
        Token::Start(Block::Item),
        text("Col 1"),
        Token::End(BlockEnd::Item),
        Token::Start(Block::Item),
        text("Col 2"),
        Token::End(BlockEnd::Item),
        Token::End(BlockEnd::List),
        Token::End(BlockEnd::Item),
        Token::End(BlockEnd::List),
        text("behind"),
    ];
    let (node, next) = parse_recursive_list(&tokens, 0);
    assert_eq!(node, list(vec![list(vec![leaf("Col 1"), leaf("Col 2")])]));
    assert_eq!(next, 11);
}

#[test]
fn a_list_reader_stops_where_the_events_stop() {
    let tokens = vec![
        Token::Start(Block::Item),
        text(" a"),
        Token::SoftBreak,
        Token::Code("b".to_string()),
        Token::HardBreak,
    ];
    assert_eq!(parse_recursive_list(&tokens, 0), (list(vec![leaf("a b")]), 5));
    assert_eq!(parse_recursive_list(&tokens, 5), (list(vec![]), 5));
    assert_eq!(parse_recursive_list(&tokens, 9), (list(vec![]), 9));
}

#[test]
fn an_item_of_white_space_adds_nothing() {
    let tokens = vec![
        Token::Start(Block::Item),
        text("  "),
        Token::End(BlockEnd::Item),
        Token::Start(Block::Item),
        text("x"),
        Token::End(BlockEnd::Item),
        Token::End(BlockEnd::List),
    ];
    assert_eq!(parse_recursive_list(&tokens, 0), (list(vec![leaf("x")]), 7));
}

#[test]
fn a_heading_that_comes_again_keeps_its_entry() {
    let ast = parse_markdown_minified("# A\none\n\n# B\nb\n\n# A\ntwo");
    assert_eq!(ast, map(vec![("A", leaf("one\n\ntwo")), ("B", leaf("b"))]));
}

#[test]
fn what_stands_before_the_first_heading_goes_to_it() {
    let ast = parse_markdown_minified("intro\n\n# A\ntext");
    assert_eq!(ast, map(vec![("A", leaf("intro\n\ntext"))]));
}

#[test]
fn without_a_heading_nothing_is_kept() {
    assert_eq!(parse_markdown_minified("only text\n\n* a"), map(vec![]));
}

#[test]
fn a_code_block_keeps_its_fences() {
    let ast = parse_markdown_minified("# C\n```rust\nfn x() {}\n```\n");
    assert_eq!(ast, map(vec![("C", leaf("```rust\nfn x() {}\n```"))]));
}

#[test]
fn an_indented_code_block_gets_fences_without_a_language() {
    let mut tokens = heading(Level::H1, "C");
    tokens.push(Token::Start(Block::CodeBlock(Fence::Indented)));
    tokens.push(text("x\n"));
    tokens.push(Token::End(BlockEnd::CodeBlock));
    assert_eq!(build_config(&tokens), map(vec![("C", leaf("```\nx\n```"))]));
}

#[test]
fn a_line_break_is_a_line_feed_in_a_leaf() {
    let ast = parse_markdown_minified("# K\nline one\nline two  \nline three");
    assert_eq!(ast, map(vec![("K", leaf("line one\nline two\nline three"))]));
}

#[test]
fn a_heading_closes_those_of_its_level_and_deeper() {
    let ast = parse_markdown_minified("# A\n## B\n### C\nc\n\n## D\nd\n\n# E\ne");
    assert_eq!(
        ast,
        map(vec![
            ("A", map(vec![("B", map(vec![("C", leaf("c"))])), ("D", leaf("d"))])),
            ("E", leaf("e")),
        ])
    );
}

#[test]
fn a_heading_without_content_is_an_empty_leaf() {
    assert_eq!(
        parse_markdown_minified("# A\n# B"),
        map(vec![("A", leaf("")), ("B", leaf(""))])
    );
}

#[test]
fn the_key_is_the_trimmed_text_of_the_heading() {
    let tokens = vec![
        Token::Start(Block::Heading(Level::H2)),
        text("  My "),
        Token::Start(Block::Other),
        text("Key"),
        Token::End(BlockEnd::Other),
        text(" \t"),
        Token::End(BlockEnd::Heading),
    ];
    assert_eq!(build_config(&tokens), map(vec![("My Key", leaf(""))]));
}

#[test]
fn an_end_of_a_heading_without_its_start_adds_no_key() {
    let tokens = vec![text("x"), Token::End(BlockEnd::Heading)];
    assert_eq!(build_config(&tokens), map(vec![]));
}

#[test]
fn stringify_list_item_writes_one_line_for_a_leaf() {
    let mut buf = "x".to_string();
    stringify_list_item(&mut buf, &leaf("a"), 2);
    assert_eq!(buf, "x  * a\n");
}

#[test]
fn stringify_list_item_indents_a_nested_list() {
    let mut buf = String::new();
    let node = list(vec![leaf("a"), list(vec![leaf("b")]), map(vec![("k", leaf("v"))])]);
    stringify_list_item(&mut buf, &node, 1);
    assert_eq!(buf, "   * a\n     * b\n");
}

#[test]
fn ensure_path_is_map_replaces_a_leaf_and_adds_what_is_missing() {
    let mut root = map(vec![("a", leaf("text")), ("b", map(vec![("c", leaf("kept"))]))]);
    ensure_path_is_map(&mut root, &path(&[(1, "a"), (2, "x")]));
    assert_eq!(
        root,
        map(vec![
            ("a", map(vec![("x", map(vec![]))])),
            ("b", map(vec![("c", leaf("kept"))])),
        ])
    );
    ensure_path_is_map(&mut root, &path(&[(1, "b")]));
    assert_eq!(
        root,
        map(vec![
            ("a", map(vec![("x", map(vec![]))])),
            ("b", map(vec![("c", leaf("kept"))])),
        ])
    );
    let mut not_a_map = leaf("gone");
    ensure_path_is_map(&mut not_a_map, &[]);
    assert_eq!(not_a_map, map(vec![]));
}

#[test]
fn add_key_to_map_adds_an_empty_leaf_last() {
    let mut root = map(vec![("a", map(vec![("b", leaf("1"))]))]);
    add_key_to_map(&mut root, &path(&[(1, "a")]), "c".to_string());
    assert_eq!(root, map(vec![("a", map(vec![("b", leaf("1")), ("c", leaf(""))]))]));
    add_key_to_map(&mut root, &[], "top".to_string());
    assert_eq!(
        root,
        map(vec![
            ("a", map(vec![("b", leaf("1")), ("c", leaf(""))])),
            ("top", leaf("")),
        ])
    );
}

#[test]
fn add_key_to_map_leaves_a_key_that_is_there() {
    let mut root = map(vec![("a", leaf("kept"))]);
    add_key_to_map(&mut root, &[], "a".to_string());
    assert_eq!(root, map(vec![("a", leaf("kept"))]));
}

#[test]
fn add_key_to_map_changes_nothing_where_the_path_is_broken() {
    let mut root = map(vec![("a", leaf("text"))]);
    add_key_to_map(&mut root, &path(&[(1, "a")]), "k".to_string());
    assert_eq!(root, map(vec![("a", leaf("text"))]));
    add_key_to_map(&mut root, &path(&[(1, "zz")]), "k".to_string());
    assert_eq!(root, map(vec![("a", leaf("text"))]));
}

#[test]
fn append_content_to_tip_keeps_the_text_that_is_there() {
    let mut root = map(vec![("a", map(vec![("b", leaf("old"))]))]);
    append_content_to_tip(
        &mut root,
        &path(&[(1, "a"), (2, "b")]),
        vec![leaf("new"), list(vec![leaf("x"), list(vec![leaf("y")])])],
    );
    assert_eq!(
        root,
        map(vec![("a", map(vec![("b", leaf("old\n\nnew\n\n* x\n  * y"))]))])
    );
}

#[test]
fn append_content_to_tip_leaves_a_map_alone() {
    let mut root = map(vec![("a", map(vec![("b", leaf("1"))]))]);
    append_content_to_tip(&mut root, &path(&[(1, "a")]), vec![leaf("ignored")]);
    assert_eq!(root, map(vec![("a", map(vec![("b", leaf("1"))]))]));
}

#[test]
fn append_content_to_tip_puts_one_list_in_place_of_what_was_there() {
    let mut root = map(vec![("a", leaf("old"))]);
    append_content_to_tip(&mut root, &path(&[(1, "a")]), vec![list(vec![leaf("x")])]);
    assert_eq!(root, map(vec![("a", list(vec![leaf("x")]))]));
    append_content_to_tip(&mut root, &path(&[(1, "a")]), vec![leaf("t")]);
    assert_eq!(root, map(vec![("a", leaf("t"))]));
}

#[test]
fn append_content_to_tip_changes_nothing_without_a_key() {
    let mut root = map(vec![("a", leaf("old"))]);
    append_content_to_tip(&mut root, &[], vec![leaf("x")]);
    append_content_to_tip(&mut root, &path(&[(1, "zz")]), vec![leaf("x")]);
    append_content_to_tip(&mut root, &path(&[(1, "a"), (2, "b")]), vec![leaf("x")]);
    assert_eq!(root, map(vec![("a", leaf("old"))]));
}

#[test]
fn fragments_of_white_space_leave_an_empty_leaf() {
    let mut root = map(vec![("a", leaf(""))]);
    append_content_to_tip(&mut root, &path(&[(1, "a")]), vec![leaf(" "), leaf("\n")]);
    assert_eq!(root, map(vec![("a", leaf(""))]));
}
