use datadown::convert::{config_value, node_value, serialize_ast};
use datadown::{
    convert, convert_str, ConvertError, MinifiedNode, Node, NodeOrString, OutputFormat,
    ParseError, ParsingMode,
};

#[test]
fn format_names_are_read_whatever_their_case() {
    assert_eq!(OutputFormat::from_str("json"), Some(OutputFormat::Json));
    assert_eq!(OutputFormat::from_str("JSON"), Some(OutputFormat::Json));
    assert_eq!(OutputFormat::from_str("yaml"), Some(OutputFormat::Yaml));
    assert_eq!(OutputFormat::from_str("Yml"), Some(OutputFormat::Yaml));
    assert_eq!(OutputFormat::from_str("toml"), Some(OutputFormat::Toml));
    assert_eq!(OutputFormat::from_str("tOmL"), Some(OutputFormat::Toml));
    assert_eq!(OutputFormat::from_str("xml"), Some(OutputFormat::Xml));
    assert_eq!(OutputFormat::from_str("XML"), Some(OutputFormat::Xml));
}

#[test]
fn other_names_are_no_format() {
    assert_eq!(OutputFormat::from_str(""), None);
    assert_eq!(OutputFormat::from_str("jsonl"), None);
    assert_eq!(OutputFormat::from_str(" json"), None);
    assert_eq!(OutputFormat::from_str("csv"), None);
    assert_eq!(OutputFormat::from_str("yäml"), None);
}

#[test]
fn the_default_mode_is_the_document() {
    assert_eq!(ParsingMode::default(), ParsingMode::Document);
}

#[test]
fn a_configuration_keeps_the_order_of_its_headings_in_json() {
    let json = convert_str("# B\nx\n\n# A\ny", OutputFormat::Json, ParsingMode::Minified).unwrap();
    assert_eq!(json, "{\n  \"B\": \"x\",\n  \"A\": \"y\"\n}");
}

#[test]
fn a_configuration_in_yaml() {
    let yaml = convert_str(
        "# Name\nDatadown\n\n# Tags\n* a\n* b",
        OutputFormat::Yaml,
        ParsingMode::Minified,
    )
    .unwrap();
    assert_eq!(yaml, "Name: Datadown\nTags:\n- a\n- b\n");
}

#[test]
fn a_configuration_in_toml() {
    let toml_text = convert_str(
        "# Name\nDatadown\n\n# Db\n## Port\n5432",
        OutputFormat::Toml,
        ParsingMode::Minified,
    )
    .unwrap();
    let parsed: toml::Value = toml::from_str(&toml_text).expect("Valid TOML");
    assert_eq!(parsed["Name"].as_str(), Some("Datadown"));
    assert_eq!(parsed["Db"]["Port"].as_str(), Some("5432"));
}

#[test]
fn the_keys_of_a_configuration_are_sanitized_for_xml_only() {
    let md = "# My Key\nvalue\n\n# 1st\nx";
    let xml = convert_str(md, OutputFormat::Xml, ParsingMode::Minified).unwrap();
    assert_eq!(
        xml,
        "<MinifiedNode><My_Key>value</My_Key><_1st>x</_1st></MinifiedNode>"
    );
    let json = convert_str(md, OutputFormat::Json, ParsingMode::Minified).unwrap();
    assert_eq!(json, "{\n  \"My Key\": \"value\",\n  \"1st\": \"x\"\n}");
}

#[test]
fn a_document_in_xml_has_the_root_tag_of_its_kind() {
    let xml = convert_str("# T", OutputFormat::Xml, ParsingMode::Document).unwrap();
    assert_eq!(
        xml,
        "<Node><type>Document</type><children><type>Heading</type><level>1</level>\
         <text>T</text><children><type>Text</type><content>T</content></children>\
         </children></Node>"
    );
}

#[test]
fn the_text_of_a_heading_is_its_text_without_formatting() {
    let json = convert_str(
        "## Hello **bold** and *italic* world",
        OutputFormat::Json,
        ParsingMode::Document,
    )
    .unwrap();
    let parsed: serde_json::Value = serde_json::from_str(&json).expect("Valid JSON");
    assert_eq!(parsed["children"][0]["level"], 2);
    assert_eq!(parsed["children"][0]["text"], "Hello bold and italic world");
    assert_eq!(parsed["children"][0]["children"].as_array().unwrap().len(), 5);
    assert_eq!(parsed["children"][0]["children"][1]["content"], "bold");
}

#[test]
fn a_document_in_json_begins_each_record_with_its_type() {
    let json = convert_str("a", OutputFormat::Json, ParsingMode::Document).unwrap();
    let expected = "{\n  \"type\": \"Document\",\n  \"children\": [\n    {\n      \"type\": \"Paragraph\",\n      \"children\": [\n        {\n          \"type\": \"Text\",\n          \"content\": \"a\"\n        }\n      ]\n    }\n  ]\n}";
    assert_eq!(json, expected);
}

#[test]
fn a_code_block_has_info_only_where_a_language_is_recorded() {
    let plain = Node::CodeBlock { info: None, content: "x".to_string() };
    let value = node_value(&plain);
    assert_eq!(value["type"], "CodeBlock");
    assert_eq!(value["content"], "x");
    assert!(value.get("info").is_none());
    let tagged = Node::CodeBlock { info: Some("rust".to_string()), content: "x".to_string() };
    let value = node_value(&tagged);
    assert_eq!(value["info"], "rust");
    let keys: Vec<&String> = value.as_object().unwrap().keys().collect();
    assert_eq!(keys, ["type", "info", "content"]);
}

#[test]
fn node_value_writes_lists_and_items() {
    let node = Node::List {
        ordered: true,
        items: vec![Node::ListItem {
            children: vec![
                NodeOrString::String("a".to_string()),
                NodeOrString::Node(Box::new(Node::Paragraph { children: vec![] })),
            ],
        }],
    };
    let value = node_value(&node);
    assert_eq!(value["type"], "List");
    assert_eq!(value["ordered"], true);
    assert_eq!(value["items"][0]["type"], "ListItem");
    assert_eq!(value["items"][0]["children"][0]["type"], "Text");
    assert_eq!(value["items"][0]["children"][0]["content"], "a");
    assert_eq!(value["items"][0]["children"][1]["type"], "Paragraph");
    assert_eq!(value["items"][0]["children"][1]["children"].as_array().unwrap().len(), 0);
}

#[test]
fn config_value_gives_a_key_that_comes_again_its_first_place_and_last_value() {
    let node = MinifiedNode::Mapping(vec![
        ("a".to_string(), MinifiedNode::String("1".to_string())),
        ("b".to_string(), MinifiedNode::Array(vec![MinifiedNode::String("2".to_string())])),
        ("a".to_string(), MinifiedNode::String("3".to_string())),
    ]);
    let value = config_value(&node);
    let text = serde_json::to_string(&value).unwrap();
    assert_eq!(text, "{\"a\":\"3\",\"b\":[\"2\"]}");
}

#[test]
fn a_serializer_that_refuses_gives_its_message() {
    let not_a_table = serde_json::Value::from("text");
    match serialize_ast(&not_a_table, OutputFormat::Toml, "Node") {
        Err(ConvertError::Ser(message)) => assert!(!message.is_empty()),
        other => panic!("Expected a serialization error, got {:?}", other),
    }
    let value = serde_json::Value::from("text");
    match serialize_ast(&value, OutputFormat::Xml, "not a tag") {
        Err(ConvertError::Ser(message)) => assert!(!message.is_empty()),
        other => panic!("Expected a serialization error, got {:?}", other),
    }
}

#[test]
fn serialize_ast_writes_each_format() {
    let value = config_value(&MinifiedNode::Mapping(vec![(
        "k".to_string(),
        MinifiedNode::String("v".to_string()),
    )]));
    assert_eq!(
        serialize_ast(&value, OutputFormat::Json, "r").unwrap(),
        "{\n  \"k\": \"v\"\n}"
    );
    assert_eq!(serialize_ast(&value, OutputFormat::Yaml, "r").unwrap(), "k: v\n");
    assert_eq!(serialize_ast(&value, OutputFormat::Toml, "r").unwrap(), "k = \"v\"\n");
    assert_eq!(serialize_ast(&value, OutputFormat::Xml, "r").unwrap(), "<r><k>v</k></r>");
}

#[test]
fn convert_reads_the_name_of_the_format() {
    assert_eq!(
        convert("a", "JSON"),
        convert_str("a", OutputFormat::Json, ParsingMode::Document).map_err(|e| e.message())
    );
    assert_eq!(convert("# T", "yml"), Ok("type: Document\nchildren:\n- type: Heading\n  level: 1\n  text: T\n  children:\n  - type: Text\n    content: T\n".to_string()));
}

#[test]
fn convert_refuses_a_name_that_is_no_format() {
    assert_eq!(
        convert("# T", "csv"),
        Err("invalid format (use json|yaml|toml|xml)".to_string())
    );
}

#[test]
fn each_error_has_its_message() {
    assert_eq!(ConvertError::UnsupportedFormat.message(), "unsupported format");
    assert_eq!(
        ConvertError::Ser("no root".to_string()).message(),
        "serialization: no root"
    );
    assert_eq!(
        ConvertError::Structure(ParseError::UnmatchedEnd { index: 4 }).message(),
        "structure: an event closes a block that is not open"
    );
}

#[test]
fn a_copy_of_a_configuration_is_equal_to_it() {
    let node = MinifiedNode::Mapping(vec![
        ("a".to_string(), MinifiedNode::String("1".to_string())),
        (
            "b".to_string(),
            MinifiedNode::Array(vec![
                MinifiedNode::String("2".to_string()),
                MinifiedNode::Mapping(vec![]),
            ]),
        ),
    ]);
    assert_eq!(node.clone(), node);
}

#[test]
fn assorted_texts_convert_in_every_mode() {
    let samples = [
        "",
        "   \n\n   ",
        "plain",
        "# A\n\n> quote\n> more\n\n---\n\n<div>html</div>\n\n| a | b |\n|---|---|\n| 1 | 2 |\n",
        "1. one\n2. two\n   * deep\n     1. deeper\n\ntext ![img](x.png) [link](y) ~~s~~\n",
        "# K\n\n```\nno end",
        "* \n* a\n\n  b\n",
        "###### six\n####### seven\n# \n## **bold** key\ntext\\\nmore",
        "# Ключ\nзначение\n\n# 键\n值\n\n# 1\n2\n",
    ];
    for md in samples {
        for mode in [ParsingMode::Document, ParsingMode::Minified] {
            let json = convert_str(md, OutputFormat::Json, mode).unwrap();
            let parsed: serde_json::Value = serde_json::from_str(&json).expect("Valid JSON");
            assert!(parsed.is_object());
            let yaml = convert_str(md, OutputFormat::Yaml, mode).unwrap();
            let reparsed: serde_yaml::Value = serde_yaml::from_str(&yaml).expect("Valid YAML");
            assert!(reparsed.is_mapping());
            for fmt in [OutputFormat::Toml, OutputFormat::Xml] {
                match convert_str(md, fmt, mode) {
                    Ok(_) | Err(ConvertError::Ser(_)) => {}
                    Err(other) => panic!("Expected text or a refusal, got {:?}", other),
                }
            }
        }
    }
}

#[test]
fn every_key_of_any_script_is_a_tag_that_xml_takes() {
    let md = "# Ключ один\nзначение\n\n# 键\n值\n\n# 1 2\n3\n\n# a.b-c\nd\n";
    let xml = convert_str(md, OutputFormat::Xml, ParsingMode::Minified).unwrap();
    assert_eq!(
        xml,
        "<MinifiedNode><Ключ_один>значение</Ключ_один><键>值</键><_1_2>3</_1_2>\
         <a.b-c>d</a.b-c></MinifiedNode>"
    );
}
