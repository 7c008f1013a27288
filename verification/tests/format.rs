use ronfmt::ast::{FileText, Item, ParseError, RonValue, TextFragment};
use ronfmt::config::{get_config, Config, MAX_LINE_WIDTH, SOFT_TAB_WIDTH};
use ronfmt::parser::{format_ron, parse_ron};

fn cfg(tab: usize, width: usize) -> Config {
    Config {
        soft_tab_width: tab,
        max_line_width: width,
        target_file_path: String::new(),
        format_in_place: false,
        with_backup: true,
    }
}

fn fmt(input: &str, tab: usize, width: usize) -> String {
    let bytes: Vec<u8> = input.as_bytes().to_vec();
    let out = format_ron(&bytes, &cfg(tab, width)).expect("input should format");
    String::from_utf8(out).expect("output should be valid text")
}

fn fmt_err(input: &str) -> ParseError {
    let bytes: Vec<u8> = input.as_bytes().to_vec();
    format_ron(&bytes, &cfg(4, 40)).expect_err("input should be rejected")
}

#[test]
fn short_record_stays_single_line() {
    assert_eq!(fmt("(a: 1, b: 2)", 4, 40), "(a: 1, b: 2)\n");
}

#[test]
fn wide_list_expands_one_element_per_line() {
    assert_eq!(
        fmt("[1,2,3,4,5,6,7,8,9,10]", 4, 10),
        "[\n    1,\n    2,\n    3,\n    4,\n    5,\n    6,\n    7,\n    8,\n    9,\n    10,\n]\n"
    );
}

#[test]
fn extension_headers_merge_sorted_and_deduplicated() {
    assert_eq!(
        fmt("#![enable(b)] #![enable(a)] #![enable(a)]", 4, 40),
        "#![enable(a, b)]\n\n"
    );
}

#[test]
fn extension_header_precedes_body_with_blank_line() {
    assert_eq!(
        fmt("#![enable(unwrap_newtypes)]\n42", 4, 40),
        "#![enable(unwrap_newtypes)]\n\n42\n"
    );
}

#[test]
fn leading_comment_forces_record_expansion() {
    assert_eq!(
        fmt("(\n// note\na: 1, b: 2)", 4, 40),
        "(\n    // note\n    a: 1,\n    b: 2,\n)\n"
    );
}

#[test]
fn empty_collections_stay_single_line_at_width_zero() {
    assert_eq!(fmt("[]", 4, 0), "[]\n");
    assert_eq!(fmt("{}", 4, 0), "{}\n");
    assert_eq!(fmt("Name()", 4, 0), "Name()\n");
    assert_eq!(fmt("()", 4, 0), "()\n");
}

#[test]
fn width_equal_to_maximum_stays_single_line() {
    // [1, 2] has minimum width 6
    assert_eq!(fmt("[1, 2]", 4, 6), "[1, 2]\n");
}

#[test]
fn width_one_over_maximum_expands() {
    assert_eq!(fmt("[1, 2]", 4, 5), "[\n    1,\n    2,\n]\n");
}

#[test]
fn trailing_comment_on_item_forces_expansion() {
    assert_eq!(fmt("[1, 2] // c", 4, 40), "[\n    1,\n    2,\n] // c\n");
}

#[test]
fn element_trailing_comment_stays_on_its_line() {
    assert_eq!(fmt("[1, // one\n2]", 4, 40), "[\n    1, // one\n    2,\n]\n");
}

#[test]
fn comment_before_closing_bracket_becomes_post_comment() {
    assert_eq!(fmt("[1,\n// trailing\n]", 4, 40), "[\n    1,\n    // trailing\n]\n");
}

#[test]
fn map_fits_on_one_line() {
    assert_eq!(fmt("{\"a\": 1, \"b\": 2}", 4, 40), "{\"a\": 1, \"b\": 2}\n");
}

#[test]
fn map_expands_with_keys_inline() {
    assert_eq!(
        fmt("{\"a\": 1, \"b\": 2}", 4, 10),
        "{\n    \"a\": 1,\n    \"b\": 2,\n}\n"
    );
}

#[test]
fn siblings_decide_layout_independently() {
    assert_eq!(
        fmt("[[1,2],[3],[100000,200000]]", 4, 12),
        "[\n    [1, 2],\n    [3],\n    [\n        100000,\n        200000,\n    ],\n]\n"
    );
}

#[test]
fn standalone_comment_precedes_top_level_value() {
    assert_eq!(fmt("// hi\n1", 4, 40), "// hi\n1\n");
}

#[test]
fn trailing_comment_after_atom_shares_its_line() {
    assert_eq!(fmt("1 // done", 4, 40), "1 // done\n");
}

#[test]
fn comment_after_last_value_survives() {
    assert_eq!(fmt("1\n// after", 4, 40), "1\n// after\n");
}

#[test]
fn line_comment_with_carriage_return_is_trimmed() {
    assert_eq!(fmt("// c\r\n1", 4, 40), "// c\n1\n");
}

#[test]
fn block_comment_is_kept_verbatim() {
    assert_eq!(fmt("/* note */\n1", 4, 40), "/* note */\n1\n");
}

#[test]
fn named_tuple_roundtrips() {
    assert_eq!(fmt("Some(1)", 4, 40), "Some(1)\n");
}

#[test]
fn quoted_strings_keep_escapes() {
    assert_eq!(fmt("\"a\\\"b\"", 4, 40), "\"a\\\"b\"\n");
}

#[test]
fn char_and_float_atoms_roundtrip() {
    assert_eq!(fmt("'x'", 4, 40), "'x'\n");
    assert_eq!(fmt("3.14", 4, 40), "3.14\n");
    assert_eq!(fmt("-2.5e-3", 4, 40), "-2.5e-3\n");
    assert_eq!(fmt("true", 4, 40), "true\n");
}

#[test]
fn whitespace_is_normalized() {
    assert_eq!(fmt("[ 1 ,   2 ]", 4, 40), "[1, 2]\n");
    assert_eq!(fmt("( a :  1 )", 4, 40), "(a: 1)\n");
}

#[test]
fn trailing_comma_in_input_is_dropped_when_compact() {
    assert_eq!(fmt("[1, 2,]", 4, 40), "[1, 2]\n");
}

#[test]
fn multiple_top_level_values_each_get_a_line() {
    assert_eq!(fmt("1 2", 4, 40), "1\n2\n");
}

#[test]
fn formatting_is_idempotent_on_varied_inputs() {
    let samples = [
        "(a: 1, b: 2)",
        "[1,2,3,4,5,6,7,8,9,10]",
        "#![enable(b)] #![enable(a)] #![enable(a)]",
        "(\n// note\na: 1, b: 2)",
        "[1, // one\n2]",
        "[[1,2],[3],[100000,200000]]",
        "{\"a\": 1, \"b\": 2}",
        "Outer(inner: [1, 2], other: {})",
    ];
    for input in samples.iter() {
        for width in [0usize, 6, 10, 40].iter() {
            let once = fmt(input, 4, *width);
            let twice = fmt(&once, 4, *width);
            assert_eq!(twice, once, "not idempotent on {:?} at width {}", input, width);
        }
    }
}

#[test]
fn indent_unit_is_configurable() {
    assert_eq!(fmt("[1, 2]", 2, 5), "[\n  1,\n  2,\n]\n");
}

#[test]
fn deeper_levels_add_one_indent_unit_each() {
    assert_eq!(fmt("[[1]]", 3, 0), "[\n   [\n      1,\n   ],\n]\n");
}

#[test]
fn unclosed_list_is_rejected() {
    assert_eq!(fmt_err("[1"), ParseError::UnexpectedEnd);
}

#[test]
fn stray_byte_is_rejected_with_its_position() {
    assert_eq!(fmt_err("@"), ParseError::UnexpectedByte { pos: 0 });
    assert_eq!(fmt_err("[1, @]"), ParseError::UnexpectedByte { pos: 4 });
}

#[test]
fn unterminated_string_is_rejected() {
    assert_eq!(fmt_err("\"abc"), ParseError::UnterminatedLiteral { pos: 0 });
}

#[test]
fn unterminated_block_comment_is_rejected() {
    assert_eq!(fmt_err("/* x"), ParseError::UnterminatedComment { pos: 0 });
}

#[test]
fn malformed_extension_header_is_rejected() {
    assert_eq!(fmt_err("#![enable]"), ParseError::MalformedExtension { pos: 0 });
    assert_eq!(fmt_err("#!enable(a)"), ParseError::MalformedExtension { pos: 0 });
}

#[test]
fn missing_comma_between_elements_is_rejected() {
    assert_eq!(fmt_err("[1 2]"), ParseError::UnexpectedToken { index: 2 });
}

#[test]
fn missing_colon_in_map_is_rejected() {
    assert_eq!(fmt_err("{a 1}"), ParseError::UnexpectedToken { index: 2 });
}

#[test]
fn lone_separator_is_rejected() {
    assert_eq!(fmt_err(":"), ParseError::UnexpectedToken { index: 0 });
}

#[test]
fn parse_exposes_sorted_extension_set() {
    let bytes: Vec<u8> = "#![enable(zz)] #![enable(aa, mm)] 1".as_bytes().to_vec();
    let doc: FileText = parse_ron(&bytes).expect("should parse");
    let names: Vec<String> = doc
        .extensions
        .iter()
        .map(|e| String::from_utf8(e.clone()).unwrap())
        .collect();
    assert_eq!(names, vec!["aa".to_string(), "mm".to_string(), "zz".to_string()]);
    assert_eq!(doc.items.len(), 1);
}

#[test]
fn minimum_widths_are_stored_bottom_up() {
    let bytes: Vec<u8> = "(a: 1, b: 2)".as_bytes().to_vec();
    let doc = parse_ron(&bytes).expect("should parse");
    // 1+1+4 per field
    assert_eq!(doc.items[0].fragment.minimum_length, 12);
}

#[test]
fn hand_built_empty_list_prints_single_line() {
    let doc = FileText {
        extensions: vec![],
        items: vec![Item {
            pre: vec![],
            fragment: TextFragment { minimum_length: 0, ron_value: RonValue::List(vec![]) },
            eol: None,
            post: vec![],
        }],
    };
    let out = doc.pretty_print(&cfg(4, 0));
    assert_eq!(out, b"[]\n".to_vec());
}

#[test]
fn get_config_applies_defaults() {
    let c = get_config(String::from("file.ron"), None, None, false, false);
    assert_eq!(c.soft_tab_width, SOFT_TAB_WIDTH);
    assert_eq!(c.max_line_width, MAX_LINE_WIDTH);
    assert_eq!(c.target_file_path, "file.ron");
    assert!(!c.format_in_place);
    assert!(c.with_backup);
}

#[test]
fn get_config_honors_explicit_values() {
    let c = get_config(String::from("x"), Some(2), Some(100), true, true);
    assert_eq!(c.soft_tab_width, 2);
    assert_eq!(c.max_line_width, 100);
    assert!(c.format_in_place);
    assert!(!c.with_backup);
}

#[test]
fn map_keys_may_be_composite_values() {
    assert_eq!(fmt("{[1, 2]: 3}", 4, 40), "{[1, 2]: 3}\n");
}

#[test]
fn expanded_map_keeps_key_inline_with_value() {
    assert_eq!(
        fmt("{\"aaaaaaaaaaaaaaaa\": 1}", 4, 5),
        "{\n    \"aaaaaaaaaaaaaaaa\": 1,\n}\n"
    );
}

#[test]
fn named_record_roundtrips() {
    assert_eq!(fmt("Thing(a: 1)", 4, 40), "Thing(a: 1)\n");
}

#[test]
fn extension_header_tolerates_spacing() {
    assert_eq!(fmt("#![enable( a , b )]", 4, 40), "#![enable(a, b)]\n\n");
}

#[test]
fn field_trailing_comment_stays_on_field_line() {
    assert_eq!(
        fmt("(a: 1, // x\nb: 2)", 4, 40),
        "(\n    a: 1, // x\n    b: 2,\n)\n"
    );
}

#[test]
fn nested_record_expands_only_where_needed() {
    // the inner list is 20 wide; at depth 1 its projected width is 24
    assert_eq!(
        fmt("Outer(inner: [1, 2], wide: [100, 200, 300, 400])", 4, 24),
        "Outer(\n    inner: [1, 2],\n    wide: [100, 200, 300, 400],\n)\n"
    );
    assert_eq!(
        fmt("Outer(inner: [1, 2], wide: [100, 200, 300, 400])", 4, 23),
        "Outer(\n    inner: [1, 2],\n    wide: [\n        100,\n        200,\n        300,\n        400,\n    ],\n)\n"
    );
}

#[test]
fn comment_inside_map_key_is_a_structural_error() {
    assert_eq!(fmt_err("{[1, //c\n2]: 3}"), ParseError::CommentInMapKey { index: 1 });
    assert_eq!(fmt_err("{[ /*k*/ 1]: 2}"), ParseError::CommentInMapKey { index: 1 });
}

#[test]
fn comment_before_map_key_attaches_to_the_entry() {
    assert_eq!(fmt("{ /*k*/ [1]: 2 }", 4, 40), "{\n    /*k*/\n    [1]: 2,\n}\n");
}

#[test]
fn comment_deep_inside_map_value_survives() {
    assert_eq!(
        fmt("{1: [2, //c\n3]}", 4, 40),
        "{\n    1: [\n        2, //c\n        3,\n    ],\n}\n"
    );
}
