//! Tests of the formatter: the example scenarios, the failure conditions,
//! and concrete instances of the formatter's laws.
use json_fmt::model::FormatError;
use json_fmt::opts::Opts;

/// Removes the whitespace that stands outside string literals, the way the
/// formatter's structural-content law counts it.
fn strip_outside_literals(s: &str) -> String {
    let vc: Vec<char> = s.chars().collect();
    let mut out = String::new();
    let mut i = 0;
    while i < vc.len() {
        let c = vc[i];
        if c == ' ' || c == '\t' || c == '\n' {
            i += 1;
        } else if c == '"' {
            out.push(c);
            i += 1;
            while i < vc.len() && vc[i] != '"' {
                if vc[i] == '\\' {
                    out.push(vc[i]);
                    i += 1;
                    if i >= vc.len() {
                        break;
                    }
                }
                out.push(vc[i]);
                i += 1;
            }
            if i < vc.len() {
                out.push(vc[i]);
                i += 1;
            }
        } else {
            out.push(c);
            i += 1;
        }
    }
    out
}

/// Verify that format works for a simple case.
#[test]
fn test_format_json() {
    let input = String::from(
        "{ \"key\": \"value\", \"list1\": [1, 2, 3, 4], \"list2\": [\"a\", \"b\", \"c\", \"d\"] }",
    );
    let program = String::from("/test/format/json/tester");
    let opts = Opts::defaults(&program);
    let output = json_fmt::format(&opts, &input).unwrap();
    let good = String::from(
        "\
{
    \"key\": \"value\",
    \"list1\": [
        1,
        2,
        3,
        4
    ],
    \"list2\": [
        \"a\",
        \"b\",
        \"c\",
        \"d\"
    ]
}
",
    );
    assert_eq!(output, good);
    assert_eq!(opts.program_base, "tester".to_string());
}

/// Verify that format works for a simple case
/// with a non-default indent (2).
#[test]
fn test_format_json_indent_2() {
    let input = String::from(
        "{ \"key\": \"value\", \"list1\": [1, 2, 3, 4], \"list2\": [\"a\", \"b\", \"c\", \"d\"] }",
    );
    let program = String::from("/test/format/json/tester");
    let mut opts = Opts::defaults(&program);
    opts.indent = 2;
    let output = json_fmt::format(&opts, &input).unwrap();
    let good = String::from(
        "\
{
  \"key\": \"value\",
  \"list1\": [
    1,
    2,
    3,
    4
  ],
  \"list2\": [
    \"a\",
    \"b\",
    \"c\",
    \"d\"
  ]
}
",
    );
    assert_eq!(output, good);
}

#[test]
fn test_format_idempotent() {
    let program = String::from("tester");
    let opts = Opts::defaults(&program);
    let input = String::from("{\"a\": [1, {\"b\": null}], \"c\": true}");
    let once = json_fmt::format(&opts, &input).unwrap();
    let twice = json_fmt::format(&opts, &once).unwrap();
    assert_eq!(twice, once);
}

#[test]
fn test_format_structural_content_preserved() {
    let program = String::from("tester");
    let opts = Opts::defaults(&program);
    let input = String::from("  {\"a b\":\t[1,\n 02, x]  , \"t \\\" \": null}\n");
    let output = json_fmt::format(&opts, &input).unwrap();
    assert_eq!(strip_outside_literals(&output), strip_outside_literals(&input));
}

#[test]
fn test_format_literal_passthrough() {
    let program = String::from("tester");
    let opts = Opts::defaults(&program);
    let input = String::from("{\"k\": \"x \\\"q\\\" \\\\ y\tz\"}");
    let output = json_fmt::format(&opts, &input).unwrap();
    let good = String::from("{\n    \"k\": \"x \\\"q\\\" \\\\ y\tz\"\n}\n");
    assert_eq!(output, good);
}

#[test]
fn test_format_depth_at_ceiling_fails() {
    let program = String::from("tester");
    let mut opts = Opts::defaults(&program);
    opts.depth = 2;
    let shallow = String::from("[1]");
    assert_eq!(json_fmt::format(&opts, &shallow).unwrap(), String::from("[\n    1\n]\n"));
    let deep = String::from("[[1]]");
    assert_eq!(json_fmt::format(&opts, &deep), Err(FormatError::DepthExceeded));
}

#[test]
fn test_format_depth_one() {
    let program = String::from("tester");
    let mut opts = Opts::defaults(&program);
    opts.depth = 1;
    assert_eq!(json_fmt::format(&opts, &String::from("x")).unwrap(), String::from("x\n"));
    assert_eq!(json_fmt::format(&opts, &String::from("[]")), Err(FormatError::DepthExceeded));
}

#[test]
fn test_format_unbalanced_closer() {
    let program = String::from("tester");
    let opts = Opts::defaults(&program);
    assert_eq!(json_fmt::format(&opts, &String::from("}")), Err(FormatError::UnbalancedStructure));
    assert_eq!(json_fmt::format(&opts, &String::from("{\"a\": 1}]")), Err(FormatError::UnbalancedStructure));
}

#[test]
fn test_format_unterminated_literal() {
    let program = String::from("tester");
    let opts = Opts::defaults(&program);
    assert_eq!(json_fmt::format(&opts, &String::from("\"abc")), Err(FormatError::UnterminatedString));
    assert_eq!(json_fmt::format(&opts, &String::from("\"ab\\")), Err(FormatError::UnterminatedString));
}

#[test]
fn test_format_trailing_newline() {
    let program = String::from("tester");
    let opts = Opts::defaults(&program);
    assert_eq!(json_fmt::format(&opts, &String::from("1  \n\n\t")).unwrap(), String::from("1\n"));
    assert_eq!(json_fmt::format(&opts, &String::from("1")).unwrap(), String::from("1\n"));
}

#[test]
fn test_format_empty_input() {
    let program = String::from("tester");
    let opts = Opts::defaults(&program);
    assert_eq!(json_fmt::format(&opts, &String::from("")).unwrap(), String::from("\n"));
    assert_eq!(json_fmt::format(&opts, &String::from("  \n")).unwrap(), String::from("\n"));
}

#[test]
fn test_format_colon_and_comma_layout() {
    let program = String::from("tester");
    let opts = Opts::defaults(&program);
    assert_eq!(json_fmt::format(&opts, &String::from("a:b,c")).unwrap(), String::from("a: b,\nc\n"));
}

#[test]
fn test_format_empty_structure() {
    let program = String::from("tester");
    let opts = Opts::defaults(&program);
    assert_eq!(json_fmt::format(&opts, &String::from("{}")).unwrap(), String::from("{\n}\n"));
}

#[test]
fn test_format_indent_zero() {
    let program = String::from("tester");
    let mut opts = Opts::defaults(&program);
    opts.indent = 0;
    assert_eq!(json_fmt::format(&opts, &String::from("{a}")).unwrap(), String::from("{\na\n}\n"));
}

#[test]
fn test_format_multibyte_content() {
    let program = String::from("tester");
    let opts = Opts::defaults(&program);
    let input = String::from("{\"gr\u{00fc}n\": \"\u{2603}\"}");
    let output = json_fmt::format(&opts, &input).unwrap();
    let good = String::from("{\n    \"gr\u{00fc}n\": \"\u{2603}\"\n}\n");
    assert_eq!(output, good);
}

#[test]
fn test_max_nesting() {
    assert_eq!(json_fmt::max_nesting(&String::from("{\"a\": [1, [2]]}")), Some(3));
    assert_eq!(json_fmt::max_nesting(&String::from("plain")), Some(0));
    assert_eq!(json_fmt::max_nesting(&String::from("[], [[]]")), Some(2));
    assert_eq!(json_fmt::max_nesting(&String::from("}")), None);
    assert_eq!(json_fmt::max_nesting(&String::from("\"[[[\"")), Some(0));
}

#[test]
fn test_defaults_fields() {
    let program = String::from("/usr/local/bin/prog.bin");
    let opts = Opts::defaults(&program);
    assert_eq!(opts.program, program);
    assert_eq!(opts.program_base, String::from("prog"));
    assert_eq!(opts.depth, 32);
    assert_eq!(opts.indent, 4);
    assert!(opts.input.is_none());
    assert!(opts.output.is_none());
    assert_eq!(opts.verbose, 0);
}

#[test]
fn test_defaults_stem_shapes() {
    assert_eq!(Opts::defaults(&String::from("prog")).program_base, String::from("prog"));
    assert_eq!(Opts::defaults(&String::from("/a/b/c.json")).program_base, String::from("c"));
    assert_eq!(Opts::defaults(&String::from(".bashrc")).program_base, String::from(".bashrc"));
    assert_eq!(Opts::defaults(&String::from("a.b.c")).program_base, String::from("a.b"));
    assert_eq!(Opts::defaults(&String::from("dir/")).program_base, String::from(""));
}
