//! Files that a program takes in, and the name of the output file.

use fox32asm::ast::AstNode;
use fox32asm::includes::{
    find_include, include_text_file, included_binary, lines_of, IncludeError, TextInclude,
    INCLUDE_PASSES,
};
use fox32asm::output::is_fxf_name;

#[test]
fn lines_end_with_line_feeds() {
    assert_eq!(lines_of(""), Vec::<String>::new());
    assert_eq!(lines_of("a"), vec!["a"]);
    assert_eq!(lines_of("a\n"), vec!["a"]);
    assert_eq!(lines_of("\n\na\r\n\rb\r\r\nc\r"), vec!["", "", "a", "\rb\r", "c\r"]);
}

#[test]
fn lines_are_those_of_the_standard_library() {
    for text in ["", "\n", "a\nb", "a\r\nb\r\n", "\r\n\r", "x\n\n\ny\n"] {
        let expected: Vec<String> = text.lines().map(|line| line.to_string()).collect();
        assert_eq!(lines_of(text), expected);
    }
}

#[test]
fn the_first_line_that_takes_in_text() {
    let source = "nop\n  #include \"a/b.asm\"  \n#include \"c.asm\"\n";
    assert_eq!(
        find_include(source),
        Ok(Some(TextInclude { line_number: 1, path: "a/b.asm".to_string() }))
    );
    assert_eq!(find_include("nop ; #include \"x\""), Ok(None));
    assert_eq!(find_include("#include_bin \"x\""), Ok(None));
    assert_eq!(find_include("#include  \"x\""), Ok(None));
}

#[test]
fn the_path_goes_up_to_the_last_character() {
    assert_eq!(
        find_include("#include \"a\" b"),
        Ok(Some(TextInclude { line_number: 0, path: "a\" ".to_string() }))
    );
    assert_eq!(
        find_include("#include \"\""),
        Ok(Some(TextInclude { line_number: 0, path: String::new() }))
    );
    assert_eq!(find_include("\n#include \""), Err(IncludeError::NoPath(1)));
    assert_eq!(find_include("#include \"a\u{e9}"), Err(IncludeError::NoPath(0)));
}

#[test]
fn a_file_takes_the_place_of_a_line() {
    assert_eq!(
        include_text_file(1, "x\ny", "a\r\n#include \"f\"\nb"),
        "a\nx\ny\nb\n"
    );
    assert_eq!(include_text_file(0, "", "only"), "\n");
    assert_eq!(include_text_file(5, "x", "a\nb"), "a\nb\nx\n");
    let spliced = include_text_file(1, "x\ny", "a\nb\nc");
    assert_eq!(lines_of(&spliced), vec!["a", "x", "y", "c"]);
}

#[test]
fn files_are_taken_in_until_none_is_left() {
    let mut source = "#include \"one\"\nend".to_string();
    let mut passes = 0;
    while let Some(found) = find_include(&source).unwrap() {
        assert!(passes < INCLUDE_PASSES);
        let text = if found.path == "one" { "first\n#include \"two\"" } else { "second" };
        source = include_text_file(found.line_number, text, &source);
        passes += 1;
    }
    assert_eq!(passes, 2);
    assert_eq!(source, "first\nsecond\nend\n");
}

#[test]
fn binary_files_may_be_optional() {
    assert_eq!(
        included_binary(Some(vec![1, 2]), false),
        Ok(AstNode::IncludedBinary(vec![1, 2]))
    );
    assert_eq!(included_binary(None, true), Ok(AstNode::IncludedBinary(vec![])));
    assert_eq!(included_binary(None, false), Err(IncludeError::Unreadable));
}

#[test]
fn names_of_fxf_files() {
    assert!(is_fxf_name("a.fxf"));
    assert!(is_fxf_name(".fxf"));
    assert!(!is_fxf_name("fxf"));
    assert!(!is_fxf_name("a.FXF"));
    assert!(!is_fxf_name("a.fxf.bin"));
}
