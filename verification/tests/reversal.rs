use sula_alus::encode;
use sula_alus::encode_content;
use sula_alus::encode_string;
use sula_alus::prints_to_stdout;
use sula_alus::process_content;
use sula_alus::reverse_lines;
use sula_alus::Cli;
use sula_alus::FileError;

#[test]
fn reversing_twice_gives_the_text_back() {
    let t = "a text without embedded newlines";
    assert_eq!(encode(&encode(t)), t);
    assert_eq!(encode(&encode("x")), "x");
    assert_eq!(encode(&encode("")), "");
}

#[test]
fn reversal_preserves_character_count() {
    for t in ["hello", "", "h\u{e9}llo w\u{f6}rld", "\u{3b1}\u{3b2}\u{3b3}", "a\nb\nc"] {
        assert_eq!(encode(t).chars().count(), t.chars().count());
    }
}

#[test]
fn line_by_line_preserves_line_count_and_order() {
    let input = "abc\ndef\nghi";
    let out = reverse_lines(input);
    let in_lines: Vec<&str> = input.split('\n').collect();
    let out_lines: Vec<&str> = out.split('\n').collect();
    assert_eq!(out_lines.len(), in_lines.len());
    for (a, b) in in_lines.iter().zip(out_lines.iter()) {
        assert_eq!(encode(a), *b);
    }
}

#[test]
fn literal_hello_prints_olleh() {
    assert_eq!(encode_string("hello"), "olleh");
    let cli = Cli {
        input: String::from("hello"),
        file: false,
        output: None,
        line_by_line: false,
    };
    assert_eq!(process_content(&cli, &cli.input.clone()), "olleh");
    assert!(prints_to_stdout(&cli));
}

#[test]
fn whole_file_content_is_reversed_as_one_unit() {
    assert_eq!(encode_content("abc\ndef", false), "fed\ncba");
    let cli = Cli {
        input: String::from("in.txt"),
        file: true,
        output: None,
        line_by_line: false,
    };
    assert_eq!(process_content(&cli, "abc\ndef"), "fed\ncba");
}

#[test]
fn file_content_is_reversed_line_by_line() {
    assert_eq!(encode_content("abc\ndef", true), "cba\nfed");
    let cli = Cli {
        input: String::from("in.txt"),
        file: true,
        output: None,
        line_by_line: true,
    };
    assert_eq!(process_content(&cli, "abc\ndef"), "cba\nfed");
}

#[test]
fn literal_input_honors_the_line_by_line_flag() {
    let per_line = Cli {
        input: String::from("ab\ncd"),
        file: false,
        output: None,
        line_by_line: true,
    };
    assert_eq!(process_content(&per_line, &per_line.input.clone()), "ba\ndc");
    let whole = Cli {
        input: String::from("ab\ncd"),
        file: false,
        output: None,
        line_by_line: false,
    };
    assert_eq!(process_content(&whole, &whole.input.clone()), "dc\nba");
}

#[test]
fn error_messages_are_nonempty_and_distinct() {
    let not_found = FileError::NotFound.message();
    let not_utf8 = FileError::NotUtf8.message();
    let write_failed = FileError::WriteFailed.message();
    assert!(!not_found.is_empty());
    assert!(!not_utf8.is_empty());
    assert!(!write_failed.is_empty());
    assert_ne!(not_found, not_utf8);
    assert_ne!(not_found, write_failed);
    assert_ne!(not_utf8, write_failed);
    assert_eq!(FileError::NotFound, FileError::NotFound);
    assert_ne!(FileError::NotFound, FileError::NotUtf8);
}

#[test]
fn output_path_routes_away_from_stdout() {
    let cli = Cli {
        input: String::from("hello"),
        file: false,
        output: Some(String::from("out.txt")),
        line_by_line: false,
    };
    assert!(!prints_to_stdout(&cli));
    assert_eq!(process_content(&cli, &cli.input.clone()), "olleh");
}

#[test]
fn multi_byte_characters_are_reversed_as_whole_characters() {
    assert_eq!(encode("\u{3b1}\u{3b2}\u{3b3}"), "\u{3b3}\u{3b2}\u{3b1}");
    assert_eq!(encode("h\u{e9}llo"), "oll\u{e9}h");
    assert_eq!(encode_content("\u{e9}a\n\u{3b1}b", true), "a\u{e9}\nb\u{3b1}");
    let round = encode(&encode("caf\u{e9} \u{1f600} \u{4f60}\u{597d}"));
    assert_eq!(round, "caf\u{e9} \u{1f600} \u{4f60}\u{597d}");
}

#[test]
fn empty_input_yields_empty_output() {
    assert_eq!(encode(""), "");
    assert_eq!(reverse_lines(""), "");
    assert_eq!(encode_content("", true), "");
    assert_eq!(encode_content("", false), "");
}

#[test]
fn trailing_newline_opens_no_extra_line() {
    assert_eq!(reverse_lines("abc\n"), "cba");
    assert_eq!(reverse_lines("\n"), "");
    assert_eq!(reverse_lines("abc\ndef\n"), "cba\nfed");
}

#[test]
fn empty_interior_lines_are_kept() {
    assert_eq!(reverse_lines("ab\n\ncd"), "ba\n\ndc");
    assert_eq!(reverse_lines("\nab"), "\nba");
}

#[test]
fn whole_reversal_places_the_newline_symmetrically() {
    assert_eq!(encode("ab\ncd"), "dc\nba");
    assert_eq!(encode("ab\n"), "\nba");
}
