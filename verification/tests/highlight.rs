use mdslides::colors::{Rgb, Theme};
use mdslides::highlight::{
    get_language_config, merge_line, parse_syntax, tokens_from_captures, tokens_of_found, Capture,
    Grammar, HighlightError, Segment, SyntaxKind, SyntaxToken,
};

fn capture(name: &str, start: usize, end: usize) -> Capture {
    Capture(name.as_bytes().to_vec(), start..end)
}

fn token(kind: SyntaxKind, start: usize, end: usize) -> SyntaxToken {
    SyntaxToken { kind, start, end }
}

fn plain(text: &str) -> Segment {
    Segment { kind: None, text: text.as_bytes().to_vec() }
}

fn colored(kind: SyntaxKind, text: &str) -> Segment {
    Segment { kind: Some(kind), text: text.as_bytes().to_vec() }
}

fn joined(segments: &[Segment]) -> Vec<u8> {
    let mut out = Vec::new();
    for segment in segments {
        out.extend_from_slice(&segment.text);
    }
    out
}

#[test]
fn capture_names_have_their_kinds() {
    let table = [
        ("keyword", SyntaxKind::Keyword),
        ("constant", SyntaxKind::Constant),
        ("keyword.conditional", SyntaxKind::Conditional),
        ("keyword.repeat", SyntaxKind::Repeat),
        ("punctuation.bracket", SyntaxKind::Bracket),
        ("punctuation.delimiter", SyntaxKind::Delimiter),
        ("function", SyntaxKind::Function),
        ("type", SyntaxKind::Type),
        ("string", SyntaxKind::String),
        ("number", SyntaxKind::Number),
        ("comment", SyntaxKind::Comment),
        ("variable", SyntaxKind::Variable),
        ("variable.parameter", SyntaxKind::Parameter),
        ("operator", SyntaxKind::Operator),
    ];
    for (name, kind) in table {
        assert_eq!(SyntaxKind::from_capture(name.as_bytes()), kind);
    }
}

#[test]
fn other_capture_names_are_default() {
    for name in ["", "Keyword", "keyword ", "function.method", "type.builtin", "label", "spell"] {
        assert_eq!(SyntaxKind::from_capture(name.as_bytes()), SyntaxKind::Default);
    }
}

#[test]
fn kinds_with_a_role_follow_the_theme() {
    let latte = Theme::CatppuccinLatte;
    let dark = Theme::OneDark;
    assert_eq!(SyntaxKind::Keyword.color(&latte), Rgb { r: 0x17, g: 0x92, b: 0x99 });
    assert_eq!(SyntaxKind::Keyword.color(&dark), Rgb { r: 0x56, g: 0xb6, b: 0xc2 });
    assert_eq!(SyntaxKind::Function.color(&latte), Rgb { r: 0x04, g: 0xa5, b: 0xe5 });
    assert_eq!(SyntaxKind::Function.color(&dark), Rgb { r: 0x61, g: 0xaf, b: 0xef });
    assert_eq!(SyntaxKind::Type.color(&latte), Rgb { r: 0x40, g: 0xa0, b: 0x2b });
    assert_eq!(SyntaxKind::Variable.color(&dark), Rgb { r: 0x98, g: 0xc3, b: 0x79 });
}

#[test]
fn kinds_without_a_role_have_fixed_colors() {
    let table = [
        (SyntaxKind::Conditional, Rgb { r: 247, g: 118, b: 142 }),
        (SyntaxKind::Constant, Rgb { r: 217, g: 118, b: 142 }),
        (SyntaxKind::Repeat, Rgb { r: 117, g: 118, b: 142 }),
        (SyntaxKind::Delimiter, Rgb { r: 155, g: 118, b: 142 }),
        (SyntaxKind::Bracket, Rgb { r: 247, g: 158, b: 142 }),
        (SyntaxKind::String, Rgb { r: 158, g: 206, b: 106 }),
        (SyntaxKind::Number, Rgb { r: 247, g: 118, b: 142 }),
        (SyntaxKind::Comment, Rgb { r: 150, g: 150, b: 150 }),
        (SyntaxKind::Parameter, Rgb { r: 224, g: 175, b: 104 }),
        (SyntaxKind::Operator, Rgb { r: 187, g: 154, b: 247 }),
        (SyntaxKind::Default, Rgb { r: 255, g: 255, b: 255 }),
    ];
    for theme in [Theme::CatppuccinLatte, Theme::CatppuccinMocha, Theme::OneDark] {
        for (kind, color) in table {
            assert_eq!(kind.color(&theme), color);
        }
    }
}

#[test]
fn tokens_are_sorted_by_start_and_equal_starts_keep_their_order() {
    let captures = vec![
        capture("string", 9, 12),
        capture("keyword", 0, 2),
        capture("type", 4, 8),
        capture("function", 4, 6),
        capture("comment", 0, 20),
        capture("unknown", 4, 5),
    ];
    assert_eq!(
        tokens_from_captures(&captures),
        vec![
            token(SyntaxKind::Keyword, 0, 2),
            token(SyntaxKind::Comment, 0, 20),
            token(SyntaxKind::Type, 4, 8),
            token(SyntaxKind::Function, 4, 6),
            token(SyntaxKind::Default, 4, 5),
            token(SyntaxKind::String, 9, 12),
        ]
    );
    assert_eq!(tokens_from_captures(&Vec::new()), Vec::new());
}

#[test]
fn line_without_tokens_is_one_plain_segment() {
    assert_eq!(merge_line("let x = 1;".as_bytes(), 0, &[]), vec![plain("let x = 1;")]);
    assert_eq!(merge_line("let x = 1;".as_bytes(), 40, &[]), vec![plain("let x = 1;")]);
    assert_eq!(merge_line("".as_bytes(), 0, &[]), Vec::new());
}

#[test]
fn tokens_split_the_line_into_segments() {
    let tokens = [token(SyntaxKind::Keyword, 0, 3), token(SyntaxKind::Number, 8, 9)];
    assert_eq!(
        merge_line("let x = 1;".as_bytes(), 0, &tokens),
        vec![
            colored(SyntaxKind::Keyword, "let"),
            plain(" x = "),
            colored(SyntaxKind::Number, "1"),
            plain(";"),
        ]
    );
}

#[test]
fn token_offsets_count_from_the_start_of_the_content() {
    let tokens = [
        token(SyntaxKind::Keyword, 0, 2),
        token(SyntaxKind::Keyword, 10, 13),
        token(SyntaxKind::Number, 18, 19),
        token(SyntaxKind::Comment, 30, 35),
    ];
    assert_eq!(
        merge_line("let x = 1;".as_bytes(), 10, &tokens),
        vec![
            colored(SyntaxKind::Keyword, "let"),
            plain(" x = "),
            colored(SyntaxKind::Number, "1"),
            plain(";"),
        ]
    );
}

#[test]
fn overlapping_tokens_lose_no_byte() {
    let tokens = [token(SyntaxKind::Function, 0, 5), token(SyntaxKind::Type, 3, 8)];
    let segments = merge_line("abcdefghij".as_bytes(), 0, &tokens);
    assert_eq!(
        segments,
        vec![colored(SyntaxKind::Function, "abcde"), colored(SyntaxKind::Type, "fgh"), plain("ij")]
    );
    assert_eq!(joined(&segments), "abcdefghij".as_bytes());
}

#[test]
fn nested_tokens_give_way_to_the_one_that_starts_first() {
    let tokens = [
        token(SyntaxKind::String, 2, 9),
        token(SyntaxKind::Number, 4, 6),
        token(SyntaxKind::Keyword, 9, 10),
    ];
    assert_eq!(
        merge_line("0123456789".as_bytes(), 0, &tokens),
        vec![plain("01"), colored(SyntaxKind::String, "2345678"), colored(SyntaxKind::Keyword, "9")]
    );
}

#[test]
fn tokens_of_equal_start_are_decided_by_their_order() {
    let tokens = [token(SyntaxKind::Type, 1, 3), token(SyntaxKind::Function, 1, 5)];
    assert_eq!(
        merge_line("abcdef".as_bytes(), 0, &tokens),
        vec![plain("a"), colored(SyntaxKind::Type, "bc"), colored(SyntaxKind::Function, "de"), plain("f")]
    );
}

#[test]
fn empty_and_distant_tokens_change_nothing() {
    let tokens = [
        token(SyntaxKind::Keyword, 2, 2),
        token(SyntaxKind::Keyword, 4, 1),
        token(SyntaxKind::Comment, 6, 9),
        token(SyntaxKind::Comment, 100, 200),
        token(SyntaxKind::Number, 3, 4),
    ];
    assert_eq!(
        merge_line("abcdef".as_bytes(), 0, &tokens),
        vec![plain("abc"), colored(SyntaxKind::Number, "d"), plain("ef")]
    );
}

#[test]
fn token_that_runs_past_the_line_is_cut_at_its_end() {
    let tokens = [token(SyntaxKind::Comment, 3, 50)];
    assert_eq!(
        merge_line("ab // c".as_bytes(), 0, &tokens),
        vec![plain("ab "), colored(SyntaxKind::Comment, "// c")]
    );
}

#[test]
fn token_that_starts_on_an_earlier_line_colors_what_it_covers() {
    let tokens = [token(SyntaxKind::Comment, 0, 50)];
    assert_eq!(
        merge_line("still".as_bytes(), 10, &tokens),
        vec![colored(SyntaxKind::Comment, "still")]
    );
    let tokens = [token(SyntaxKind::Comment, 0, 9), token(SyntaxKind::Number, 10, 11)];
    assert_eq!(
        merge_line("b */ 1".as_bytes(), 5, &tokens),
        vec![colored(SyntaxKind::Comment, "b */"), plain(" "), colored(SyntaxKind::Number, "1")]
    );
}

#[test]
fn token_that_ends_where_the_line_starts_colors_nothing() {
    let tokens = [token(SyntaxKind::Comment, 0, 10), token(SyntaxKind::Keyword, 15, 20)];
    assert_eq!(merge_line("still".as_bytes(), 10, &tokens), vec![plain("still")]);
}

#[test]
fn merged_segments_always_give_the_line_back() {
    let line = "fn main() { println!(\"h\u{e9}llo\"); }";
    let tokens = [
        token(SyntaxKind::Keyword, 0, 2),
        token(SyntaxKind::Function, 3, 7),
        token(SyntaxKind::Bracket, 7, 8),
        token(SyntaxKind::Function, 3, 9),
        token(SyntaxKind::String, 21, 29),
        token(SyntaxKind::Default, 5, 5),
        token(SyntaxKind::Operator, 28, 400),
        token(SyntaxKind::Comment, 12, 3),
    ];
    for start in [0usize, 1, 7] {
        let shifted: Vec<SyntaxToken> =
            tokens.iter().map(|t| token(t.kind, t.start + start, t.end + start)).collect();
        let segments = merge_line(line.as_bytes(), start, &shifted);
        assert_eq!(joined(&segments), line.as_bytes());
        assert!(segments.iter().all(|segment| !segment.text.is_empty()));
    }
}

#[test]
fn three_languages_are_highlighted() {
    assert_eq!(get_language_config("rust".as_bytes()), Some(Grammar::Rust));
    assert_eq!(get_language_config("java".as_bytes()), Some(Grammar::Java));
    assert_eq!(get_language_config("python".as_bytes()), Some(Grammar::Python));
    assert_eq!(get_language_config("".as_bytes()), None);
    assert_eq!(get_language_config("Rust".as_bytes()), None);
    assert_eq!(get_language_config("rust ".as_bytes()), None);
    assert_eq!(get_language_config("c".as_bytes()), None);
}

#[test]
fn unsupported_language_has_no_tokens() {
    assert_eq!(parse_syntax("int main() {}".as_bytes(), "c".as_bytes()), Ok(Vec::new()));
    assert_eq!(parse_syntax("fn main() {}".as_bytes(), "".as_bytes()), Ok(Vec::new()));
}

#[test]
fn rust_code_has_sorted_tokens() {
    let code = "fn main() {\n    let x = \"hi\"; // done\n}";
    let tokens = parse_syntax(code.as_bytes(), "rust".as_bytes()).unwrap();
    assert!(tokens.windows(2).all(|pair| pair[0].start <= pair[1].start));
    assert!(tokens.iter().all(|t| t.start <= t.end && t.end <= code.len()));
    assert!(tokens.contains(&token(SyntaxKind::Keyword, 0, 2)));
    assert!(tokens.contains(&token(SyntaxKind::Function, 3, 7)));
    assert!(tokens.contains(&token(SyntaxKind::Bracket, 7, 8)));
    assert!(tokens.contains(&token(SyntaxKind::Keyword, 16, 19)));
    assert!(tokens.contains(&token(SyntaxKind::String, 24, 28)));
    assert!(tokens.contains(&token(SyntaxKind::Delimiter, 28, 29)));
    assert!(tokens.contains(&token(SyntaxKind::Comment, 30, 37)));
}

#[test]
fn python_code_has_tokens() {
    let code = "def f(x):\n    return 42\n";
    let tokens = parse_syntax(code.as_bytes(), "python".as_bytes()).unwrap();
    assert!(tokens.windows(2).all(|pair| pair[0].start <= pair[1].start));
    assert!(tokens.contains(&token(SyntaxKind::Keyword, 0, 3)));
    assert!(tokens.contains(&token(SyntaxKind::Function, 4, 5)));
    assert!(tokens.contains(&token(SyntaxKind::Number, 21, 23)));
}

#[test]
fn java_code_has_tokens() {
    let code = "class A { int x = 1; }";
    let tokens = parse_syntax(code.as_bytes(), "java".as_bytes()).unwrap();
    assert!(tokens.windows(2).all(|pair| pair[0].start <= pair[1].start));
    assert!(tokens.contains(&token(SyntaxKind::Keyword, 0, 5)));
    assert!(tokens.contains(&token(SyntaxKind::Type, 6, 7)));
    assert!(tokens.contains(&token(SyntaxKind::Number, 18, 19)));
}

#[test]
fn empty_code_has_no_tokens() {
    assert_eq!(parse_syntax("".as_bytes(), "rust".as_bytes()), Ok(Vec::new()));
}

#[test]
fn each_language_is_read_by_its_own_grammar() {
    let code = "def f(x):\n    return 42\n";
    let python = parse_syntax(code.as_bytes(), "python".as_bytes()).unwrap();
    let rust = parse_syntax(code.as_bytes(), "rust".as_bytes()).unwrap();
    let java = parse_syntax(code.as_bytes(), "java".as_bytes()).unwrap();
    assert!(python.contains(&token(SyntaxKind::Keyword, 0, 3)));
    assert!(!rust.contains(&token(SyntaxKind::Keyword, 0, 3)));
    assert!(!java.contains(&token(SyntaxKind::Keyword, 0, 3)));
    let code = "fn main() {}";
    let rust = parse_syntax(code.as_bytes(), "rust".as_bytes()).unwrap();
    let python = parse_syntax(code.as_bytes(), "python".as_bytes()).unwrap();
    assert!(rust.contains(&token(SyntaxKind::Keyword, 0, 2)));
    assert!(!python.contains(&token(SyntaxKind::Keyword, 0, 2)));
}

#[test]
fn same_code_gives_the_same_tokens() {
    let code = "fn main() { let x = 1; }";
    let first = parse_syntax(code.as_bytes(), "rust".as_bytes());
    let second = parse_syntax(code.as_bytes(), "rust".as_bytes());
    assert_eq!(first, second);
    assert!(!first.unwrap().is_empty());
}

#[test]
fn tokens_follow_from_what_was_found() {
    let found = Ok(Some(vec![capture("string", 9, 12), capture("keyword", 0, 2)]));
    assert_eq!(
        tokens_of_found(found),
        Ok(vec![token(SyntaxKind::Keyword, 0, 2), token(SyntaxKind::String, 9, 12)])
    );
    assert_eq!(tokens_of_found(Ok(Some(Vec::new()))), Ok(Vec::new()));
    assert_eq!(tokens_of_found(Ok(None)), Ok(Vec::new()));
}

#[test]
fn errors_follow_from_what_was_found() {
    assert_eq!(tokens_of_found(Err(None)), Err(HighlightError::Grammar));
    assert_eq!(
        tokens_of_found(Err(Some(String::from("bad query")))),
        Err(HighlightError::QuerySetup(String::from("bad query")))
    );
}
