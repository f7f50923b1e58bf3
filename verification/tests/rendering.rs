use mdslides::classify::{classify_slide, CodeBlock, Header, LineKind, SlideItem};
use mdslides::colors::{Rgb, Theme};
use mdslides::document::{parse_metadata, split_into_slides, Metadata};
use mdslides::highlight::{SyntaxKind, SyntaxToken};
use mdslides::presentation::{command_for_key, Action, Presentation};
use mdslides::rendering::{
    highlight_items, layout_slide, render_code_block, render_footer, render_item, render_slide,
    render_theme_notification,
};
use mdslides::terminal::{Paint, TermOp};

const TEAL: Rgb = Rgb { r: 0x17, g: 0x92, b: 0x99 };
const SKY: Rgb = Rgb { r: 0x04, g: 0xa5, b: 0xe5 };
const GREEN: Rgb = Rgb { r: 0x40, g: 0xa0, b: 0x2b };
const BRACKET: Rgb = Rgb { r: 247, g: 158, b: 142 };

fn write(text: &str) -> TermOp {
    TermOp::Write(text.as_bytes().to_vec())
}

fn centered(text: &str, row: u16, pad: usize, color: Rgb) -> Vec<TermOp> {
    vec![
        TermOp::Goto(1, row),
        TermOp::Bold,
        TermOp::Fg(Paint::Color(color)),
        write(&" ".repeat(pad)),
        write(text),
        TermOp::Fg(Paint::Default),
        TermOp::ResetStyle,
        TermOp::Goto(1, row + 1),
    ]
}

fn text_line(text: &str, row: u16, paint: Paint) -> Vec<TermOp> {
    vec![
        TermOp::Bold,
        TermOp::Goto(1, row),
        TermOp::Fg(paint),
        write(text),
        TermOp::Fg(Paint::Default),
        TermOp::ResetStyle,
    ]
}

fn bar(filled: usize, blank: usize, height: u16, color: Rgb) -> Vec<TermOp> {
    vec![
        TermOp::Goto(1, height),
        TermOp::Fg(Paint::Color(color)),
        TermOp::Write([0xeeu8, 0xab, 0x8c].repeat(filled)),
        TermOp::Fg(Paint::Default),
        write(&" ".repeat(blank)),
        TermOp::Goto(1, height + 1),
    ]
}

fn label(language: &str, row: u16, color: Rgb) -> Vec<TermOp> {
    vec![
        TermOp::Goto(4, row),
        TermOp::Bold,
        TermOp::Fg(Paint::Color(color)),
        write(language),
        TermOp::Fg(Paint::Default),
        TermOp::ResetStyle,
    ]
}

fn colored(text: &str, color: Rgb) -> Vec<TermOp> {
    vec![TermOp::Fg(Paint::Color(color)), write(text), TermOp::Fg(Paint::Default)]
}

fn presentation(title: Option<&str>, subtitle: Option<&str>, slides: &[&str]) -> Presentation {
    let metadata = Metadata {
        author: None,
        title: title.map(|t| t.as_bytes().to_vec()),
        subtitle: subtitle.map(|t| t.as_bytes().to_vec()),
    };
    let slides = slides.iter().map(|s| s.as_bytes().to_vec()).collect();
    Presentation::new(metadata, slides, String::from("deck.md"))
}

fn written(ops: &[TermOp]) -> Vec<u8> {
    let mut out = Vec::new();
    for op in ops {
        if let TermOp::Write(bytes) = op {
            out.extend_from_slice(bytes);
        }
    }
    out
}

#[test]
fn slide_of_text_is_laid_out_at_fixed_rows() {
    let p = presentation(Some("Demo"), None, &["# Hi\ntext"]);
    let mut expected = vec![TermOp::Clear, TermOp::Goto(1, 1)];
    expected.extend(centered("Demo", 1, 8, TEAL));
    expected.extend(centered("No subtitle found", 2, 1, TEAL));
    expected.extend(text_line("Hi", 4, Paint::Color(TEAL)));
    expected.extend(text_line("text", 5, Paint::Default));
    expected.extend(centered("1/1 slides", 9, 5, GREEN));
    expected.extend(bar(20, 0, 10, GREEN));
    assert_eq!(render_slide(&p, 20, 10), Ok(expected));
}

#[test]
fn placeholders_stand_for_missing_title_and_subtitle() {
    let p = presentation(None, Some("Sub"), &[""]);
    let mut expected = vec![TermOp::Clear, TermOp::Goto(1, 1)];
    expected.extend(centered("No title found", 1, 3, TEAL));
    expected.extend(centered("Sub", 2, 8, TEAL));
    expected.extend(centered("1/1 slides", 9, 5, GREEN));
    expected.extend(bar(20, 0, 10, GREEN));
    assert_eq!(render_slide(&p, 20, 10), Ok(expected));
}

#[test]
fn title_wider_than_the_terminal_has_no_padding() {
    let p = presentation(Some("A very long title"), Some("S"), &["x"]);
    let ops = render_slide(&p, 5, 10).unwrap();
    assert_eq!(ops[2..10], centered("A very long title", 1, 0, TEAL)[..]);
    assert_eq!(ops[10..18], centered("S", 2, 2, TEAL)[..]);
}

#[test]
fn headings_have_the_color_of_their_level() {
    let p = presentation(None, None, &["# a\n## b\n### c\n#### d\n##### e"]);
    let ops = render_slide(&p, 40, 20).unwrap();
    let mut expected = Vec::new();
    expected.extend(text_line("a", 4, Paint::Color(TEAL)));
    expected.extend(text_line("b", 5, Paint::Color(SKY)));
    expected.extend(text_line("c", 6, Paint::Color(GREEN)));
    expected.extend(text_line("d", 7, Paint::Color(GREEN)));
    expected.extend(text_line("##### e", 8, Paint::Default));
    assert_eq!(ops[18..48], expected[..]);
}

#[test]
fn footer_counts_slides_from_one() {
    let mut expected = centered("3/12 slides", 23, 34, GREEN);
    expected.extend(bar(20, 60, 24, GREEN));
    assert_eq!(render_footer(2, 12, &Theme::CatppuccinLatte, 80, 24), expected);
}

#[test]
fn footer_in_a_terminal_without_rows() {
    let mut expected = centered("1/1 slides", 1, 0, GREEN);
    expected.extend(vec![
        TermOp::Goto(1, 1),
        TermOp::Fg(Paint::Color(GREEN)),
        write(""),
        TermOp::Fg(Paint::Default),
        write(""),
        TermOp::Goto(1, 1),
    ]);
    assert_eq!(render_footer(0, 1, &Theme::CatppuccinLatte, 0, 0), expected);
}

#[test]
fn footer_of_odd_counts_does_not_fault() {
    let ops = render_footer(usize::MAX, 0, &Theme::CatppuccinLatte, 80, 24);
    let text = format!("{}/0 slides", usize::MAX as u128 + 1);
    let pad = (80 - text.len()) / 2;
    assert_eq!(ops[..8], centered(&text, 23, pad, GREEN)[..]);
    assert_eq!(ops[8..], bar(80, 0, 24, GREEN)[..]);
}

#[test]
fn theme_notification_names_the_theme_in_its_text_color() {
    let mut p = presentation(None, None, &["x"]);
    p.apply(command_for_key('t'));
    assert_eq!(
        render_theme_notification(&p, 80),
        vec![
            TermOp::Goto(64, 1),
            TermOp::Fg(Paint::Color(Rgb { r: 0xcd, g: 0xd6, b: 0xf4 })),
            write("Catppuccin Mocha"),
            TermOp::Fg(Paint::Default),
            TermOp::HideCursor,
        ]
    );
    assert_eq!(render_theme_notification(&p, 10)[0], TermOp::Goto(1, 1));
}

#[test]
fn image_is_handed_over_with_its_path() {
    let item = SlideItem { line: 3, kind: LineKind::Image("img/cat.png".as_bytes().to_vec()) };
    assert_eq!(
        render_item(&item, &[], &Theme::OneDark),
        vec![TermOp::Image("img/cat.png".as_bytes().to_vec())]
    );
}

#[test]
fn rows_stop_at_the_last_position() {
    let item = SlideItem { line: 70000, kind: LineKind::Plain("far".as_bytes().to_vec()) };
    assert_eq!(render_item(&item, &[], &Theme::OneDark), text_line("far", 65535, Paint::Default));
    let item = SlideItem { line: 65531, kind: LineKind::Plain("edge".as_bytes().to_vec()) };
    assert_eq!(render_item(&item, &[], &Theme::OneDark), text_line("edge", 65535, Paint::Default));
    let item = SlideItem {
        line: usize::MAX,
        kind: LineKind::Heading(Header::Header2, "h".as_bytes().to_vec()),
    };
    assert_eq!(
        render_item(&item, &[], &Theme::CatppuccinLatte),
        text_line("h", 65535, Paint::Color(SKY))
    );
}

#[test]
fn code_block_without_tokens_is_written_plainly() {
    let block = CodeBlock {
        language: "text".as_bytes().to_vec(),
        content: "first\n\nthird".as_bytes().to_vec(),
    };
    let mut expected = label("text", 7, TEAL);
    expected.extend(vec![
        TermOp::Goto(4, 8),
        write("first"),
        TermOp::Goto(4, 9),
        TermOp::Goto(4, 10),
        write("third"),
    ]);
    assert_eq!(render_code_block(&block, &[], 7, &Theme::CatppuccinLatte), expected);
}

#[test]
fn code_block_tokens_color_their_lines() {
    let block = CodeBlock {
        language: "rust".as_bytes().to_vec(),
        content: "fn f() {\n}".as_bytes().to_vec(),
    };
    let tokens = [
        SyntaxToken { kind: SyntaxKind::Keyword, start: 0, end: 2 },
        SyntaxToken { kind: SyntaxKind::Function, start: 3, end: 4 },
        SyntaxToken { kind: SyntaxKind::Bracket, start: 7, end: 8 },
        SyntaxToken { kind: SyntaxKind::Bracket, start: 9, end: 10 },
    ];
    let mut expected = label("rust", 4, TEAL);
    expected.push(TermOp::Goto(4, 5));
    expected.extend(colored("fn", TEAL));
    expected.push(write(" "));
    expected.extend(colored("f", SKY));
    expected.push(write("() "));
    expected.extend(colored("{", BRACKET));
    expected.push(TermOp::Goto(4, 6));
    expected.extend(colored("}", BRACKET));
    assert_eq!(render_code_block(&block, &tokens, 4, &Theme::CatppuccinLatte), expected);
}

#[test]
fn code_block_token_over_two_lines_colors_both() {
    let block = CodeBlock {
        language: "rust".as_bytes().to_vec(),
        content: "/* a\nb */ x".as_bytes().to_vec(),
    };
    let tokens = [SyntaxToken { kind: SyntaxKind::Comment, start: 0, end: 9 }];
    let gray = Rgb { r: 150, g: 150, b: 150 };
    let mut expected = label("rust", 4, TEAL);
    expected.push(TermOp::Goto(4, 5));
    expected.extend(colored("/* a", gray));
    expected.push(TermOp::Goto(4, 6));
    expected.extend(colored("b */", gray));
    expected.push(write(" x"));
    assert_eq!(render_code_block(&block, &tokens, 4, &Theme::CatppuccinLatte), expected);
}

#[test]
fn code_block_offsets_skip_carriage_returns() {
    let block = CodeBlock { language: Vec::new(), content: "a\r\nbc".as_bytes().to_vec() };
    let tokens = [
        SyntaxToken { kind: SyntaxKind::Keyword, start: 0, end: 2 },
        SyntaxToken { kind: SyntaxKind::Number, start: 4, end: 5 },
    ];
    let mut expected = label("", 4, TEAL);
    expected.push(TermOp::Goto(4, 5));
    expected.extend(colored("a", TEAL));
    expected.push(TermOp::Goto(4, 6));
    expected.push(write("b"));
    expected.extend(colored("c", Rgb { r: 247, g: 118, b: 142 }));
    assert_eq!(render_code_block(&block, &tokens, 4, &Theme::CatppuccinLatte), expected);
}

#[test]
fn layout_takes_the_tokens_of_each_item() {
    let p = presentation(Some("T"), Some("S"), &["intro\n```rust\nlet a;\n```\nend"]);
    let highlights = vec![
        vec![SyntaxToken { kind: SyntaxKind::Keyword, start: 0, end: 5 }],
        vec![SyntaxToken { kind: SyntaxKind::Keyword, start: 0, end: 3 }],
    ];
    let ops = layout_slide(&p, &highlights, 30, 12);
    let mut expected = vec![TermOp::Clear, TermOp::Goto(1, 1)];
    expected.extend(centered("T", 1, 14, TEAL));
    expected.extend(centered("S", 2, 14, TEAL));
    expected.extend(text_line("intro", 4, Paint::Default));
    expected.extend(label("rust", 5, TEAL));
    expected.push(TermOp::Goto(4, 6));
    expected.extend(colored("let", TEAL));
    expected.push(write(" a;"));
    expected.extend(text_line("end", 8, Paint::Default));
    expected.extend(centered("1/1 slides", 11, 10, GREEN));
    expected.extend(bar(30, 0, 12, GREEN));
    assert_eq!(ops, expected);
}

#[test]
fn layout_without_highlights_colors_no_code() {
    let p = presentation(Some("T"), Some("S"), &["```rust\nlet a;\n```"]);
    let without = layout_slide(&p, &Vec::new(), 30, 12);
    let with_empty = layout_slide(&p, &vec![Vec::new()], 30, 12);
    assert_eq!(without, with_empty);
    assert_eq!(without[18..26], {
        let mut expected = label("rust", 4, TEAL);
        expected.push(TermOp::Goto(4, 5));
        expected.push(write("let a;"));
        expected
    }[..]);
}

#[test]
fn highlight_items_gives_a_list_for_each_item() {
    let items = classify_slide("text\n```rust\nfn f() {}\n```\n```c\nint x;\n```".as_bytes());
    let highlights = highlight_items(&items).unwrap();
    assert_eq!(highlights.len(), 3);
    assert!(highlights[0].is_empty());
    assert!(highlights[1].contains(&SyntaxToken { kind: SyntaxKind::Keyword, start: 0, end: 2 }));
    assert!(highlights[2].is_empty());
}

#[test]
fn rendered_code_keeps_every_byte_of_its_lines() {
    let code = "fn main() {\n    let s = \"h\u{e9}\"; // ok\n}";
    let slide = format!("```rust\n{}\n```", code);
    let p = presentation(Some("T"), Some("S"), &[&slide]);
    let ops = render_slide(&p, 60, 20).unwrap();
    let body = &ops[24..ops.len() - 14];
    assert_eq!(written(body), code.replace('\n', "").as_bytes());
    assert!(body.contains(&TermOp::Fg(Paint::Color(TEAL))));
}

#[test]
fn document_is_loaded_navigated_and_rendered() {
    let input = "---\ntitle: Demo\n---\nSlide1<!-- end_slide -->Slide2\n```rust\nfn main() {}\n```\n";
    let (metadata, body) = parse_metadata(input.as_bytes());
    assert_eq!(metadata.title, Some("Demo".as_bytes().to_vec()));
    let slides = split_into_slides(&body);
    assert_eq!(slides.len(), 2);
    let mut p = Presentation::new(metadata, slides, String::from("demo.md"));
    assert_eq!(p.current_slide(), "Slide1".as_bytes());
    assert_eq!(p.apply(command_for_key('l')), Action::Redraw);
    assert_eq!(p.current_slide_index(), 1);
    let ops = render_slide(&p, 40, 12).unwrap();
    let mut code_line = vec![TermOp::Goto(4, 6)];
    code_line.extend(colored("fn", TEAL));
    code_line.push(write(" "));
    code_line.extend(colored("main", SKY));
    code_line.extend(colored("(", BRACKET));
    code_line.extend(colored(")", BRACKET));
    code_line.push(write(" "));
    code_line.extend(colored("{", BRACKET));
    code_line.extend(colored("}", BRACKET));
    let mut expected = vec![TermOp::Clear, TermOp::Goto(1, 1)];
    expected.extend(centered("Demo", 1, 18, TEAL));
    expected.extend(centered("No subtitle found", 2, 11, TEAL));
    expected.extend(text_line("Slide2", 4, Paint::Default));
    expected.extend(label("rust", 5, TEAL));
    expected.extend(code_line);
    expected.extend(centered("2/2 slides", 11, 15, GREEN));
    expected.extend(bar(40, 0, 12, GREEN));
    assert_eq!(ops, expected);
    assert_eq!(p.apply(command_for_key('q')), Action::Quit);
    assert_eq!(p.current_slide_index(), 1);
}
