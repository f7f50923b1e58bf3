//! The line classifier: what each line of a slide is, in the order of
//! priority image directive, code fence, heading, plain text.

use crate::colors::{Rgb, Role, Theme};
use crate::text::{
    append_bytes, count_leading, ends_with, find, find_bytes, has_prefix, has_suffix, is_space,
    is_space_byte, join_lines, leading_run, lemma_find_from, lemma_leading_run,
    lemma_leading_run_holds, lines, split_lines, starts_with, trim, trim_bytes, trim_start,
    trim_start_bytes, views, NEWLINE,
};
use vstd::prelude::*;
use vstd::slice::*;

verus! {

/// The hash that opens a heading.
pub const HASH: u8 = 0x23;

/// The backtick of a code fence.
pub const BACKTICK: u8 = 0x60;

/// The exclamation mark that opens an image directive.
pub const BANG: u8 = 0x21;

/// The bracket that opens the caption of an image directive.
pub const LEFT_BRACKET: u8 = 0x5b;

/// The bracket that closes the caption of an image directive.
pub const RIGHT_BRACKET: u8 = 0x5d;

/// The parenthesis that opens the path of an image directive.
pub const LEFT_PAREN: u8 = 0x28;

/// The parenthesis that closes the path of an image directive.
pub const RIGHT_PAREN: u8 = 0x29;

/// The level of a heading.
#[derive(Clone, Copy, Debug, PartialEq, Eq, Structural)]
pub enum Header {
    Header1,
    Header2,
    Header3,
    Header4,
}

impl Header {
    /// The role whose color a heading of this level has.
    pub open spec fn role(self) -> Role {
        match self {
            Header::Header1 => Role::Primary,
            Header::Header2 => Role::Secondary,
            Header::Header3 => Role::Tertiary,
            Header::Header4 => Role::Accent,
        }
    }

    /// The level that a run of `hashes` hashes stands for: one to four
    /// hashes are the levels one to four, and no other number is a level.
    pub open spec fn of_level(hashes: int) -> Option<Header> {
        if hashes == 1 {
            Some(Header::Header1)
        } else if hashes == 2 {
            Some(Header::Header2)
        } else if hashes == 3 {
            Some(Header::Header3)
        } else if hashes == 4 {
            Some(Header::Header4)
        } else {
            None
        }
    }

    /// The level that `prefix` stands for, where `prefix` is hashes and
    /// nothing else.
    pub open spec fn of_prefix(prefix: Seq<u8>) -> Option<Header> {
        if leading_run(prefix, HASH) == prefix.len() {
            Header::of_level(prefix.len() as int)
        } else {
            None
        }
    }

/// The color of a heading of this level in `theme`.
    pub fn color(&self, theme: &Theme) -> (color: Rgb)
        ensures
            color == theme.role_color(self.role()),
    {
        match self {
            Header::Header1 => theme.get_theme_colors().primary,
            Header::Header2 => theme.get_theme_colors().secondary,
            Header::Header3 => theme.get_theme_colors().tertiary,
            Header::Header4 => theme.get_theme_colors().accent,
        }
    }

/// The level that `prefix` stands for: one to four hashes and nothing
/// else.
    pub fn header_by_prefix(prefix: &[u8]) -> (header: Option<Header>)
        ensures
            header == Header::of_prefix(prefix@),
    {
        let hashes = count_leading(prefix, HASH);
        if hashes != prefix.len() {
            None
        } else if hashes == 1 {
            Some(Header::Header1)
        } else if hashes == 2 {
            Some(Header::Header2)
        } else if hashes == 3 {
            Some(Header::Header3)
        } else if hashes == 4 {
            Some(Header::Header4)
        } else {
            None
        }
    }
}

/// A fenced region of a slide: the language tag of its opening line, and
/// the lines between the fences, joined by line feeds.
#[derive(Debug, PartialEq, Eq)]
pub struct CodeBlock {
    pub language: Vec<u8>,
    pub content: Vec<u8>,
}

/// A code block as plain values.
pub struct CodeBlockView {
    pub language: Seq<u8>,
    pub content: Seq<u8>,
}

impl View for CodeBlock {
    type V = CodeBlockView;

    open spec fn view(&self) -> CodeBlockView {
        CodeBlockView { language: self.language@, content: self.content@ }
    }
}

/// What a line of a slide is.
#[derive(Debug, PartialEq, Eq)]
pub enum LineKind {
    /// An image directive, with the path as the slide writes it.
    Image(Vec<u8>),
    /// The opening fence of a code block, with the block.
    Code(CodeBlock),
    /// A heading, with its level and its text.
    Heading(Header, Vec<u8>),
    /// Anything else, with the line as it stands.
    Plain(Vec<u8>),
}

/// What a line is, as plain values.
pub enum LineKindView {
    Image(Seq<u8>),
    Code(CodeBlockView),
    Heading(Header, Seq<u8>),
    Plain(Seq<u8>),
}

impl View for LineKind {
    type V = LineKindView;

    open spec fn view(&self) -> LineKindView {
        match self {
            LineKind::Image(path) => LineKindView::Image(path@),
            LineKind::Code(block) => LineKindView::Code(block@),
            LineKind::Heading(header, text) => LineKindView::Heading(*header, text@),
            LineKind::Plain(text) => LineKindView::Plain(text@),
        }
    }
}

/// A classified line of a slide: the index of the line in the slide, and
/// what the line is.
#[derive(Debug, PartialEq, Eq)]
pub struct SlideItem {
    pub line: usize,
    pub kind: LineKind,
}

impl View for SlideItem {
    type V = (int, LineKindView);

    open spec fn view(&self) -> (int, LineKindView) {
        (self.line as int, self.kind@)
    }
}

/// The views of the items of `v`.
pub open spec fn item_views(v: Seq<SlideItem>) -> Seq<(int, LineKindView)> {
    v.map_values(|item: SlideItem| item@)
}

/// The three backticks that open and close a code block.
pub open spec fn fence() -> Seq<u8> {
    seq![BACKTICK, BACKTICK, BACKTICK]
}

/// Whether `line` opens or closes a code block: it begins with a fence.
pub open spec fn is_fence(line: Seq<u8>) -> bool {
    starts_with(line, fence())
}

/// The language tag of an opening fence: what follows its backticks,
/// trimmed.
pub open spec fn fence_language(line: Seq<u8>) -> Seq<u8> {
    trim(line.skip(leading_run(line, BACKTICK) as int))
}

/// The hashes at the front of `s`, and what follows them without its
/// leading whitespace.
pub open spec fn prefix_and_rest(s: Seq<u8>) -> (Seq<u8>, Seq<u8>) {
    let hashes = leading_run(s, HASH) as int;
    (s.take(hashes), trim_start(s.skip(hashes)))
}

/// The heading that `line` is: it begins with one to four hashes, and
/// whitespace follows them. The text of the heading is what follows the
/// hashes, without its leading whitespace.
pub open spec fn heading_of(line: Seq<u8>) -> Option<(Header, Seq<u8>)> {
    let hashes = leading_run(line, HASH) as int;
    match Header::of_level(hashes) {
        Some(header) => if hashes < line.len() && is_space(line[hashes]) {
            Some((header, prefix_and_rest(line).1))
        } else {
            None
        },
        None => None,
    }
}

/// The path of the image directive that `line` is: the line begins with
/// `![`, holds `](` and ends with `)`, and the path is what stands between
/// the first `](` and the final `)`.
pub open spec fn image_path(line: Seq<u8>) -> Option<Seq<u8>> {
    if starts_with(line, seq![BANG, LEFT_BRACKET]) && ends_with(line, seq![RIGHT_PAREN]) {
        match find(line, seq![RIGHT_BRACKET, LEFT_PAREN]) {
            Some(at) => Some(line.subrange(at + 2, line.len() - 1)),
            None => None,
        }
    } else {
        None
    }
}

/// How many lines from index `from` on come before the next fence or the end
/// of the slide.
pub open spec fn body_len(lines: Seq<Seq<u8>>, from: int) -> nat
    decreases lines.len() - from,
{
    if from < 0 || from >= lines.len() || is_fence(lines[from]) {
        0
    } else {
        1 + body_len(lines, from + 1)
    }
}

/// The code block that the fence at line `at` opens. Its content runs to the
/// next fence, or to the end of the slide where no fence follows.
pub open spec fn code_block_at(lines: Seq<Seq<u8>>, at: int) -> CodeBlockView {
    CodeBlockView {
        language: fence_language(lines[at]),
        content: join_lines(lines.subrange(at + 1, at + 1 + body_len(lines, at + 1))),
    }
}

/// What the line with index `at` is.
pub open spec fn kind_at(lines: Seq<Seq<u8>>, at: int) -> LineKindView {
    let line = lines[at];
    if let Some(path) = image_path(trim(line)) {
        LineKindView::Image(path)
    } else if is_fence(line) {
        LineKindView::Code(code_block_at(lines, at))
    } else if let Some(heading) = heading_of(line) {
        LineKindView::Heading(heading.0, heading.1)
    } else {
        LineKindView::Plain(line)
    }
}

/// How many lines the item at line `at` takes: a code block takes its
/// content and both fences, anything else one line.
pub open spec fn lines_taken(lines: Seq<Seq<u8>>, at: int) -> int {
    if image_path(trim(lines[at])) is None && is_fence(lines[at]) {
        body_len(lines, at + 1) as int + 2
    } else {
        1
    }
}

/// The items of the lines from index `at` on.
pub open spec fn items_from(lines: Seq<Seq<u8>>, at: int) -> Seq<(int, LineKindView)>
    decreases lines.len() - at + 1,
{
    if at < 0 || at >= lines.len() {
        Seq::empty()
    } else {
        proof {
            lemma_body_len(lines, at + 1);
        }
        seq![(at, kind_at(lines, at))] + items_from(lines, at + lines_taken(lines, at))
    }
}

/// How many lines from index `from` on are blank before the first line that
/// is not.
pub open spec fn blank_lines(lines: Seq<Seq<u8>>, from: int) -> nat
    decreases lines.len() - from,
{
    if from < 0 || from >= lines.len() || trim(lines[from]).len() > 0 {
        0
    } else {
        1 + blank_lines(lines, from + 1)
    }
}

/// The items of a slide. Blank lines at the top of the slide are no items;
/// they still count as lines.
pub open spec fn slide_items(slide: Seq<u8>) -> Seq<(int, LineKindView)> {
    items_from(lines(slide), blank_lines(lines(slide), 0) as int)
}

/// The text of a code block: its opening fence, and the lines that follow.
pub open spec fn parsed_block(text: Seq<u8>) -> Option<CodeBlockView> {
    if lines(text).len() > 0 && is_fence(lines(text)[0]) {
        Some(code_block_at(lines(text), 0))
    } else {
        None
    }
}

/// The body ends inside the slide, holds no fence, and a fence follows it
/// unless the slide ends.
pub proof fn lemma_body_len(lines: Seq<Seq<u8>>, from: int)
    requires
        0 <= from,
    ensures
        from + body_len(lines, from) <= lines.len() || (from > lines.len() && body_len(lines, from)
            == 0),
        forall|j: int| from <= j < from + body_len(lines, from) ==> !is_fence(lines[j]),
        from + body_len(lines, from) < lines.len() ==> is_fence(
            lines[from + body_len(lines, from)],
        ),
    decreases lines.len() - from,
{
    if from < lines.len() && !is_fence(lines[from]) {
        lemma_body_len(lines, from + 1);
    }
}

/// `n` lines without a fence that a fence or the end of the slide follows
/// are the body.
pub proof fn lemma_body_len_is(lines: Seq<Seq<u8>>, from: int, n: int)
    requires
        0 <= from,
        0 <= n,
        from + n <= lines.len(),
        forall|j: int| from <= j < from + n ==> !is_fence(lines[j]),
        from + n < lines.len() ==> is_fence(lines[from + n]),
    ensures
        body_len(lines, from) == n,
    decreases n,
{
    if n > 0 {
        lemma_body_len_is(lines, from + 1, n - 1);
    }
}

/// `n` blank lines that a line with text or the end of the slide follows
/// are the leading blank lines.
pub proof fn lemma_blank_lines_is(lines: Seq<Seq<u8>>, from: int, n: int)
    requires
        0 <= from,
        0 <= n,
        from + n <= lines.len(),
        forall|j: int| from <= j < from + n ==> trim(lines[j]).len() == 0,
        from + n < lines.len() ==> trim(lines[from + n]).len() > 0,
    ensures
        blank_lines(lines, from) == n,
    decreases n,
{
    if n > 0 {
        lemma_blank_lines_is(lines, from + 1, n - 1);
    }
}

/// The items stand in the order of their lines: each item is on a line of
/// the slide, and on a later line than the item before it.
pub proof fn lemma_items_ascend(lines: Seq<Seq<u8>>, at: int)
    requires
        0 <= at,
    ensures
        forall|k: int|
            0 <= k < items_from(lines, at).len() ==> at <= (#[trigger] items_from(lines, at)[k]).0
                < lines.len(),
        forall|j: int, k: int|
            0 <= j < k < items_from(lines, at).len() ==> (#[trigger] items_from(lines, at)[j]).0
                < (#[trigger] items_from(lines, at)[k]).0,
    decreases lines.len() - at + 1,
{
    if at < lines.len() {
        let next = at + lines_taken(lines, at);
        lemma_body_len(lines, at + 1);
        lemma_items_ascend(lines, next);
        let rest = items_from(lines, next);
        let all = items_from(lines, at);
        assert(all =~= seq![(at, kind_at(lines, at))] + rest);
        assert forall|k: int| 0 <= k < all.len() implies at <= (#[trigger] all[k]).0
            < lines.len() by {
            if k > 0 {
                assert(all[k] == rest[k - 1]);
            }
        }
        assert forall|j: int, k: int| 0 <= j < k < all.len() implies (#[trigger] all[j]).0 < (
        #[trigger] all[k]).0 by {
            assert(all[k] == rest[k - 1]);
            if j > 0 {
                assert(all[j] == rest[j - 1]);
            }
        }
    }
}

/// The hashes at the front of `s`, and what follows them without its
/// leading whitespace.
pub fn extract_prefix(s: &[u8]) -> (r: (Vec<u8>, &[u8]))
    ensures
        r.0@ == prefix_and_rest(s@).0,
        r.1@ == prefix_and_rest(s@).1,
{
    let hashes = count_leading(s, HASH);
    let prefix = slice_to_vec(slice_subrange(s, 0, hashes));
    let rest = trim_start_bytes(slice_subrange(s, hashes, s.len()));
    (prefix, rest)
}

/// The path of the image directive that `line` is, if it is one.
pub fn extract_image_path(line: &[u8]) -> (path: Option<&[u8]>)
    ensures
        match path {
            Some(p) => image_path(line@) == Some(p@),
            None => image_path(line@) is None,
        },
{
    let open: [u8; 2] = [BANG, LEFT_BRACKET];
    let middle: [u8; 2] = [RIGHT_BRACKET, LEFT_PAREN];
    let close: [u8; 1] = [RIGHT_PAREN];
    assert(open@ =~= seq![BANG, LEFT_BRACKET]);
    assert(middle@ =~= seq![RIGHT_BRACKET, LEFT_PAREN]);
    assert(close@ =~= seq![RIGHT_PAREN]);
    let len = line.len();
    if has_prefix(line, open.as_slice()) && has_suffix(line, close.as_slice()) {
        match find_bytes(line, middle.as_slice()) {
            Some(at) => {
                proof {
                    lemma_find_from(line@, middle@, 0);
                    assert(line@.subrange(at as int, at + 2)[1] == LEFT_PAREN);
                    assert(line@.skip(line@.len() - 1)[0] == RIGHT_PAREN);
                }
                Some(slice_subrange(line, at + 2, len - 1))
            },
            None => None,
        }
    } else {
        None
    }
}

/// The heading that `line` is, if it is one.
pub fn extract_heading(line: &[u8]) -> (heading: Option<(Header, &[u8])>)
    ensures
        match heading {
            Some(h) => heading_of(line@) == Some((h.0, h.1@)),
            None => heading_of(line@) is None,
        },
{
    let (prefix, rest) = extract_prefix(line);
    let hashes = prefix.len();
    proof {
        lemma_leading_run_holds(line@, HASH);
        lemma_leading_run(prefix@, HASH, hashes as int);
    }
    match Header::header_by_prefix(prefix.as_slice()) {
        Some(header) => {
            if hashes < line.len() && is_space_byte(line[hashes]) {
                Some((header, rest))
            } else {
                None
            }
        },
        None => None,
    }
}

/// Whether `line` opens or closes a code block.
pub fn is_fence_line(line: &[u8]) -> (r: bool)
    ensures
        r == is_fence(line@),
{
    let marker: [u8; 3] = [BACKTICK, BACKTICK, BACKTICK];
    assert(marker@ =~= fence());
    has_prefix(line, marker.as_slice())
}

/// The code block that the fence at line `at` opens, and the number of its
/// content lines.
fn read_code_block(all: &Vec<Vec<u8>>, at: usize) -> (r: (CodeBlock, usize))
    requires
        at < all@.len(),
    ensures
        r.0@ == code_block_at(views(all@), at as int),
        r.1 == body_len(views(all@), at + 1),
        at + 1 + r.1 <= all@.len(),
{
    let ghost model = views(all@);
    let opener = all[at].as_slice();
    let ticks = count_leading(opener, BACKTICK);
    let language = slice_to_vec(trim_bytes(slice_subrange(opener, ticks, opener.len())));
    let mut content: Vec<u8> = Vec::new();
    let total = all.len();
    let first = at + 1;
    let mut next: usize = first;
    assert(model.subrange(first as int, first as int) =~= Seq::<Seq<u8>>::empty());
    while next < total && !is_fence_line(all[next].as_slice())
        invariant
            first == at + 1,
            first <= next <= total == all@.len(),
            model == views(all@),
            forall|j: int| first <= j < next ==> !is_fence(model[j]),
            content@ == join_lines(model.subrange(first as int, next as int)),
        decreases total - next,
    {
        let ghost before = model.subrange(first as int, next as int);
        let ghost after = model.subrange(first as int, next + 1);
        proof {
            assert(after.drop_last() =~= before);
            assert(after.last() == model[next as int]);
        }
        if next > first {
            content.push(NEWLINE);
            assert(content@ =~= join_lines(before) + seq![NEWLINE]);
        }
        append_bytes(&mut content, all[next].as_slice());
        next += 1;
    }
    proof {
        lemma_body_len_is(model, first as int, next - first);
    }
    (CodeBlock { language, content }, next - first)
}

impl CodeBlock {
    /// Reads a code block from its text: an opening fence, then the content
    /// up to the next fence or the end. Text that does not begin with a
    /// fence is no code block.
    pub fn parse(text: &[u8]) -> (block: Option<CodeBlock>)
        ensures
            match block {
                Some(b) => parsed_block(text@) == Some(b@),
                None => parsed_block(text@) is None,
            },
    {
        let all = split_lines(text);
        if all.len() == 0 || !is_fence_line(all[0].as_slice()) {
            return None;
        }
        let (block, _) = read_code_block(&all, 0);
        Some(block)
    }
}

/// Classifies the lines of a slide.
pub fn classify_slide(slide: &[u8]) -> (items: Vec<SlideItem>)
    ensures
        item_views(items@) == slide_items(slide@),
{
    let all = split_lines(slide);
    let ghost model = views(all@);
    let mut at: usize = 0;
    while at < all.len() && trim_bytes(all[at].as_slice()).len() == 0
        invariant
            at <= all@.len(),
            model == views(all@),
            forall|j: int| 0 <= j < at ==> trim(model[j]).len() == 0,
        decreases all@.len() - at,
    {
        at += 1;
    }
    proof {
        lemma_blank_lines_is(model, 0, at as int);
    }
    let mut items: Vec<SlideItem> = Vec::new();
    while at < all.len()
        invariant
            at <= all@.len(),
            model == views(all@),
            model == lines(slide@),
            slide_items(slide@) == item_views(items@) + items_from(model, at as int),
        decreases all@.len() - at,
    {
        let line = all[at].as_slice();
        let ghost done = item_views(items@);
        let ghost step = lines_taken(model, at as int);
        let mut next: usize = at + 1;
        let kind = if let Some(path) = extract_image_path(trim_bytes(line)) {
            LineKind::Image(slice_to_vec(path))
        } else if is_fence_line(line) {
            let (block, n) = read_code_block(&all, at);
            if at + 1 + n < all.len() {
                next = at + n + 2;
            } else {
                next = all.len();
            }
            LineKind::Code(block)
        } else if let Some((header, text)) = extract_heading(line) {
            LineKind::Heading(header, slice_to_vec(text))
        } else {
            LineKind::Plain(slice_to_vec(line))
        };
        let item = SlideItem { line: at, kind };
        proof {
            assert(item@ == (at as int, kind_at(model, at as int)));
            assert(items_from(model, at + step) =~= items_from(model, next as int));
        }
        items.push(item);
        assert(item_views(items@) =~= done.push((at as int, kind_at(model, at as int))));
        at = next;
    }
    items
}

} // verus!
