//! The layout of a slide: title, body, footer and progress bar as terminal
//! operations at fixed positions. The layout is a function of the
//! presentation, the tokens of its code blocks and the size of the terminal;
//! it reads nothing from the screen.

use crate::classify::{
    classify_slide, item_views, slide_items, CodeBlock, CodeBlockView, LineKind, LineKindView,
    SlideItem,
};
use crate::colors::{Role, Theme};
use crate::document::MetadataView;
use crate::highlight::{
    highlighted, is_supported_language, lemma_highlighted_is_sorted, lemma_merge_keeps_text,
    lemma_merge_without_tokens, lemma_segments_text_push, merge, merge_line, parse_syntax,
    segment_views, segments_text, sorted_by_start, HighlightError, HighlightErrorView, Segment,
    SyntaxKind, SyntaxToken,
};
use crate::presentation::Presentation;
use crate::terminal::{
    centered_ops, decimal, notification_ops, op_views, position, position_after,
    progress_bar_ops, push_decimal, render_notification, render_progress_bar,
    render_text_centered, Paint, TermOp, TermOpView, BODY_ROW, CODE_COLUMN,
};
use crate::text::{
    append_bytes, lemma_line_spans_bounds, line_at, line_spans, line_spans_from,
    split_line_spans, spans_are,
};
use vstd::prelude::*;
use vstd::slice::*;
use vstd::string::StringSliceAdditionalSpecFns;
use vstd::utf8::encode_utf8;

verus! {

/// The row of the line with index `line` of a slide.
pub open spec fn row_of_line(line: int) -> u16 {
    position(line + BODY_ROW)
}

/// A segment of code: its bytes, in the color of its kind where it has one.
pub open spec fn segment_ops(segment: (Option<SyntaxKind>, Seq<u8>), theme: Theme) -> Seq<
    TermOpView,
> {
    match segment.0 {
        Some(kind) => seq![
            TermOpView::Fg(Paint::Color(kind.color_in(theme))),
            TermOpView::Write(segment.1),
            TermOpView::Fg(Paint::Default),
        ],
        None => seq![TermOpView::Write(segment.1)],
    }
}

/// The segments of a line of code, one after the other.
pub open spec fn segments_ops(segments: Seq<(Option<SyntaxKind>, Seq<u8>)>, theme: Theme) -> Seq<
    TermOpView,
>
    decreases segments.len(),
{
    if segments.len() == 0 {
        Seq::empty()
    } else {
        segments_ops(segments.drop_last(), theme) + segment_ops(segments.last(), theme)
    }
}

/// A line of code on its row: the line holds the bytes of the content from
/// `span.0` up to `span.1`.
pub open spec fn code_line_ops(
    content: Seq<u8>,
    span: (int, int),
    tokens: Seq<SyntaxToken>,
    row: u16,
    theme: Theme,
) -> Seq<TermOpView> {
    seq![TermOpView::Goto(CODE_COLUMN, row)] + segments_ops(
        merge(content.subrange(span.0, span.1), span.0, tokens),
        theme,
    )
}

/// The first `upto` lines of the content of a code block, on the rows below
/// `start_row`.
pub open spec fn code_lines_ops(
    content: Seq<u8>,
    tokens: Seq<SyntaxToken>,
    start_row: u16,
    theme: Theme,
    upto: int,
) -> Seq<TermOpView>
    decreases upto,
{
    if upto <= 0 {
        Seq::empty()
    } else {
        code_lines_ops(content, tokens, start_row, theme, upto - 1) + code_line_ops(
            content,
            line_spans(content)[upto - 1],
            tokens,
            position(start_row + upto),
            theme,
        )
    }
}

/// A code block: the language tag on `start_row`, bold and in the primary
/// color, and the lines of the content on the rows below it.
pub open spec fn code_block_ops(
    block: CodeBlockView,
    tokens: Seq<SyntaxToken>,
    start_row: u16,
    theme: Theme,
) -> Seq<TermOpView> {
    seq![
        TermOpView::Goto(CODE_COLUMN, start_row),
        TermOpView::Bold,
        TermOpView::Fg(Paint::Color(theme.role_color(Role::Primary))),
        TermOpView::Write(block.language),
        TermOpView::Fg(Paint::Default),
        TermOpView::ResetStyle,
    ] + code_lines_ops(
        block.content,
        tokens,
        start_row,
        theme,
        line_spans(block.content).len() as int,
    )
}

/// A line of text on its row, bold and in a color.
pub open spec fn text_line_ops(text: Seq<u8>, row: u16, paint: Paint) -> Seq<TermOpView> {
    seq![
        TermOpView::Bold,
        TermOpView::Goto(1, row),
        TermOpView::Fg(paint),
        TermOpView::Write(text),
        TermOpView::Fg(Paint::Default),
        TermOpView::ResetStyle,
    ]
}

/// An item of a slide. A heading has the color of the role of its level,
/// plain text the terminal's own color; an image is handed to the driver
/// with the path as the slide writes it.
pub open spec fn item_ops(item: (int, LineKindView), tokens: Seq<SyntaxToken>, theme: Theme) -> Seq<
    TermOpView,
> {
    match item.1 {
        LineKindView::Image(path) => seq![TermOpView::Image(path)],
        LineKindView::Code(block) => code_block_ops(block, tokens, row_of_line(item.0), theme),
        LineKindView::Heading(header, text) => text_line_ops(
            text,
            row_of_line(item.0),
            Paint::Color(theme.role_color(header.role())),
        ),
        LineKindView::Plain(text) => text_line_ops(text, row_of_line(item.0), Paint::Default),
    }
}

/// The tokens of item `k`: those that `highlights` holds for it, and none
/// where it holds none.
pub open spec fn tokens_for(highlights: Seq<Seq<SyntaxToken>>, k: int) -> Seq<SyntaxToken> {
    if 0 <= k < highlights.len() {
        highlights[k]
    } else {
        Seq::empty()
    }
}

/// The first `upto` items of a slide.
pub open spec fn items_ops(
    items: Seq<(int, LineKindView)>,
    highlights: Seq<Seq<SyntaxToken>>,
    theme: Theme,
    upto: int,
) -> Seq<TermOpView>
    decreases upto,
{
    if upto <= 0 {
        Seq::empty()
    } else {
        items_ops(items, highlights, theme, upto - 1) + item_ops(
            items[upto - 1],
            tokens_for(highlights, upto - 1),
            theme,
        )
    }
}

/// The body of a slide.
pub open spec fn body_ops(slide: Seq<u8>, highlights: Seq<Seq<SyntaxToken>>, theme: Theme) -> Seq<
    TermOpView,
> {
    items_ops(slide_items(slide), highlights, theme, slide_items(slide).len() as int)
}

/// The text of the footer: the number of the slide, counted from 1, a
/// slash, the number of slides, and the word `slides`.
pub open spec fn footer_text(current: nat, total: nat) -> Seq<u8> {
    decimal(current + 1) + seq![0x2fu8] + decimal(total) + " slides".spec_bytes()
}

/// The footer: its text centered on the row above the last one, and the
/// progress bar on the last row, both in the accent color.
pub open spec fn footer_ops(current: nat, total: nat, theme: Theme, width: u16, height: u16) -> Seq<
    TermOpView,
> {
    centered_ops(
        footer_text(current, total),
        position(height - 1),
        width,
        theme.role_color(Role::Accent),
    ) + progress_bar_ops(
        current as int,
        total as int,
        width,
        height,
        theme.role_color(Role::Accent),
    )
}

/// The title, or the text that stands for a title that is not set.
pub open spec fn title_text(metadata: MetadataView) -> Seq<u8> {
    match metadata.title {
        Some(title) => title,
        None => "No title found".spec_bytes(),
    }
}

/// The subtitle, or the text that stands for a subtitle that is not set.
pub open spec fn subtitle_text(metadata: MetadataView) -> Seq<u8> {
    match metadata.subtitle {
        Some(subtitle) => subtitle,
        None => "No subtitle found".spec_bytes(),
    }
}

/// The head of every slide: the screen cleared, the title centered on the
/// first row and the subtitle on the second, both in the primary color.
pub open spec fn head_ops(metadata: MetadataView, theme: Theme, width: u16) -> Seq<TermOpView> {
    seq![TermOpView::Clear, TermOpView::Goto(1, 1)] + centered_ops(
        title_text(metadata),
        1,
        width,
        theme.role_color(Role::Primary),
    ) + centered_ops(subtitle_text(metadata), 2, width, theme.role_color(Role::Primary))
}

/// A slide on the screen: head, body and footer.
pub open spec fn slide_ops(
    metadata: MetadataView,
    slide: Seq<u8>,
    current: nat,
    total: nat,
    theme: Theme,
    highlights: Seq<Seq<SyntaxToken>>,
    width: u16,
    height: u16,
) -> Seq<TermOpView> {
    head_ops(metadata, theme, width) + body_ops(slide, highlights, theme) + footer_ops(
        current,
        total,
        theme,
        width,
        height,
    )
}

/// The slide that a presentation shows, on the screen.
pub open spec fn presentation_ops(
    presentation: &Presentation,
    highlights: Seq<Seq<SyntaxToken>>,
    width: u16,
    height: u16,
) -> Seq<TermOpView> {
    slide_ops(
        presentation.metadata(),
        presentation.slides()[presentation.slide_index()],
        presentation.slide_index() as nat,
        presentation.slides().len(),
        Theme::at(presentation.theme_index()),
        highlights,
        width,
        height,
    )
}

/// The notification that names the theme of a presentation: the name of
/// the theme in the top right corner, in the text color of the theme.
pub open spec fn theme_notification_ops(presentation: &Presentation, width: u16) -> Seq<
    TermOpView,
> {
    let theme = Theme::at(presentation.theme_index());
    notification_ops(encode_utf8(theme.name()), width, theme.role_color(Role::Text))
}

/// The views of the token lists of `v`.
pub open spec fn token_views(v: Seq<Vec<SyntaxToken>>) -> Seq<Seq<SyntaxToken>> {
    v.map_values(|tokens: Vec<SyntaxToken>| tokens@)
}

/// Whether the tokens of an item are for the syntax oracle to give: the
/// item is a code block in a language that is highlighted.
pub open spec fn is_highlighted(item: (int, LineKindView)) -> bool {
    item.1 matches LineKindView::Code(block) && is_supported_language(block.language)
}

/// The tokens of an item: those of its code for a code block, and none for
/// anything else.
pub open spec fn item_highlight(item: (int, LineKindView)) -> Result<
    Seq<SyntaxToken>,
    HighlightErrorView,
> {
    match item.1 {
        LineKindView::Code(block) => highlighted(block.language, block.content),
        _ => Ok(Seq::empty()),
    }
}

/// The tokens of the first `upto` items, a list for each item in the items'
/// order, or the error of the first item that cannot be highlighted.
pub open spec fn items_highlights(items: Seq<(int, LineKindView)>, upto: int) -> Result<
    Seq<Seq<SyntaxToken>>,
    HighlightErrorView,
>
    decreases upto,
{
    if upto <= 0 {
        Ok(Seq::empty())
    } else {
        match items_highlights(items, upto - 1) {
            Err(error) => Err(error),
            Ok(highlights) => match item_highlight(items[upto - 1]) {
                Err(error) => Err(error),
                Ok(tokens) => Ok(highlights.push(tokens)),
            },
        }
    }
}

/// The tokens of the items of a slide, or the error of the first item that
/// cannot be highlighted.
pub open spec fn slide_highlights(slide: Seq<u8>) -> Result<
    Seq<Seq<SyntaxToken>>,
    HighlightErrorView,
> {
    items_highlights(slide_items(slide), slide_items(slide).len() as int)
}

/// Token lists or an error, as plain values.
pub open spec fn highlights_view(result: Result<Vec<Vec<SyntaxToken>>, HighlightError>) -> Result<
    Seq<Seq<SyntaxToken>>,
    HighlightErrorView,
> {
    match result {
        Ok(highlights) => Ok(token_views(highlights@)),
        Err(error) => Err(error@),
    }
}

/// Whether `highlights` can be the tokens of `items`: a list for each item,
/// each one sorted, and no token for an item that is not highlighted.
pub open spec fn highlights_fit(
    highlights: Seq<Seq<SyntaxToken>>,
    items: Seq<(int, LineKindView)>,
) -> bool {
    &&& highlights.len() == items.len()
    &&& forall|k: int| 0 <= k < highlights.len() ==> sorted_by_start(#[trigger] highlights[k])
    &&& forall|k: int|
        0 <= k < highlights.len() && !is_highlighted(items[k]) ==> (#[trigger] highlights[k]).len()
            == 0
}

/// An error among the first items is the error of every longer run of
/// items.
pub proof fn lemma_first_error_stays(items: Seq<(int, LineKindView)>, upto: int, later: int)
    requires
        upto <= later,
        items_highlights(items, upto) is Err,
    ensures
        items_highlights(items, later) == items_highlights(items, upto),
    decreases later - upto,
{
    if upto < later {
        lemma_first_error_stays(items, upto, later - 1);
    }
}

/// The tokens of items fit the items, and an item that is not highlighted
/// never fails.
pub proof fn lemma_highlights_fit(items: Seq<(int, LineKindView)>, upto: int)
    requires
        0 <= upto <= items.len(),
    ensures
        items_highlights(items, upto) matches Ok(highlights) ==> highlights_fit(
            highlights,
            items.take(upto),
        ),
        (forall|k: int| 0 <= k < upto ==> !is_highlighted(#[trigger] items[k])) ==> items_highlights(
            items,
            upto,
        ) is Ok,
    decreases upto,
{
    if upto > 0 {
        lemma_highlights_fit(items, upto - 1);
        let item = items[upto - 1];
        match item.1 {
            LineKindView::Code(block) => {
                lemma_highlighted_is_sorted(block.language, block.content);
            },
            _ => {},
        }
        match items_highlights(items, upto) {
            Ok(highlights) => {
                let before = items_highlights(items, upto - 1)->Ok_0;
                let tokens = item_highlight(item)->Ok_0;
                assert(highlights == before.push(tokens));
                assert forall|k: int| 0 <= k < highlights.len() implies sorted_by_start(
                    #[trigger] highlights[k],
                ) by {
                    if k < upto - 1 {
                        assert(highlights[k] == before[k]);
                    }
                }
                assert forall|k: int|
                    0 <= k < highlights.len() && !is_highlighted(
                        items.take(upto)[k],
                    ) implies (#[trigger] highlights[k]).len() == 0 by {
                    if k < upto - 1 {
                        assert(highlights[k] == before[k]);
                        assert(items.take(upto)[k] == items.take(upto - 1)[k]);
                    }
                }
            },
            Err(_) => {},
        }
    }
}

/// Without a highlighted item, the highlights that fit are all empty, and
/// the layout is that without any token.
pub proof fn lemma_items_ops_without_tokens(
    items: Seq<(int, LineKindView)>,
    highlights: Seq<Seq<SyntaxToken>>,
    theme: Theme,
    upto: int,
)
    requires
        highlights_fit(highlights, items),
        upto <= items.len(),
        forall|k: int| 0 <= k < items.len() ==> !is_highlighted(items[k]),
    ensures
        items_ops(items, highlights, theme, upto) == items_ops(items, Seq::empty(), theme, upto),
    decreases upto,
{
    if upto > 0 {
        lemma_items_ops_without_tokens(items, highlights, theme, upto - 1);
        assert(highlights[upto - 1] =~= Seq::<SyntaxToken>::empty());
    }
}

/// The bytes that the operations write, one after the other; what they do
/// to colors and to the cursor is left out.
pub open spec fn written_text(ops: Seq<TermOpView>) -> Seq<u8>
    decreases ops.len(),
{
    if ops.len() == 0 {
        Seq::empty()
    } else {
        written_text(ops.drop_last()) + match ops.last() {
            TermOpView::Write(bytes) => bytes,
            _ => Seq::empty(),
        }
    }
}

/// What two runs of operations write, one after the other, is what the
/// first writes and then what the second writes.
pub proof fn lemma_written_text_concat(a: Seq<TermOpView>, b: Seq<TermOpView>)
    ensures
        written_text(a + b) == written_text(a) + written_text(b),
    decreases b.len(),
{
    if b.len() == 0 {
        assert(a + b =~= a);
        assert(written_text(a) + written_text(b) =~= written_text(a));
    } else {
        assert((a + b).drop_last() =~= a + b.drop_last());
        lemma_written_text_concat(a, b.drop_last());
        let tail = match b.last() {
            TermOpView::Write(bytes) => bytes,
            _ => Seq::empty(),
        };
        assert(written_text(a) + (written_text(b.drop_last()) + tail) =~= (written_text(a)
            + written_text(b.drop_last())) + tail);
    }
}

/// What the operations of some segments write is the text of the segments.
pub proof fn lemma_segments_ops_write_text(
    segments: Seq<(Option<SyntaxKind>, Seq<u8>)>,
    theme: Theme,
)
    ensures
        written_text(segments_ops(segments, theme)) == segments_text(segments),
    decreases segments.len(),
{
    if segments.len() > 0 {
        let head = segments.drop_last();
        let last = segments.last();
        lemma_segments_ops_write_text(head, theme);
        lemma_written_text_concat(segments_ops(head, theme), segment_ops(last, theme));
        lemma_segments_text_push(head, last);
        assert(head.push(last) =~= segments);
        reveal_with_fuel(written_text, 4);
        let ops = segment_ops(last, theme);
        match last.0 {
            Some(kind) => {
                assert(ops.drop_last().drop_last().drop_last() =~= Seq::<TermOpView>::empty());
                assert(written_text(ops) =~= last.1);
            },
            None => {
                assert(ops.drop_last() =~= Seq::<TermOpView>::empty());
                assert(written_text(ops) =~= last.1);
            },
        }
    }
}

/// Whatever the tokens are, a line of code is written as it stands: the
/// bytes that its operations write, colors left aside, are the bytes of the
/// line.
pub proof fn lemma_code_line_round_trip(
    content: Seq<u8>,
    span: (int, int),
    tokens: Seq<SyntaxToken>,
    row: u16,
    theme: Theme,
)
    requires
        0 <= span.0 <= span.1 <= content.len(),
    ensures
        written_text(code_line_ops(content, span, tokens, row, theme)) == content.subrange(
            span.0,
            span.1,
        ),
{
    let line = content.subrange(span.0, span.1);
    let segments = merge(line, span.0, tokens);
    lemma_merge_keeps_text(line, span.0, tokens, 0);
    assert(line.skip(0) =~= line);
    lemma_segments_ops_write_text(segments, theme);
    let goto = seq![TermOpView::Goto(CODE_COLUMN, row)];
    lemma_written_text_concat(goto, segments_ops(segments, theme));
    reveal_with_fuel(written_text, 2);
    assert(goto.drop_last() =~= Seq::<TermOpView>::empty());
    assert(written_text(goto) =~= Seq::<u8>::empty());
    assert(written_text(goto) + line =~= line);
}

/// Without tokens a line of code is written plainly: the cursor is moved,
/// and the line is written in one piece, if it is not empty.
pub proof fn lemma_code_line_without_tokens(
    content: Seq<u8>,
    span: (int, int),
    row: u16,
    theme: Theme,
)
    requires
        0 <= span.0 <= span.1 <= content.len(),
    ensures
        code_line_ops(content, span, Seq::empty(), row, theme) == if span.0 == span.1 {
            seq![TermOpView::Goto(CODE_COLUMN, row)]
        } else {
            seq![
                TermOpView::Goto(CODE_COLUMN, row),
                TermOpView::Write(content.subrange(span.0, span.1)),
            ]
        },
{
    let line = content.subrange(span.0, span.1);
    lemma_merge_without_tokens(line, span.0);
    let segments = merge(line, span.0, Seq::empty());
    if line.len() == 0 {
        assert(segments_ops(segments, theme) =~= Seq::<TermOpView>::empty());
        assert(code_line_ops(content, span, Seq::empty(), row, theme) =~= seq![
            TermOpView::Goto(CODE_COLUMN, row),
        ]);
    } else {
        reveal_with_fuel(segments_ops, 2);
        assert(segments.drop_last() =~= Seq::empty());
        assert(segments_ops(segments, theme) =~= seq![TermOpView::Write(line)]);
        assert(code_line_ops(content, span, Seq::empty(), row, theme) =~= seq![
            TermOpView::Goto(CODE_COLUMN, row),
            TermOpView::Write(line),
        ]);
    }
}

/// Whether every cursor position that the operations name is one that a
/// terminal has: columns and rows count from 1.
pub open spec fn positions_exist(ops: Seq<TermOpView>) -> bool {
    forall|i: int|
        0 <= i < ops.len() ==> (#[trigger] ops[i] matches TermOpView::Goto(column, row) ==> column
            >= 1 && row >= 1)
}

/// The positions of two runs of operations exist where those of each run
/// exist.
pub proof fn lemma_positions_exist_concat(a: Seq<TermOpView>, b: Seq<TermOpView>)
    requires
        positions_exist(a),
        positions_exist(b),
    ensures
        positions_exist(a + b),
{
    assert forall|i: int| 0 <= i < (a + b).len() implies (#[trigger] (a + b)[i] matches TermOpView::Goto(
        column,
        row,
    ) ==> column >= 1 && row >= 1) by {
        if i < a.len() {
            assert((a + b)[i] == a[i]);
        } else {
            assert((a + b)[i] == b[i - a.len()]);
        }
    }
}

/// The operations of segments move no cursor.
proof fn lemma_segments_positions(segments: Seq<(Option<SyntaxKind>, Seq<u8>)>, theme: Theme)
    ensures
        positions_exist(segments_ops(segments, theme)),
    decreases segments.len(),
{
    if segments.len() > 0 {
        lemma_segments_positions(segments.drop_last(), theme);
        lemma_positions_exist_concat(
            segments_ops(segments.drop_last(), theme),
            segment_ops(segments.last(), theme),
        );
    }
}

/// The lines of a code block stand at positions that exist.
proof fn lemma_code_lines_positions(
    content: Seq<u8>,
    tokens: Seq<SyntaxToken>,
    start_row: u16,
    theme: Theme,
    upto: int,
)
    ensures
        positions_exist(code_lines_ops(content, tokens, start_row, theme, upto)),
    decreases upto,
{
    if upto > 0 {
        lemma_code_lines_positions(content, tokens, start_row, theme, upto - 1);
        let span = line_spans(content)[upto - 1];
        let row = position(start_row + upto);
        lemma_segments_positions(merge(content.subrange(span.0, span.1), span.0, tokens), theme);
        lemma_positions_exist_concat(
            seq![TermOpView::Goto(CODE_COLUMN, row)],
            segments_ops(merge(content.subrange(span.0, span.1), span.0, tokens), theme),
        );
        lemma_positions_exist_concat(
            code_lines_ops(content, tokens, start_row, theme, upto - 1),
            code_line_ops(content, span, tokens, row, theme),
        );
    }
}

/// The items of a slide stand at positions that exist.
proof fn lemma_items_positions(
    items: Seq<(int, LineKindView)>,
    highlights: Seq<Seq<SyntaxToken>>,
    theme: Theme,
    upto: int,
)
    requires
        upto <= items.len(),
    ensures
        positions_exist(items_ops(items, highlights, theme, upto)),
    decreases upto,
{
    if upto > 0 {
        lemma_items_positions(items, highlights, theme, upto - 1);
        let item = items[upto - 1];
        let tokens = tokens_for(highlights, upto - 1);
        match item.1 {
            LineKindView::Code(block) => {
                let row = row_of_line(item.0);
                lemma_code_lines_positions(
                    block.content,
                    tokens,
                    row,
                    theme,
                    line_spans(block.content).len() as int,
                );
                lemma_positions_exist_concat(
                    seq![
                        TermOpView::Goto(CODE_COLUMN, row),
                        TermOpView::Bold,
                        TermOpView::Fg(Paint::Color(theme.role_color(Role::Primary))),
                        TermOpView::Write(block.language),
                        TermOpView::Fg(Paint::Default),
                        TermOpView::ResetStyle,
                    ],
                    code_lines_ops(
                        block.content,
                        tokens,
                        row,
                        theme,
                        line_spans(block.content).len() as int,
                    ),
                );
            },
            _ => {},
        }
        lemma_positions_exist_concat(
            items_ops(items, highlights, theme, upto - 1),
            item_ops(item, tokens, theme),
        );
    }
}

/// Whatever the slide, the tokens and the size of the terminal are, the
/// layout names no cursor position that a terminal does not have.
pub proof fn lemma_layout_positions_exist(
    metadata: MetadataView,
    slide: Seq<u8>,
    current: nat,
    total: nat,
    theme: Theme,
    highlights: Seq<Seq<SyntaxToken>>,
    width: u16,
    height: u16,
)
    ensures
        positions_exist(
            slide_ops(metadata, slide, current, total, theme, highlights, width, height),
        ),
{
    let primary = theme.role_color(Role::Primary);
    let accent = theme.role_color(Role::Accent);
    let title = centered_ops(title_text(metadata), 1, width, primary);
    let subtitle = centered_ops(subtitle_text(metadata), 2, width, primary);
    let start = seq![TermOpView::Clear, TermOpView::Goto(1, 1)];
    lemma_positions_exist_concat(start, title);
    lemma_positions_exist_concat(start + title, subtitle);
    let items = slide_items(slide);
    lemma_items_positions(items, highlights, theme, items.len() as int);
    let footer = centered_ops(footer_text(current, total), position(height - 1), width, accent);
    let bar = progress_bar_ops(current as int, total as int, width, height, accent);
    lemma_positions_exist_concat(footer, bar);
    lemma_positions_exist_concat(head_ops(metadata, theme, width), body_ops(slide, highlights, theme));
    lemma_positions_exist_concat(
        head_ops(metadata, theme, width) + body_ops(slide, highlights, theme),
        footer_ops(current, total, theme, width, height),
    );
}

/// Adds `op` at the end of `ops`.
fn emit(ops: &mut Vec<TermOp>, op: TermOp)
    ensures
        op_views(final(ops)@) == op_views(old(ops)@).push(op@),
{
    ops.push(op);
    assert(op_views(ops@) =~= op_views(old(ops)@).push(op@));
}

/// Adds `more` at the end of `ops`.
fn emit_all(ops: &mut Vec<TermOp>, more: Vec<TermOp>)
    ensures
        op_views(final(ops)@) == op_views(old(ops)@) + op_views(more@),
{
    let mut more = more;
    let ghost added = more@;
    ops.append(&mut more);
    assert(op_views(ops@) =~= op_views(old(ops)@) + op_views(added));
}

/// Adds the segments of a line of code at the end of `ops`.
fn emit_segments(ops: &mut Vec<TermOp>, segments: &Vec<Segment>, theme: &Theme)
    ensures
        op_views(final(ops)@) == op_views(old(ops)@) + segments_ops(
            segment_views(segments@),
            *theme,
        ),
{
    let ghost model = segment_views(segments@);
    let ghost start = op_views(ops@);
    let total = segments.len();
    let mut k: usize = 0;
    assert(model.take(0) =~= Seq::empty());
    assert(op_views(ops@) =~= start + segments_ops(model.take(0), *theme));
    while k < total
        invariant
            k <= total == segments@.len(),
            model == segment_views(segments@),
            op_views(ops@) == start + segments_ops(model.take(k as int), *theme),
        decreases total - k,
    {
        let segment = &segments[k];
        let ghost upto = model.take(k + 1);
        proof {
            assert(upto.drop_last() =~= model.take(k as int));
            assert(upto.last() == segment@);
        }
        match segment.kind {
            Some(kind) => {
                emit(ops, TermOp::Fg(Paint::Color(kind.color(theme))));
                emit(ops, TermOp::Write(slice_to_vec(segment.text.as_slice())));
                emit(ops, TermOp::Fg(Paint::Default));
            },
            None => {
                emit(ops, TermOp::Write(slice_to_vec(segment.text.as_slice())));
            },
        }
        k += 1;
        assert(op_views(ops@) =~= start + segments_ops(upto, *theme));
    }
    assert(model.take(model.len() as int) =~= model);
}

/// A code block: the language tag on `start_row`, and the lines of the
/// content, each colored by `tokens`, on the rows below it.
pub fn render_code_block(
    block: &CodeBlock,
    tokens: &[SyntaxToken],
    start_row: u16,
    theme: &Theme,
) -> (ops: Vec<TermOp>)
    ensures
        op_views(ops@) == code_block_ops(block@, tokens@, start_row, *theme),
{
    let mut ops: Vec<TermOp> = Vec::new();
    emit(&mut ops, TermOp::Goto(CODE_COLUMN, start_row));
    emit(&mut ops, TermOp::Bold);
    emit(&mut ops, TermOp::Fg(Paint::Color(theme.get_theme_colors().primary)));
    emit(&mut ops, TermOp::Write(slice_to_vec(block.language.as_slice())));
    emit(&mut ops, TermOp::Fg(Paint::Default));
    emit(&mut ops, TermOp::ResetStyle);
    let ghost label = op_views(ops@);
    let content = block.content.as_slice();
    let spans = split_line_spans(content);
    let total = spans.len();
    let mut k: usize = 0;
    assert(op_views(ops@) =~= label + code_lines_ops(content@, tokens@, start_row, *theme, 0));
    while k < total
        invariant
            k <= total == spans@.len(),
            spans_are(spans@, line_spans(content@)),
            op_views(ops@) == label + code_lines_ops(
                content@,
                tokens@,
                start_row,
                *theme,
                k as int,
            ),
        decreases total - k,
    {
        let line = line_at(content, &spans, k);
        let from = spans[k].0;
        let row = position_after(start_row, k + 1);
        proof {
            lemma_line_spans_bounds(content@, 0);
            let span = line_spans(content@)[k as int];
            assert(line_spans_from(content@, 0)[k as int] == span);
            assert(span.0 == from);
            assert(line@ == content@.subrange(span.0, span.1));
        }
        emit(&mut ops, TermOp::Goto(CODE_COLUMN, row));
        let segments = merge_line(line, from, tokens);
        emit_segments(&mut ops, &segments, theme);
        k += 1;
        assert(op_views(ops@) =~= label + code_lines_ops(
            content@,
            tokens@,
            start_row,
            *theme,
            k as int,
        ));
    }
    ops
}

/// A line of text on its row, bold and in a color.
fn render_text_line(text: &[u8], row: u16, paint: Paint) -> (ops: Vec<TermOp>)
    ensures
        op_views(ops@) == text_line_ops(text@, row, paint),
{
    let mut ops: Vec<TermOp> = Vec::new();
    ops.push(TermOp::Bold);
    ops.push(TermOp::Goto(1, row));
    ops.push(TermOp::Fg(paint));
    ops.push(TermOp::Write(slice_to_vec(text)));
    ops.push(TermOp::Fg(Paint::Default));
    ops.push(TermOp::ResetStyle);
    assert(op_views(ops@) =~= text_line_ops(text@, row, paint));
    ops
}

/// An item of a slide, with the tokens of its code.
pub fn render_item(item: &SlideItem, tokens: &[SyntaxToken], theme: &Theme) -> (ops: Vec<TermOp>)
    ensures
        op_views(ops@) == item_ops(item@, tokens@, *theme),
{
    let row = if item.line > (u16::MAX - BODY_ROW) as usize {
        u16::MAX
    } else {
        item.line as u16 + BODY_ROW
    };
    assert(row == row_of_line(item.line as int));
    match &item.kind {
        LineKind::Image(path) => {
            let mut ops: Vec<TermOp> = Vec::new();
            ops.push(TermOp::Image(slice_to_vec(path.as_slice())));
            assert(op_views(ops@) =~= item_ops(item@, tokens@, *theme));
            ops
        },
        LineKind::Code(block) => render_code_block(block, tokens, row, theme),
        LineKind::Heading(header, text) => render_text_line(
            text.as_slice(),
            row,
            Paint::Color(header.color(theme)),
        ),
        LineKind::Plain(text) => render_text_line(text.as_slice(), row, Paint::Default),
    }
}

/// The footer: the place in the slides, and the progress bar.
pub fn render_footer(current: usize, total: usize, theme: &Theme, width: u16, height: u16) -> (ops:
    Vec<TermOp>)
    ensures
        op_views(ops@) == footer_ops(current as nat, total as nat, *theme, width, height),
{
    let accent = theme.get_theme_colors().accent;
    let mut text: Vec<u8> = Vec::new();
    push_decimal(&mut text, current as u128 + 1);
    text.push(0x2f);
    push_decimal(&mut text, total as u128);
    append_bytes(&mut text, " slides".as_bytes());
    assert(text@ =~= footer_text(current as nat, total as nat));
    let row = if height <= 1 {
        1
    } else {
        height - 1
    };
    let mut ops = render_text_centered(text.as_slice(), row, width, accent);
    emit_all(&mut ops, render_progress_bar(current, total, width, height, accent));
    ops
}

/// The slide that `presentation` shows, laid out for a terminal of `width`
/// columns and `height` rows. `highlights` holds the tokens of the items of
/// the slide, a list for each item in the items' order; an item for which
/// it holds none has no tokens.
pub fn layout_slide(
    presentation: &Presentation,
    highlights: &Vec<Vec<SyntaxToken>>,
    width: u16,
    height: u16,
) -> (ops: Vec<TermOp>)
    ensures
        op_views(ops@) == presentation_ops(presentation, token_views(highlights@), width, height),
        positions_exist(op_views(ops@)),
{
    let theme = presentation.current_theme();
    let metadata = presentation.get_metadata();
    let primary = theme.get_theme_colors().primary;
    let mut ops: Vec<TermOp> = Vec::new();
    emit(&mut ops, TermOp::Clear);
    emit(&mut ops, TermOp::Goto(1, 1));
    let title = match &metadata.title {
        Some(title) => title.as_slice(),
        None => "No title found".as_bytes(),
    };
    let subtitle = match &metadata.subtitle {
        Some(subtitle) => subtitle.as_slice(),
        None => "No subtitle found".as_bytes(),
    };
    emit_all(&mut ops, render_text_centered(title, 1, width, primary));
    emit_all(&mut ops, render_text_centered(subtitle, 2, width, primary));
    assert(op_views(ops@) =~= head_ops(presentation.metadata(), theme, width));
    let slide = presentation.current_slide();
    let items = classify_slide(slide);
    let ghost head = op_views(ops@);
    let ghost model = slide_items(slide@);
    let ghost tokens = token_views(highlights@);
    let empty: Vec<SyntaxToken> = Vec::new();
    let mut k: usize = 0;
    assert(op_views(ops@) =~= head + items_ops(model, tokens, theme, 0));
    while k < items.len()
        invariant
            k <= items@.len(),
            item_views(items@) == model,
            tokens == token_views(highlights@),
            empty@.len() == 0,
            op_views(ops@) == head + items_ops(model, tokens, theme, k as int),
        decreases items@.len() - k,
    {
        let item_tokens = if k < highlights.len() {
            highlights[k].as_slice()
        } else {
            empty.as_slice()
        };
        assert(item_tokens@ =~= tokens_for(tokens, k as int));
        emit_all(&mut ops, render_item(&items[k], item_tokens, &theme));
        k += 1;
        assert(op_views(ops@) =~= head + items_ops(model, tokens, theme, k as int));
    }
    let current = presentation.current_slide_index();
    let total = presentation.total_slides();
    emit_all(&mut ops, render_footer(current, total, &theme, width, height));
    proof {
        lemma_layout_positions_exist(
            presentation.metadata(),
            slide@,
            current as nat,
            total as nat,
            theme,
            tokens,
            width,
            height,
        );
    }
    ops
}

/// The notification that names the theme in use, for after a change of
/// theme.
pub fn render_theme_notification(presentation: &Presentation, width: u16) -> (ops: Vec<TermOp>)
    ensures
        op_views(ops@) == theme_notification_ops(presentation, width),
{
    let theme = presentation.current_theme();
    render_notification(theme.get_name().as_bytes(), width, theme.get_theme_colors().text)
}

/// The tokens of the items of a slide, a list for each item: those of
/// `parse_syntax` for a code block, none for anything else. The first item
/// that cannot be highlighted gives its error to the whole.
pub fn highlight_items(items: &Vec<SlideItem>) -> (result: Result<
    Vec<Vec<SyntaxToken>>,
    HighlightError,
>)
    ensures
        highlights_view(result) == items_highlights(item_views(items@), items@.len() as int),
        result matches Ok(highlights) ==> highlights_fit(
            token_views(highlights@),
            item_views(items@),
        ),
        (forall|k: int| 0 <= k < items@.len() ==> !is_highlighted(#[trigger] item_views(items@)[k]))
            ==> result is Ok,
{
    let ghost model = item_views(items@);
    let mut highlights: Vec<Vec<SyntaxToken>> = Vec::new();
    let mut k: usize = 0;
    assert(token_views(highlights@) =~= Seq::<Seq<SyntaxToken>>::empty());
    while k < items.len()
        invariant
            k <= items@.len(),
            model == item_views(items@),
            items_highlights(model, k as int) == Ok::<
                Seq<Seq<SyntaxToken>>,
                HighlightErrorView,
            >(token_views(highlights@)),
        decreases items@.len() - k,
    {
        let ghost before = token_views(highlights@);
        assert(model[k as int] == items@[k as int]@);
        let tokens = match &items[k].kind {
            LineKind::Code(block) => {
                match parse_syntax(block.content.as_slice(), block.language.as_slice()) {
                    Ok(tokens) => tokens,
                    Err(error) => {
                        proof {
                            lemma_first_error_stays(model, k + 1, items@.len() as int);
                            lemma_highlights_fit(model, items@.len() as int);
                        }
                        return Err(error);
                    },
                }
            },
            _ => Vec::new(),
        };
        highlights.push(tokens);
        assert(token_views(highlights@) =~= before.push(tokens@));
        k += 1;
    }
    proof {
        lemma_highlights_fit(model, items@.len() as int);
        assert(model.take(items@.len() as int) =~= model);
    }
    Ok(highlights)
}

/// The slide that `presentation` shows, laid out for a terminal of `width`
/// columns and `height` rows, with the code of its code blocks highlighted:
/// the layout of `layout_slide` with the tokens of the slide. Where a code
/// block of the slide cannot be highlighted, the error of the first such
/// block comes back. A slide without code in a highlighted language is
/// always laid out, and without any token.
pub fn render_slide(presentation: &Presentation, width: u16, height: u16) -> (result: Result<
    Vec<TermOp>,
    HighlightError,
>)
    ensures
        match slide_highlights(presentation.slides()[presentation.slide_index()]) {
            Ok(highlights) => result matches Ok(ops) && op_views(ops@) == presentation_ops(
                presentation,
                highlights,
                width,
                height,
            ),
            Err(error) => result matches Err(failure) && failure@ == error,
        },
        result matches Ok(ops) ==> positions_exist(op_views(ops@)),
        (forall|k: int|
            0 <= k < slide_items(presentation.slides()[presentation.slide_index()]).len()
                ==> !is_highlighted(
                #[trigger] slide_items(presentation.slides()[presentation.slide_index()])[k],
            )) ==> (result matches Ok(ops) && op_views(ops@) == presentation_ops(
            presentation,
            Seq::empty(),
            width,
            height,
        )),
{
    let items = classify_slide(presentation.current_slide());
    match highlight_items(&items) {
        Err(error) => Err(error),
        Ok(highlights) => {
            let ops = layout_slide(presentation, &highlights, width, height);
            proof {
                let model = slide_items(presentation.slides()[presentation.slide_index()]);
                let theme = Theme::at(presentation.theme_index());
                if forall|k: int| 0 <= k < model.len() ==> !is_highlighted(#[trigger] model[k]) {
                    lemma_items_ops_without_tokens(
                        model,
                        token_views(highlights@),
                        theme,
                        model.len() as int,
                    );
                }
            }
            Ok(ops)
        },
    }
}

} // verus!
