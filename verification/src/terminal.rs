//! Terminal operations: what the engine asks the terminal driver to do, and
//! the pieces of layout that do not depend on a slide.

use crate::colors::Rgb;
use crate::text::{append_bytes, SPACE};
use vstd::prelude::*;
use vstd::slice::*;

verus! {

/// A foreground color: one given by its value, or the terminal's own.
#[derive(Clone, Copy, Debug, PartialEq, Eq, Structural)]
pub enum Paint {
    Default,
    Color(Rgb),
}

/// One step for the terminal driver. Positions count from 1: the top left
/// cell is column 1, row 1.
#[derive(Debug, PartialEq, Eq)]
pub enum TermOp {
    /// Clear the whole screen.
    Clear,
    /// Move the cursor to a column and a row.
    Goto(u16, u16),
    /// Write bold from here on.
    Bold,
    /// Set the foreground color.
    Fg(Paint),
    /// Drop every style.
    ResetStyle,
    /// Write these bytes at the cursor.
    Write(Vec<u8>),
    /// Print the image that the path names, at the cursor.
    Image(Vec<u8>),
    /// Hide the cursor.
    HideCursor,
    /// Clear from the cursor to the end of the row.
    ClearToLineEnd,
}

/// A terminal operation as plain values.
pub enum TermOpView {
    Clear,
    Goto(u16, u16),
    Bold,
    Fg(Paint),
    ResetStyle,
    Write(Seq<u8>),
    Image(Seq<u8>),
    HideCursor,
    ClearToLineEnd,
}

impl View for TermOp {
    type V = TermOpView;

    open spec fn view(&self) -> TermOpView {
        match self {
            TermOp::Clear => TermOpView::Clear,
            TermOp::Goto(column, row) => TermOpView::Goto(*column, *row),
            TermOp::Bold => TermOpView::Bold,
            TermOp::Fg(paint) => TermOpView::Fg(*paint),
            TermOp::ResetStyle => TermOpView::ResetStyle,
            TermOp::Write(bytes) => TermOpView::Write(bytes@),
            TermOp::Image(path) => TermOpView::Image(path@),
            TermOp::HideCursor => TermOpView::HideCursor,
            TermOp::ClearToLineEnd => TermOpView::ClearToLineEnd,
        }
    }
}

/// The views of the operations of `v`.
pub open spec fn op_views(v: Seq<TermOp>) -> Seq<TermOpView> {
    v.map_values(|op: TermOp| op@)
}

/// How many seconds a notification stays on the screen.
pub const NOTIFICATION_SECONDS: u64 = 3;

/// The row of the first line of a slide.
pub const BODY_ROW: u16 = 4;

/// The column at which code stands.
pub const CODE_COLUMN: u16 = 4;

/// A position that a computation gives, held to what a terminal has: no
/// less than 1, and no more than the largest position there is.
pub open spec fn position(value: int) -> u16 {
    if value < 1 {
        1
    } else if value > u16::MAX {
        u16::MAX
    } else {
        value as u16
    }
}

/// `n` spaces.
pub open spec fn spaces(n: int) -> Seq<u8> {
    Seq::new(
        if n < 0 {
            0
        } else {
            n as nat
        },
        |i: int| SPACE,
    )
}

/// `unit`, `n` times over.
pub open spec fn repeated(unit: Seq<u8>, n: nat) -> Seq<u8>
    decreases n,
{
    if n == 0 {
        Seq::empty()
    } else {
        repeated(unit, (n - 1) as nat) + unit
    }
}

/// The byte of the decimal digit `d`.
pub open spec fn digit(d: int) -> u8 {
    (0x30 + d) as u8
}

/// `n` in decimal digits.
pub open spec fn decimal(n: nat) -> Seq<u8>
    decreases n,
{
    if n < 10 {
        seq![digit(n as int)]
    } else {
        decimal(n / 10).push(digit((n % 10) as int))
    }
}

/// How many spaces stand before a text of `len` bytes to center it in
/// `width` columns: half of what the text leaves free, rounded down, and
/// none where the text is wider than the terminal.
pub open spec fn padding(width: int, len: int) -> int {
    if len <= width {
        (width - len) / 2
    } else {
        0
    }
}

/// A text centered on a row, bold and in a color; the cursor is left at the
/// start of the next row.
pub open spec fn centered_ops(text: Seq<u8>, row: u16, width: u16, color: Rgb) -> Seq<TermOpView> {
    seq![
        TermOpView::Goto(1, row),
        TermOpView::Bold,
        TermOpView::Fg(Paint::Color(color)),
        TermOpView::Write(spaces(padding(width as int, text.len() as int))),
        TermOpView::Write(text),
        TermOpView::Fg(Paint::Default),
        TermOpView::ResetStyle,
        TermOpView::Goto(1, position(row + 1)),
    ]
}

/// The bytes of the glyph that fills the progress bar, U+EACC in UTF-8.
pub open spec fn progress_glyph() -> Seq<u8> {
    seq![0xeeu8, 0xabu8, 0x8cu8]
}

/// `width` times `part` over `whole`, rounded to the nearest whole number, a
/// half rounded up.
pub open spec fn rounded_share(width: int, part: int, whole: int) -> int {
    (2 * width * part + whole) / (2 * whole)
}

/// How many cells of the progress bar are filled while slide `current` of
/// `total` is shown: the share of the slides up to and with this one, of
/// `width` cells, and never more than `width`.
pub open spec fn progress_length(current: int, total: int, width: int) -> int {
    if total <= 0 || current + 1 >= total {
        width
    } else {
        rounded_share(width, current + 1, total)
    }
}

/// The progress bar on the last row: the filled cells in a color, blanks for
/// the rest of the row.
pub open spec fn progress_bar_ops(current: int, total: int, width: u16, height: u16, color: Rgb)
    -> Seq<TermOpView> {
    let filled = progress_length(current, total, width as int);
    seq![
        TermOpView::Goto(1, position(height as int)),
        TermOpView::Fg(Paint::Color(color)),
        TermOpView::Write(repeated(progress_glyph(), filled as nat)),
        TermOpView::Fg(Paint::Default),
        TermOpView::Write(spaces(width - filled)),
        TermOpView::Goto(1, position(height + 1)),
    ]
}

/// The column at which a notification of `len` bytes starts so that it ends
/// in the last column.
pub open spec fn notification_column(width: u16, len: int) -> u16 {
    position(width - len)
}

/// A notification in the top right corner, in a color.
pub open spec fn notification_ops(text: Seq<u8>, width: u16, color: Rgb) -> Seq<TermOpView> {
    seq![
        TermOpView::Goto(notification_column(width, text.len() as int), 1),
        TermOpView::Fg(Paint::Color(color)),
        TermOpView::Write(text),
        TermOpView::Fg(Paint::Default),
        TermOpView::HideCursor,
    ]
}

/// What takes a notification that starts at column `start` off the screen.
pub open spec fn clear_notification_ops(start: u16) -> Seq<TermOpView> {
    seq![
        TermOpView::Goto(position(start as int), 1),
        TermOpView::ClearToLineEnd,
        TermOpView::HideCursor,
    ]
}

/// The share of the whole is the whole width, and a share is never more
/// than the width.
pub proof fn lemma_rounded_share(width: int, part: int, whole: int)
    requires
        0 <= width,
        0 <= part <= whole,
        0 < whole,
    ensures
        0 <= rounded_share(width, part, whole) <= width,
        rounded_share(width, whole, whole) == width,
{
    assert(0 <= 2 * width * part <= 2 * width * whole) by (nonlinear_arith)
        requires
            0 <= width,
            0 <= part <= whole,
    ;
    assert(2 * width * whole == width * (2 * whole)) by (nonlinear_arith);
    let d = 2 * whole;
    vstd::arithmetic::div_mod::lemma_fundamental_div_mod_converse(
        2 * width * whole + whole,
        d,
        width,
        whole,
    );
    vstd::arithmetic::div_mod::lemma_div_is_ordered(
        2 * width * part + whole,
        2 * width * whole + whole,
        d,
    );
    vstd::arithmetic::div_mod::lemma_div_pos_is_pos(2 * width * part + whole, d);
}

/// The progress bar is never longer than the terminal is wide, and it is
/// full at the last slide; with one slide it is always full.
pub proof fn lemma_progress_length(current: int, total: int, width: int)
    requires
        0 <= width,
        0 <= current,
    ensures
        0 <= progress_length(current, total, width) <= width,
        current == total - 1 ==> progress_length(current, total, width) == width,
        total == 1 ==> progress_length(current, total, width) == width,
{
    if total > 0 && current + 1 < total {
        lemma_rounded_share(width, current + 1, total);
    }
}

/// Between the first and the last slide the bar shows the rounded share.
pub proof fn lemma_progress_length_is_share(current: int, total: int, width: int)
    requires
        0 <= width,
        0 <= current < total,
    ensures
        progress_length(current, total, width) == rounded_share(width, current + 1, total),
{
    lemma_rounded_share(width, current + 1, total);
}

/// Holds `value` to the positions that a terminal has.
pub fn clamp_position(value: usize) -> (r: u16)
    ensures
        r == position(value as int),
{
    if value < 1 {
        1
    } else if value > u16::MAX as usize {
        u16::MAX
    } else {
        value as u16
    }
}

/// The position `steps` behind `from`, or the largest position.
pub fn position_after(from: u16, steps: usize) -> (r: u16)
    ensures
        r == position(from + steps),
{
    let room = u16::MAX - from;
    if steps > room as usize {
        u16::MAX
    } else {
        let r = from + steps as u16;
        if r < 1 {
            1
        } else {
            r
        }
    }
}

/// `n` spaces.
pub fn make_spaces(n: usize) -> (r: Vec<u8>)
    ensures
        r@ == spaces(n as int),
{
    let mut out: Vec<u8> = Vec::new();
    let mut i: usize = 0;
    while i < n
        invariant
            i <= n,
            out@ == spaces(i as int),
        decreases n - i,
    {
        out.push(SPACE);
        i += 1;
        assert(out@ =~= spaces(i as int));
    }
    assert(out@ =~= spaces(n as int));
    out
}

/// `unit`, `n` times over.
pub fn repeat_bytes(unit: &[u8], n: usize) -> (r: Vec<u8>)
    ensures
        r@ == repeated(unit@, n as nat),
{
    let mut out: Vec<u8> = Vec::new();
    let mut i: usize = 0;
    while i < n
        invariant
            i <= n,
            out@ == repeated(unit@, i as nat),
        decreases n - i,
    {
        append_bytes(&mut out, unit);
        i += 1;
    }
    out
}

/// Adds `n` in decimal digits at the end of `out`.
pub fn push_decimal(out: &mut Vec<u8>, n: u128)
    ensures
        final(out)@ == old(out)@ + decimal(n as nat),
    decreases n,
{
    if n >= 10 {
        push_decimal(out, n / 10);
    }
    let d = (n % 10) as u8;
    out.push(0x30 + d);
    assert(final(out)@ =~= old(out)@ + decimal(n as nat));
}

/// How many spaces stand before a text of `len` bytes to center it in
/// `width` columns.
pub fn center_padding(width: u16, len: usize) -> (r: usize)
    ensures
        r == padding(width as int, len as int),
{
    if len <= width as usize {
        (width as usize - len) / 2
    } else {
        0
    }
}

/// A text centered on a row, bold and in a color.
pub fn render_text_centered(text: &[u8], row: u16, width: u16, color: Rgb) -> (ops: Vec<TermOp>)
    ensures
        op_views(ops@) == centered_ops(text@, row, width, color),
{
    let mut ops: Vec<TermOp> = Vec::new();
    ops.push(TermOp::Goto(1, row));
    ops.push(TermOp::Bold);
    ops.push(TermOp::Fg(Paint::Color(color)));
    ops.push(TermOp::Write(make_spaces(center_padding(width, text.len()))));
    ops.push(TermOp::Write(slice_to_vec(text)));
    ops.push(TermOp::Fg(Paint::Default));
    ops.push(TermOp::ResetStyle);
    ops.push(TermOp::Goto(1, position_after(row, 1)));
    assert(op_views(ops@) =~= centered_ops(text@, row, width, color));
    ops
}

/// How many cells of the progress bar are filled while slide `current` of
/// `total` is shown in a terminal `width` columns wide.
pub fn progress_cells(current: usize, total: usize, width: u16) -> (filled: u16)
    ensures
        filled == progress_length(current as int, total as int, width as int),
        filled <= width,
{
    if total == 0 || current >= total - 1 {
        return width;
    }
    let part = current as u128 + 1;
    let whole = total as u128;
    proof {
        lemma_rounded_share(width as int, part as int, whole as int);
        assert(2 * width * part <= 2 * 0xffff * 0x1_0000_0000_0000_0000) by (nonlinear_arith)
            requires
                0 <= width <= 0xffff,
                0 <= part <= 0x1_0000_0000_0000_0000,
        ;
        assert(2 * width * part == 2 * (width as int) * (part as int)) by (nonlinear_arith);
    }
    let share = (2 * (width as u128) * part + whole) / (2 * whole);
    share as u16
}

/// The progress bar on the last row.
pub fn render_progress_bar(
    current_slide: usize,
    total_slides: usize,
    width: u16,
    height: u16,
    color: Rgb,
) -> (ops: Vec<TermOp>)
    ensures
        op_views(ops@) == progress_bar_ops(
            current_slide as int,
            total_slides as int,
            width,
            height,
            color,
        ),
{
    let filled = progress_cells(current_slide, total_slides, width);
    let glyph: [u8; 3] = [0xee, 0xab, 0x8c];
    assert(glyph@ =~= progress_glyph());
    let mut ops: Vec<TermOp> = Vec::new();
    ops.push(TermOp::Goto(1, clamp_position(height as usize)));
    ops.push(TermOp::Fg(Paint::Color(color)));
    ops.push(TermOp::Write(repeat_bytes(glyph.as_slice(), filled as usize)));
    ops.push(TermOp::Fg(Paint::Default));
    ops.push(TermOp::Write(make_spaces((width - filled) as usize)));
    ops.push(TermOp::Goto(1, position_after(height, 1)));
    assert(op_views(ops@) =~= progress_bar_ops(
        current_slide as int,
        total_slides as int,
        width,
        height,
        color,
    ));
    ops
}

/// The column at which a notification of `len` bytes starts.
pub fn notification_start(width: u16, len: usize) -> (start: u16)
    ensures
        start == notification_column(width, len as int),
{
    if len >= width as usize {
        1
    } else {
        clamp_position(width as usize - len)
    }
}

/// A notification in the top right corner, in a color.
pub fn render_notification(text: &[u8], width: u16, color: Rgb) -> (ops: Vec<TermOp>)
    ensures
        op_views(ops@) == notification_ops(text@, width, color),
{
    let mut ops: Vec<TermOp> = Vec::new();
    ops.push(TermOp::Goto(notification_start(width, text.len()), 1));
    ops.push(TermOp::Fg(Paint::Color(color)));
    ops.push(TermOp::Write(slice_to_vec(text)));
    ops.push(TermOp::Fg(Paint::Default));
    ops.push(TermOp::HideCursor);
    assert(op_views(ops@) =~= notification_ops(text@, width, color));
    ops
}

/// What takes a notification that starts at column `start` off the screen.
pub fn clear_notification(start: u16) -> (ops: Vec<TermOp>)
    ensures
        op_views(ops@) == clear_notification_ops(start),
{
    let mut ops: Vec<TermOp> = Vec::new();
    ops.push(TermOp::Goto(clamp_position(start as usize), 1));
    ops.push(TermOp::ClearToLineEnd);
    ops.push(TermOp::HideCursor);
    assert(op_views(ops@) =~= clear_notification_ops(start));
    ops
}

} // verus!
