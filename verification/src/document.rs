//! The document: optional front matter with metadata, then the slides.

use crate::text::{
    bytes_eq, copy_range, find, has_prefix, join, lemma_line_break_is, lemma_raw_line_spans_bounds,
    lemma_raw_lines_concat, lemma_split_join, line_break, raw_line_at, raw_line_spans,
    raw_line_spans_from, raw_lines, shifted, split, split_bytes, split_raw_line_spans, spans_are,
    starts_with, trim, trim_bytes, views, NEWLINE,
};
use vstd::prelude::*;
use vstd::slice::*;
use vstd::string::*;

verus! {

/// What the front matter says of the document. A field that the front matter
/// does not set is `None`.
#[derive(Debug, PartialEq, Eq)]
pub struct Metadata {
    pub author: Option<Vec<u8>>,
    pub title: Option<Vec<u8>>,
    pub subtitle: Option<Vec<u8>>,
}

/// The metadata as plain values.
pub struct MetadataView {
    pub author: Option<Seq<u8>>,
    pub title: Option<Seq<u8>>,
    pub subtitle: Option<Seq<u8>>,
}

/// The view of an optional text.
pub open spec fn text_view(text: Option<Vec<u8>>) -> Option<Seq<u8>> {
    match text {
        Some(bytes) => Some(bytes@),
        None => None,
    }
}

impl View for Metadata {
    type V = MetadataView;

    open spec fn view(&self) -> MetadataView {
        MetadataView {
            author: text_view(self.author),
            title: text_view(self.title),
            subtitle: text_view(self.subtitle),
        }
    }
}

impl MetadataView {
    /// Metadata that sets no field.
    pub open spec fn none() -> MetadataView {
        MetadataView { author: None, title: None, subtitle: None }
    }
}

/// The line that opens and closes the front matter: three hyphens and
/// nothing else up to the line feed or the end of the text. A line with a
/// carriage return before its line feed is no marker.
pub open spec fn marker() -> Seq<u8> {
    "---".spec_bytes()
}

/// The text that separates two slides.
pub open spec fn slide_delimiter() -> Seq<u8> {
    "<!-- end_slide -->".spec_bytes()
}

/// The index of the first line from index `from` on that is the marker.
pub open spec fn marker_line_from(lines: Seq<Seq<u8>>, from: int) -> Option<int>
    decreases lines.len() - from,
{
    if from < 0 || from >= lines.len() {
        None
    } else if lines[from] == marker() {
        Some(from)
    } else {
        marker_line_from(lines, from + 1)
    }
}

/// The index of the line that closes the front matter, where `lines` begin
/// with front matter: the first line is the marker, and the closing line is
/// the first marker after it.
pub open spec fn front_matter_close(lines: Seq<Seq<u8>>) -> Option<int> {
    if lines.len() > 0 && lines[0] == marker() {
        marker_line_from(lines, 1)
    } else {
        None
    }
}

/// The value that `line` gives to the field with this prefix (the key, a
/// colon and a space): the rest of the line, trimmed.
pub open spec fn line_value(line: Seq<u8>, prefix: Seq<u8>) -> Option<Seq<u8>> {
    if starts_with(line, prefix) {
        Some(trim(line.skip(prefix.len() as int)))
    } else {
        None
    }
}

/// The value of a field after `lines`: that of the last line that sets it.
pub open spec fn field_value(lines: Seq<Seq<u8>>, prefix: Seq<u8>) -> Option<Seq<u8>>
    decreases lines.len(),
{
    if lines.len() == 0 {
        None
    } else {
        match line_value(lines.last(), prefix) {
            Some(value) => Some(value),
            None => field_value(lines.drop_last(), prefix),
        }
    }
}

/// The metadata that the lines between the markers set. Lines with other
/// keys set nothing.
pub open spec fn metadata_of(lines: Seq<Seq<u8>>) -> MetadataView {
    MetadataView {
        author: field_value(lines, "author: ".spec_bytes()),
        title: field_value(lines, "title: ".spec_bytes()),
        subtitle: field_value(lines, "subtitle: ".spec_bytes()),
    }
}

/// The offset at which the line behind line `k` starts, or the length of the
/// text where line `k` is the last.
pub open spec fn offset_after_line(s: Seq<u8>, k: int) -> int {
    if k + 1 < raw_line_spans(s).len() {
        raw_line_spans(s)[k + 1].0
    } else {
        s.len() as int
    }
}

/// The metadata of a document.
pub open spec fn document_metadata(content: Seq<u8>) -> MetadataView {
    match front_matter_close(raw_lines(content)) {
        Some(k) => metadata_of(raw_lines(content).subrange(1, k)),
        None => MetadataView::none(),
    }
}

/// The document without its front matter.
pub open spec fn document_body(content: Seq<u8>) -> Seq<u8> {
    match front_matter_close(raw_lines(content)) {
        Some(k) => content.skip(offset_after_line(content, k)),
        None => content,
    }
}

/// `marker_line_from` gives the first marker line, and `None` only where no
/// line from `from` on is the marker.
pub proof fn lemma_marker_line_from(lines: Seq<Seq<u8>>, from: int)
    requires
        0 <= from,
    ensures
        match marker_line_from(lines, from) {
            Some(k) => from <= k < lines.len() && lines[k] == marker() && forall|j: int|
                from <= j < k ==> lines[j] != marker(),
            None => forall|j: int| from <= j < lines.len() ==> lines[j] != marker(),
        },
    decreases lines.len() - from,
{
    if from < lines.len() && lines[from] != marker() {
        lemma_marker_line_from(lines, from + 1);
    }
}

/// The body is the document without its front matter and nothing else: the
/// document is the front matter, which ends with its closing line, and then
/// the body.
pub proof fn lemma_body_follows_front_matter(content: Seq<u8>)
    requires
        front_matter_close(raw_lines(content)) is Some,
    ensures
        ({
            let close = front_matter_close(raw_lines(content))->0;
            let end = offset_after_line(content, close);
            &&& 0 < close < raw_lines(content).len()
            &&& 0 <= end <= content.len()
            &&& content == content.take(end) + document_body(content)
        }),
{
    let close = front_matter_close(raw_lines(content))->0;
    let end = offset_after_line(content, close);
    lemma_marker_line_from(raw_lines(content), 1);
    lemma_raw_line_spans_bounds(content, 0);
    if close + 1 < raw_line_spans(content).len() {
        assert(raw_line_spans_from(content, 0)[close + 1] == raw_line_spans(content)[close + 1]);
    }
    assert(content =~= content.take(end) + content.skip(end));
}

/// A marker line from which no earlier line is the marker is the one that
/// `marker_line_from` gives.
pub proof fn lemma_marker_line_from_is(lines: Seq<Seq<u8>>, from: int, k: int)
    requires
        0 <= from <= k < lines.len(),
        lines[k] == marker(),
        forall|j: int| from <= j < k ==> lines[j] != marker(),
    ensures
        marker_line_from(lines, from) == Some(k),
    decreases k - from,
{
    if from < k {
        lemma_marker_line_from_is(lines, from + 1, k);
    }
}

/// The marker with its line feed.
pub open spec fn marker_line() -> Seq<u8> {
    marker().push(NEWLINE)
}

/// Whether `block` can stand between two marker lines: it is zero or more
/// lines, each ended by a line feed, and none of them is the marker.
pub open spec fn is_block(block: Seq<u8>) -> bool {
    &&& block.len() == 0 || block.last() == NEWLINE
    &&& forall|k: int| 0 <= k < raw_lines(block).len() ==> #[trigger] raw_lines(block)[k] != marker()
}

/// The marker line is one line, the marker.
pub proof fn lemma_marker_line()
    ensures
        marker_line().len() == 4,
        marker_line().last() == NEWLINE,
        raw_line_spans(marker_line()) == seq![(0int, 3int)],
        raw_lines(marker_line()) == seq![marker()],
{
    reveal_strlit("---");
    assert(is_ascii("---"));
    is_ascii_spec_bytes("---");
    let line = marker_line();
    assert(marker().len() == 3);
    assert(line[0] != NEWLINE && line[1] != NEWLINE && line[2] != NEWLINE);
    lemma_line_break_is(line, 0, 3);
    assert(raw_line_spans_from(line, 4) =~= Seq::<(int, int)>::empty());
    assert(raw_line_spans(line) =~= seq![(0int, 3int)]);
    assert(line.subrange(0, 3) =~= marker());
    assert(raw_lines(line) =~= seq![marker()]);
}

/// A document that is a marker line, a block, a marker line and a rest has
/// the metadata that the lines of the block set, and the rest is its body,
/// byte for byte.
pub proof fn lemma_front_matter_is_cut_out(block: Seq<u8>, rest: Seq<u8>)
    requires
        is_block(block),
    ensures
        front_matter_close(raw_lines(marker_line() + block + marker_line() + rest)) == Some(
            raw_lines(block).len() as int + 1,
        ),
        document_metadata(marker_line() + block + marker_line() + rest) == metadata_of(
            raw_lines(block),
        ),
        document_body(marker_line() + block + marker_line() + rest) == rest,
{
    let open = marker_line();
    let document = open + block + open + rest;
    let closing = open + rest;
    let tail = block + closing;
    lemma_marker_line();
    assert(document =~= open + tail);
    lemma_raw_lines_concat(open, rest);
    lemma_raw_lines_concat(block, closing);
    lemma_raw_lines_concat(open, tail);
    let inner = raw_lines(block);
    let all = raw_lines(document);
    let close: int = inner.len() as int + 1;
    assert(all =~= seq![marker()] + inner + seq![marker()] + raw_lines(rest));
    assert(all[0] == marker());
    assert(all[close] == marker());
    assert forall|j: int| 1 <= j < close implies all[j] != marker() by {
        assert(all[j] == inner[j - 1]);
    }
    lemma_marker_line_from_is(all, 1, close);
    assert(all.subrange(1, close) =~= inner);
    let spans = raw_line_spans(document);
    let cut: int = block.len() as int + 8;
    assert(raw_line_spans(block).len() == inner.len());
    if rest.len() > 0 {
        let first = raw_line_spans(rest)[0];
        assert(first.0 == 0);
        assert(raw_line_spans(closing)[1] == (first.0 + 4, first.1 + 4));
        assert(raw_line_spans(tail)[close] == (first.0 + 4 + block.len(), first.1 + 4 + block.len()));
        assert(spans[close + 1].0 == cut);
    } else {
        assert(raw_line_spans(rest) =~= Seq::<(int, int)>::empty());
        assert(spans.len() == close + 1);
    }
    assert(offset_after_line(document, close) == cut);
    assert(document.skip(cut) =~= rest);
}

/// The slide delimiter is not empty.
pub proof fn lemma_slide_delimiter()
    ensures
        slide_delimiter().len() == 18,
{
    reveal_strlit("<!-- end_slide -->");
    assert(is_ascii("<!-- end_slide -->"));
    is_ascii_spec_bytes("<!-- end_slide -->");
}

/// The value that the lines `lines[from..to]` of the document give to one
/// field.
fn read_field(
    content: &[u8],
    spans: &Vec<(usize, usize)>,
    from: usize,
    to: usize,
    prefix: &[u8],
) -> (value: Option<Vec<u8>>)
    requires
        spans_are(spans@, raw_line_spans(content@)),
        from <= to <= spans@.len(),
    ensures
        text_view(value) == field_value(
            raw_lines(content@).subrange(from as int, to as int),
            prefix@,
        ),
{
    let mut value: Option<Vec<u8>> = None;
    let mut k: usize = from;
    let ghost all = raw_lines(content@);
    assert(all.subrange(from as int, from as int) =~= Seq::<Seq<u8>>::empty());
    while k < to
        invariant
            from <= k <= to <= spans@.len(),
            spans_are(spans@, raw_line_spans(content@)),
            all == raw_lines(content@),
            text_view(value) == field_value(all.subrange(from as int, k as int), prefix@),
        decreases to - k,
    {
        let line = raw_line_at(content, spans, k);
        proof {
            let upto = all.subrange(from as int, k + 1);
            assert(upto.drop_last() =~= all.subrange(from as int, k as int));
            assert(upto.last() == line@);
        }
        if has_prefix(line, prefix) {
            let rest = slice_subrange(line, prefix.len(), line.len());
            value = Some(slice_to_vec(trim_bytes(rest)));
        }
        k += 1;
    }
    value
}

/// Reads the front matter of a document. Front matter is a first line `---`,
/// lines of the form `key: value`, and a closing line `---`; lines end at a
/// line feed, and a marker line holds nothing but the three hyphens. The keys
/// `author`, `title` and `subtitle` set the metadata, the last line of a key
/// deciding; the body is what follows the closing line. A document that does
/// not begin with such a block has no metadata, and is its own body.
pub fn parse_metadata(content: &[u8]) -> (result: (Metadata, Vec<u8>))
    ensures
        result.0@ == document_metadata(content@),
        result.1@ == document_body(content@),
        front_matter_close(raw_lines(content@)) is None ==> result.0@ == MetadataView::none()
            && result.1@ == content@,
{
    let spans = split_raw_line_spans(content);
    let ghost all = raw_lines(content@);
    let absent = Metadata { author: None, title: None, subtitle: None };
    if spans.len() == 0 || !bytes_eq(raw_line_at(content, &spans, 0), "---".as_bytes()) {
        return (absent, slice_to_vec(content));
    }
    let mut k: usize = 1;
    while k < spans.len() && !bytes_eq(raw_line_at(content, &spans, k), "---".as_bytes())
        invariant
            1 <= k <= spans@.len(),
            spans_are(spans@, raw_line_spans(content@)),
            all == raw_lines(content@),
            forall|j: int| 1 <= j < k ==> all[j] != marker(),
        decreases spans@.len() - k,
    {
        k += 1;
    }
    proof {
        lemma_marker_line_from(all, 1);
    }
    if k == spans.len() {
        return (absent, slice_to_vec(content));
    }
    let metadata = Metadata {
        author: read_field(content, &spans, 1, k, "author: ".as_bytes()),
        title: read_field(content, &spans, 1, k, "title: ".as_bytes()),
        subtitle: read_field(content, &spans, 1, k, "subtitle: ".as_bytes()),
    };
    let start = if k + 1 < spans.len() {
        proof {
            lemma_raw_line_spans_bounds(content@, 0);
            assert(raw_line_spans_from(content@, 0)[k + 1].0 == spans@[k + 1].0);
        }
        spans[k + 1].0
    } else {
        content.len()
    };
    (metadata, copy_range(content, start, content.len()))
}

/// Splits the body of a document into its slides at every slide delimiter.
/// There is always at least one slide: a body without a delimiter is one
/// slide, and so is an empty body.
pub fn split_into_slides(body: &[u8]) -> (slides: Vec<Vec<u8>>)
    ensures
        views(slides@) == split(body@, slide_delimiter()),
        slides@.len() >= 1,
        join(views(slides@), slide_delimiter()) == body@,
        find(body@, slide_delimiter()) is None ==> views(slides@) == seq![body@],
        body@.len() == 0 ==> views(slides@) == seq![Seq::<u8>::empty()],
{
    let slides = split_bytes(body, "<!-- end_slide -->".as_bytes());
    proof {
        lemma_split_join(body@, slide_delimiter(), 0);
        assert(body@.skip(0) =~= body@);
        lemma_slide_delimiter();
        if body@.len() == 0 {
            assert(body@ =~= Seq::<u8>::empty());
        }
    }
    slides
}

} // verus!
