//! Syntax highlighting: token kinds, the capture table, ordering of tokens,
//! and the merge of tokens onto a line of code. The captures themselves come
//! from the syntax oracle.

use crate::colors::{Rgb, Theme};
use crate::oracle::{
    found_view, java_highlights, python_highlights, query_java, query_python, query_rust,
    rust_highlights,
};
use crate::text::{bytes_eq, copy_range};
use vstd::prelude::*;
use vstd::string::StringSliceAdditionalSpecFns;

verus! {

/// The classes of syntax that are told apart by color.
#[derive(Clone, Copy, Debug, PartialEq, Eq, Structural)]
pub enum SyntaxKind {
    Keyword,
    Bracket,
    Delimiter,
    Conditional,
    Repeat,
    Constant,
    Function,
    Type,
    String,
    Number,
    Comment,
    Variable,
    Parameter,
    Operator,
    Default,
}

impl SyntaxKind {
    /// The color of each kind. Keywords, functions, types and variables
    /// follow the theme; every other kind has a color of its own that no
    /// theme changes.
    pub open spec fn color_in(self, theme: Theme) -> Rgb {
        match self {
            SyntaxKind::Keyword => theme.theme_colors().primary,
            SyntaxKind::Conditional => Rgb { r: 247, g: 118, b: 142 },
            SyntaxKind::Constant => Rgb { r: 217, g: 118, b: 142 },
            SyntaxKind::Repeat => Rgb { r: 117, g: 118, b: 142 },
            SyntaxKind::Delimiter => Rgb { r: 155, g: 118, b: 142 },
            SyntaxKind::Bracket => Rgb { r: 247, g: 158, b: 142 },
            SyntaxKind::Function => theme.theme_colors().secondary,
            SyntaxKind::Type => theme.theme_colors().tertiary,
            SyntaxKind::String => Rgb { r: 158, g: 206, b: 106 },
            SyntaxKind::Number => Rgb { r: 247, g: 118, b: 142 },
            SyntaxKind::Comment => Rgb { r: 150, g: 150, b: 150 },
            SyntaxKind::Variable => theme.theme_colors().accent,
            SyntaxKind::Parameter => Rgb { r: 224, g: 175, b: 104 },
            SyntaxKind::Operator => Rgb { r: 187, g: 154, b: 247 },
            SyntaxKind::Default => Rgb { r: 255, g: 255, b: 255 },
        }
    }

    /// The kind that a capture name stands for. A name outside the table is
    /// `Default`.
    pub open spec fn of_capture(name: Seq<u8>) -> SyntaxKind {
        if name == "keyword".spec_bytes() {
            SyntaxKind::Keyword
        } else if name == "constant".spec_bytes() {
            SyntaxKind::Constant
        } else if name == "keyword.conditional".spec_bytes() {
            SyntaxKind::Conditional
        } else if name == "keyword.repeat".spec_bytes() {
            SyntaxKind::Repeat
        } else if name == "punctuation.bracket".spec_bytes() {
            SyntaxKind::Bracket
        } else if name == "punctuation.delimiter".spec_bytes() {
            SyntaxKind::Delimiter
        } else if name == "function".spec_bytes() {
            SyntaxKind::Function
        } else if name == "type".spec_bytes() {
            SyntaxKind::Type
        } else if name == "string".spec_bytes() {
            SyntaxKind::String
        } else if name == "number".spec_bytes() {
            SyntaxKind::Number
        } else if name == "comment".spec_bytes() {
            SyntaxKind::Comment
        } else if name == "variable".spec_bytes() {
            SyntaxKind::Variable
        } else if name == "variable.parameter".spec_bytes() {
            SyntaxKind::Parameter
        } else if name == "operator".spec_bytes() {
            SyntaxKind::Operator
        } else {
            SyntaxKind::Default
        }
    }

/// The color of this kind in `theme`.
    pub fn color(&self, theme: &Theme) -> (color: Rgb)
        ensures
            color == self.color_in(*theme),
    {
        match self {
            SyntaxKind::Keyword => theme.get_theme_colors().primary,
            SyntaxKind::Conditional => Rgb { r: 247, g: 118, b: 142 },
            SyntaxKind::Constant => Rgb { r: 217, g: 118, b: 142 },
            SyntaxKind::Repeat => Rgb { r: 117, g: 118, b: 142 },
            SyntaxKind::Delimiter => Rgb { r: 155, g: 118, b: 142 },
            SyntaxKind::Bracket => Rgb { r: 247, g: 158, b: 142 },
            SyntaxKind::Function => theme.get_theme_colors().secondary,
            SyntaxKind::Type => theme.get_theme_colors().tertiary,
            SyntaxKind::String => Rgb { r: 158, g: 206, b: 106 },
            SyntaxKind::Number => Rgb { r: 247, g: 118, b: 142 },
            SyntaxKind::Comment => Rgb { r: 150, g: 150, b: 150 },
            SyntaxKind::Variable => theme.get_theme_colors().accent,
            SyntaxKind::Parameter => Rgb { r: 224, g: 175, b: 104 },
            SyntaxKind::Operator => Rgb { r: 187, g: 154, b: 247 },
            SyntaxKind::Default => Rgb { r: 255, g: 255, b: 255 },
        }
    }

/// The kind that a capture name stands for.
    pub fn from_capture(name: &[u8]) -> (kind: SyntaxKind)
        ensures
            kind == SyntaxKind::of_capture(name@),
    {
        if bytes_eq(name, "keyword".as_bytes()) {
            SyntaxKind::Keyword
        } else if bytes_eq(name, "constant".as_bytes()) {
            SyntaxKind::Constant
        } else if bytes_eq(name, "keyword.conditional".as_bytes()) {
            SyntaxKind::Conditional
        } else if bytes_eq(name, "keyword.repeat".as_bytes()) {
            SyntaxKind::Repeat
        } else if bytes_eq(name, "punctuation.bracket".as_bytes()) {
            SyntaxKind::Bracket
        } else if bytes_eq(name, "punctuation.delimiter".as_bytes()) {
            SyntaxKind::Delimiter
        } else if bytes_eq(name, "function".as_bytes()) {
            SyntaxKind::Function
        } else if bytes_eq(name, "type".as_bytes()) {
            SyntaxKind::Type
        } else if bytes_eq(name, "string".as_bytes()) {
            SyntaxKind::String
        } else if bytes_eq(name, "number".as_bytes()) {
            SyntaxKind::Number
        } else if bytes_eq(name, "comment".as_bytes()) {
            SyntaxKind::Comment
        } else if bytes_eq(name, "variable".as_bytes()) {
            SyntaxKind::Variable
        } else if bytes_eq(name, "variable.parameter".as_bytes()) {
            SyntaxKind::Parameter
        } else if bytes_eq(name, "operator".as_bytes()) {
            SyntaxKind::Operator
        } else {
            SyntaxKind::Default
        }
    }
}

/// A span of code with its kind. `start` and `end` are byte offsets into the
/// content of a code block, `end` excluded.
#[derive(Clone, Copy, Debug, PartialEq, Eq, Structural)]
pub struct SyntaxToken {
    pub kind: SyntaxKind,
    pub start: usize,
    pub end: usize,
}

/// A named node that a highlight query found: the name of the capture, then
/// the byte range of the node, from the offset of its first byte to the
/// offset behind its last byte.
#[derive(Debug, PartialEq, Eq)]
pub struct Capture(pub Vec<u8>, pub core::ops::Range<usize>);

impl View for Capture {
    type V = (Seq<u8>, usize, usize);

    open spec fn view(&self) -> (Seq<u8>, usize, usize) {
        (self.0@, self.1.start, self.1.end)
    }
}

/// The views of the captures of `v`.
pub open spec fn capture_views(v: Seq<Capture>) -> Seq<(Seq<u8>, usize, usize)> {
    v.map_values(|capture: Capture| capture@)
}

/// The token that a capture stands for: the kind of its name, over its byte
/// range.
pub open spec fn capture_token(capture: (Seq<u8>, usize, usize)) -> SyntaxToken {
    SyntaxToken { kind: SyntaxKind::of_capture(capture.0), start: capture.1, end: capture.2 }
}

/// Whether the tokens stand in the order of their start offsets.
pub open spec fn sorted_by_start(tokens: Seq<SyntaxToken>) -> bool {
    forall|i: int, j: int| 0 <= i <= j < tokens.len() ==> tokens[i].start <= tokens[j].start
}

/// The tokens that start at `start`, in the order in which they stand.
pub open spec fn starting_at(tokens: Seq<SyntaxToken>, start: usize) -> Seq<SyntaxToken>
    decreases tokens.len(),
{
    if tokens.len() == 0 {
        Seq::empty()
    } else if tokens.last().start == start {
        starting_at(tokens.drop_last(), start).push(tokens.last())
    } else {
        starting_at(tokens.drop_last(), start)
    }
}

/// Whether `output` is `input` sorted by start offset with tokens of equal
/// start left in their order. At most one `output` is that for an `input`.
pub open spec fn is_stable_sort(input: Seq<SyntaxToken>, output: Seq<SyntaxToken>) -> bool {
    &&& sorted_by_start(output)
    &&& forall|start: usize| starting_at(output, start) == starting_at(input, start)
}

/// The tokens that start at an offset, taken from two sequences one after
/// the other, are those of the first and then those of the second.
pub proof fn lemma_starting_at_concat(a: Seq<SyntaxToken>, b: Seq<SyntaxToken>, start: usize)
    ensures
        starting_at(a + b, start) == starting_at(a, start) + starting_at(b, start),
    decreases b.len(),
{
    if b.len() == 0 {
        assert(a + b =~= a);
        assert(starting_at(a, start) + starting_at(b, start) =~= starting_at(a, start));
    } else {
        assert((a + b).drop_last() =~= a + b.drop_last());
        lemma_starting_at_concat(a, b.drop_last(), start);
        if b.last().start == start {
            assert(starting_at(a, start) + starting_at(b.drop_last(), start).push(b.last())
                =~= (starting_at(a, start) + starting_at(b.drop_last(), start)).push(b.last()));
        }
    }
}

/// Where no token starts at an offset, none is taken.
pub proof fn lemma_starting_at_none(tokens: Seq<SyntaxToken>, start: usize)
    requires
        forall|i: int| 0 <= i < tokens.len() ==> tokens[i].start != start,
    ensures
        starting_at(tokens, start) == Seq::<SyntaxToken>::empty(),
    decreases tokens.len(),
{
    if tokens.len() > 0 {
        lemma_starting_at_none(tokens.drop_last(), start);
    }
}

/// Of a single token, the token itself is taken where it starts at the
/// offset, and nothing otherwise.
pub proof fn lemma_starting_at_single(token: SyntaxToken, start: usize)
    ensures
        starting_at(seq![token], start) == if token.start == start {
            seq![token]
        } else {
            Seq::<SyntaxToken>::empty()
        },
{
    reveal_with_fuel(starting_at, 2);
    assert(seq![token].drop_last() =~= Seq::<SyntaxToken>::empty());
    assert(Seq::<SyntaxToken>::empty().push(token) =~= seq![token]);
}

/// A token that starts at `start` stands among tokens of which some start
/// there.
pub proof fn lemma_starting_at_some(tokens: Seq<SyntaxToken>, start: usize)
    requires
        starting_at(tokens, start).len() > 0,
    ensures
        exists|i: int| 0 <= i < tokens.len() && #[trigger] tokens[i].start == start,
{
    if forall|i: int| 0 <= i < tokens.len() ==> #[trigger] tokens[i].start != start {
        lemma_starting_at_none(tokens, start);
    }
}

/// Two stable sorts of one input that are not empty end in the same start
/// offset.
proof fn lemma_stable_sorts_end_alike(a: Seq<SyntaxToken>, b: Seq<SyntaxToken>)
    requires
        sorted_by_start(a),
        sorted_by_start(b),
        forall|start: usize| starting_at(a, start) == starting_at(b, start),
        a.len() > 0,
    ensures
        b.len() > 0,
        a.last().start <= b.last().start,
{
    let m = a.last().start;
    assert(starting_at(a, m).len() > 0);
    lemma_starting_at_some(b, m);
    let i = choose|i: int| 0 <= i < b.len() && #[trigger] b[i].start == m;
    assert(b[i].start <= b[b.len() - 1].start);
}

/// An input has one stable sort and no other.
pub proof fn lemma_stable_sort_unique(
    input: Seq<SyntaxToken>,
    a: Seq<SyntaxToken>,
    b: Seq<SyntaxToken>,
)
    requires
        is_stable_sort(input, a),
        is_stable_sort(input, b),
    ensures
        a == b,
    decreases a.len(),
{
    if a.len() == 0 {
        if b.len() > 0 {
            lemma_stable_sorts_end_alike(b, a);
        }
        assert(a =~= b);
    } else {
        lemma_stable_sorts_end_alike(a, b);
        lemma_stable_sorts_end_alike(b, a);
        let m = a.last().start;
        let shorter_a = a.drop_last();
        let shorter_b = b.drop_last();
        assert(starting_at(a, m) == starting_at(b, m));
        assert(starting_at(a, m) == starting_at(shorter_a, m).push(a.last()));
        assert(starting_at(b, m) == starting_at(shorter_b, m).push(b.last()));
        assert(a.last() == b.last()) by {
            assert(starting_at(a, m).last() == a.last());
            assert(starting_at(b, m).last() == b.last());
        }
        assert(starting_at(shorter_a, m) =~= starting_at(a, m).drop_last());
        assert(starting_at(shorter_b, m) =~= starting_at(b, m).drop_last());
        assert forall|start: usize| starting_at(shorter_b, start) == starting_at(
            shorter_a,
            start,
        ) by {
            assert(starting_at(a, start) == starting_at(b, start));
        }
        assert(sorted_by_start(shorter_a)) by {
            assert forall|i: int, j: int| 0 <= i <= j < shorter_a.len() implies shorter_a[i].start
                <= shorter_a[j].start by {
                assert(a[i].start <= a[j].start);
            }
        }
        assert(sorted_by_start(shorter_b)) by {
            assert forall|i: int, j: int| 0 <= i <= j < shorter_b.len() implies shorter_b[i].start
                <= shorter_b[j].start by {
                assert(b[i].start <= b[j].start);
            }
        }
        lemma_stable_sort_unique(shorter_a, shorter_a, shorter_b);
        assert(a =~= shorter_a.push(a.last()));
        assert(b =~= shorter_b.push(b.last()));
    }
}

/// The tokens of the captures, in the captures' order.
pub open spec fn capture_tokens(captures: Seq<(Seq<u8>, usize, usize)>) -> Seq<SyntaxToken> {
    captures.map_values(|capture: (Seq<u8>, usize, usize)| capture_token(capture))
}

/// Where a token that starts at `start` goes among sorted tokens: behind the
/// last one that starts no later.
pub open spec fn slot(sorted: Seq<SyntaxToken>, start: usize) -> int
    decreases sorted.len(),
{
    if sorted.len() > 0 && sorted.last().start > start {
        slot(sorted.drop_last(), start)
    } else {
        sorted.len() as int
    }
}

/// Every token from the slot on starts later, and the token before the slot
/// starts no later.
pub proof fn lemma_slot(sorted: Seq<SyntaxToken>, start: usize)
    ensures
        0 <= slot(sorted, start) <= sorted.len(),
        forall|j: int| slot(sorted, start) <= j < sorted.len() ==> sorted[j].start > start,
        slot(sorted, start) > 0 ==> sorted[slot(sorted, start) - 1].start <= start,
    decreases sorted.len(),
{
    if sorted.len() > 0 && sorted.last().start > start {
        let shorter = sorted.drop_last();
        lemma_slot(shorter, start);
        assert forall|j: int| slot(sorted, start) <= j < sorted.len() implies sorted[j].start
            > start by {
            if j < shorter.len() {
                assert(sorted[j] == shorter[j]);
            }
        }
        if slot(sorted, start) > 0 {
            assert(sorted[slot(sorted, start) - 1] == shorter[slot(shorter, start) - 1]);
        }
    }
}

/// A stable sort with one more token put into its slot is the stable sort
/// of the input with that token at its end.
pub proof fn lemma_insert_keeps_sort(
    input: Seq<SyntaxToken>,
    sorted: Seq<SyntaxToken>,
    token: SyntaxToken,
    at: int,
)
    requires
        is_stable_sort(input, sorted),
        0 <= at <= sorted.len(),
        forall|j: int| at <= j < sorted.len() ==> sorted[j].start > token.start,
        at > 0 ==> sorted[at - 1].start <= token.start,
    ensures
        is_stable_sort(input.push(token), sorted.take(at) + seq![token] + sorted.skip(at)),
{
    let head = sorted.take(at);
    let tail = sorted.skip(at);
    let after = head + seq![token] + tail;
    assert(sorted =~= head + tail);
    assert(sorted_by_start(after)) by {
        assert forall|i: int, j: int| 0 <= i <= j < after.len() implies after[i].start
            <= after[j].start by {
            if i < at && j == at {
                assert(sorted[i].start <= sorted[at - 1].start);
            }
        }
    }
    assert forall|start: usize| starting_at(after, start) == starting_at(
        input.push(token),
        start,
    ) by {
        lemma_starting_at_concat(head + seq![token], tail, start);
        lemma_starting_at_concat(head, seq![token], start);
        lemma_starting_at_concat(head, tail, start);
        lemma_starting_at_concat(input, seq![token], start);
        assert(input.push(token) =~= input + seq![token]);
        lemma_starting_at_single(token, start);
        assert(starting_at(sorted, start) == starting_at(input, start));
        if token.start == start {
            lemma_starting_at_none(tail, start);
        }
    }
}

/// Every sequence of tokens has a stable sort.
pub proof fn lemma_stable_sort_exists(input: Seq<SyntaxToken>)
    ensures
        exists|output: Seq<SyntaxToken>| is_stable_sort(input, output),
    decreases input.len(),
{
    if input.len() == 0 {
        assert(is_stable_sort(input, input));
    } else {
        let shorter = input.drop_last();
        lemma_stable_sort_exists(shorter);
        let sorted = choose|output: Seq<SyntaxToken>| is_stable_sort(shorter, output);
        let token = input.last();
        lemma_slot(sorted, token.start);
        let at = slot(sorted, token.start);
        lemma_insert_keeps_sort(shorter, sorted, token, at);
        assert(shorter.push(token) =~= input);
        assert(is_stable_sort(input, sorted.take(at) + seq![token] + sorted.skip(at)));
    }
}

/// The tokens sorted by start offset, tokens of equal start left in their
/// order.
pub open spec fn stable_sort(input: Seq<SyntaxToken>) -> Seq<SyntaxToken> {
    choose|output: Seq<SyntaxToken>| is_stable_sort(input, output)
}

/// `stable_sort` gives the stable sort of its input, and it is the only one.
pub proof fn lemma_stable_sort(input: Seq<SyntaxToken>, output: Seq<SyntaxToken>)
    ensures
        is_stable_sort(input, stable_sort(input)),
        is_stable_sort(input, output) ==> output == stable_sort(input),
{
    lemma_stable_sort_exists(input);
    if is_stable_sort(input, output) {
        lemma_stable_sort_unique(input, output, stable_sort(input));
    }
}

/// Puts `token` behind the last token of `sorted` that starts no later.
fn insert_by_start(sorted: &mut Vec<SyntaxToken>, token: SyntaxToken, Ghost(input): Ghost<
    Seq<SyntaxToken>,
>)
    requires
        is_stable_sort(input, old(sorted)@),
    ensures
        is_stable_sort(input.push(token), final(sorted)@),
        final(sorted)@.len() == old(sorted)@.len() + 1,
{
    let mut at: usize = sorted.len();
    while at > 0 && sorted[at - 1].start > token.start
        invariant
            at <= sorted@.len(),
            sorted@ == old(sorted)@,
            forall|j: int| at <= j < sorted@.len() ==> sorted@[j].start > token.start,
        decreases at,
    {
        at -= 1;
    }
    let ghost before = sorted@;
    sorted.insert(at, token);
    proof {
        lemma_insert_keeps_sort(input, before, token, at as int);
        assert(sorted@ =~= before.take(at as int) + seq![token] + before.skip(at as int));
    }
}

/// The tokens of the captures, sorted by start offset; tokens that start at
/// one offset keep the order of their captures.
pub fn tokens_from_captures(captures: &Vec<Capture>) -> (tokens: Vec<SyntaxToken>)
    ensures
        tokens@ == stable_sort(capture_tokens(capture_views(captures@))),
        is_stable_sort(capture_tokens(capture_views(captures@)), tokens@),
        tokens@.len() == captures@.len(),
{
    let mut tokens: Vec<SyntaxToken> = Vec::new();
    let mut i: usize = 0;
    let ghost all = capture_tokens(capture_views(captures@));
    assert(all.take(0) =~= Seq::<SyntaxToken>::empty());
    while i < captures.len()
        invariant
            i <= captures@.len(),
            tokens@.len() == i,
            all == capture_tokens(capture_views(captures@)),
            all.len() == captures@.len(),
            is_stable_sort(all.take(i as int), tokens@),
        decreases captures@.len() - i,
    {
        let capture = &captures[i];
        let token = SyntaxToken {
            kind: SyntaxKind::from_capture(capture.0.as_slice()),
            start: capture.1.start,
            end: capture.1.end,
        };
        let ghost done = all.take(i as int);
        proof {
            assert(capture_views(captures@)[i as int] == capture@);
            assert(all[i as int] == token);
            assert(all.take(i + 1) =~= done.push(token));
        }
        insert_by_start(&mut tokens, token, Ghost(done));
        i += 1;
    }
    proof {
        assert(all.take(captures@.len() as int) =~= all);
        lemma_stable_sort(all, tokens@);
    }
    tokens
}

/// A piece of a line of code: its bytes, and the kind that colors them, if
/// any.
#[derive(Debug, PartialEq, Eq)]
pub struct Segment {
    pub kind: Option<SyntaxKind>,
    pub text: Vec<u8>,
}

impl View for Segment {
    type V = (Option<SyntaxKind>, Seq<u8>);

    open spec fn view(&self) -> (Option<SyntaxKind>, Seq<u8>) {
        (self.kind, self.text@)
    }
}

/// The views of the segments of `v`.
pub open spec fn segment_views(v: Seq<Segment>) -> Seq<(Option<SyntaxKind>, Seq<u8>)> {
    v.map_values(|segment: Segment| segment@)
}

/// Whether `token` covers the byte at offset `at` of the content. A token
/// whose end is not behind its start covers nothing.
pub open spec fn covers(token: SyntaxToken, at: int) -> bool {
    token.start <= at < token.end
}

/// The index of the first token from index `from` on that covers the byte at
/// `at`.
pub open spec fn first_covering(tokens: Seq<SyntaxToken>, at: int, from: int) -> Option<int>
    decreases tokens.len() - from,
{
    if from < 0 || from >= tokens.len() {
        None
    } else if covers(tokens[from], at) {
        Some(from)
    } else {
        first_covering(tokens, at, from + 1)
    }
}

/// The token that decides the color of the byte at `at`: the first one in
/// the sequence that covers it. Among sorted tokens that is the one that
/// starts first, and of those that start together the one that stands first.
pub open spec fn coloring(tokens: Seq<SyntaxToken>, at: int) -> Option<int> {
    first_covering(tokens, at, 0)
}

/// The least offset from `from` up to `line_end` whose byte some token
/// covers, or `line_end` where none is covered.
pub open spec fn next_covered(tokens: Seq<SyntaxToken>, line_end: int, from: int) -> int
    decreases line_end - from,
{
    if from >= line_end {
        line_end
    } else if coloring(tokens, from) is Some {
        from
    } else {
        next_covered(tokens, line_end, from + 1)
    }
}

/// Where the segment that starts at offset `at` of the content ends, on a
/// line that ends at offset `line_end`: at the end of the token that decides
/// the color of the byte at `at`, or at the next covered byte where no
/// token covers that byte, and at the end of the line at the latest.
pub open spec fn segment_end(tokens: Seq<SyntaxToken>, line_end: int, at: int) -> int {
    match coloring(tokens, at) {
        Some(k) => if tokens[k].end < line_end {
            tokens[k].end as int
        } else {
            line_end
        },
        None => next_covered(tokens, line_end, at + 1),
    }
}

/// The segments of `line` from its offset `pos` on, where `line` holds the
/// bytes of the content from offset `line_start` on. From left to right:
/// bytes that no token covers form a segment without a kind up to the next
/// covered byte; at a covered byte the segment has the kind of the token
/// that decides its color and runs to the end of that token, or of the
/// line.
pub open spec fn merge_from(line: Seq<u8>, line_start: int, tokens: Seq<SyntaxToken>, pos: int)
    -> Seq<(Option<SyntaxKind>, Seq<u8>)>
    decreases line.len() - pos,
{
    let line_end = line_start + line.len();
    if pos < 0 || pos >= line.len() {
        Seq::empty()
    } else {
        let stop = segment_end(tokens, line_end, line_start + pos) - line_start;
        proof {
            lemma_segment_end(tokens, line_end, line_start + pos);
        }
        let kind = match coloring(tokens, line_start + pos) {
            Some(k) => Some(tokens[k].kind),
            None => None,
        };
        seq![(kind, line.subrange(pos, stop))] + merge_from(line, line_start, tokens, stop)
    }
}

/// The segments of `line`, which holds the bytes of the content from offset
/// `line_start` on.
pub open spec fn merge(line: Seq<u8>, line_start: int, tokens: Seq<SyntaxToken>) -> Seq<
    (Option<SyntaxKind>, Seq<u8>),
> {
    merge_from(line, line_start, tokens, 0)
}

/// The bytes of the segments, one after the other.
pub open spec fn segments_text(segments: Seq<(Option<SyntaxKind>, Seq<u8>)>) -> Seq<u8>
    decreases segments.len(),
{
    if segments.len() == 0 {
        Seq::empty()
    } else {
        segments[0].1 + segments_text(segments.drop_first())
    }
}

/// The text of some segments with one more is their text with the bytes of
/// that one behind it.
pub proof fn lemma_segments_text_push(
    segments: Seq<(Option<SyntaxKind>, Seq<u8>)>,
    last: (Option<SyntaxKind>, Seq<u8>),
)
    ensures
        segments_text(segments.push(last)) == segments_text(segments) + last.1,
    decreases segments.len(),
{
    let all = segments.push(last);
    if segments.len() == 0 {
        reveal_with_fuel(segments_text, 2);
        assert(all.drop_first() =~= Seq::empty());
        assert(segments_text(all) =~= last.1);
        assert(segments_text(segments) + last.1 =~= last.1);
    } else {
        assert(all.drop_first() =~= segments.drop_first().push(last));
        lemma_segments_text_push(segments.drop_first(), last);
        assert(segments[0].1 + (segments_text(segments.drop_first()) + last.1) =~= (segments[0].1
            + segments_text(segments.drop_first())) + last.1);
    }
}

/// `first_covering` gives the first token that covers the byte, and `None`
/// only where none covers it.
pub proof fn lemma_first_covering(tokens: Seq<SyntaxToken>, at: int, from: int)
    requires
        0 <= from,
    ensures
        match first_covering(tokens, at, from) {
            Some(k) => from <= k < tokens.len() && covers(tokens[k], at) && forall|j: int|
                from <= j < k ==> !covers(tokens[j], at),
            None => forall|j: int| from <= j < tokens.len() ==> !covers(tokens[j], at),
        },
    decreases tokens.len() - from,
{
    if from < tokens.len() && !covers(tokens[from], at) {
        lemma_first_covering(tokens, at, from + 1);
    }
}

/// `next_covered` gives the first covered offset, and the end of the line
/// only where no byte up to there is covered.
pub proof fn lemma_next_covered(tokens: Seq<SyntaxToken>, line_end: int, from: int)
    requires
        from <= line_end,
    ensures
        from <= next_covered(tokens, line_end, from) <= line_end,
        forall|q: int|
            from <= q < next_covered(tokens, line_end, from) ==> coloring(tokens, q) is None,
        next_covered(tokens, line_end, from) < line_end ==> coloring(
            tokens,
            next_covered(tokens, line_end, from),
        ) is Some,
    decreases line_end - from,
{
    if from < line_end && coloring(tokens, from) is None {
        lemma_next_covered(tokens, line_end, from + 1);
    }
}

/// A segment that starts inside the line ends behind its start and inside
/// the line.
pub proof fn lemma_segment_end(tokens: Seq<SyntaxToken>, line_end: int, at: int)
    requires
        at < line_end,
    ensures
        at < segment_end(tokens, line_end, at) <= line_end,
{
    lemma_first_covering(tokens, at, 0);
    lemma_next_covered(tokens, line_end, at + 1);
}

/// The segments hold every byte of the line once and in order: their bytes,
/// one after the other, are the line.
pub proof fn lemma_merge_keeps_text(
    line: Seq<u8>,
    line_start: int,
    tokens: Seq<SyntaxToken>,
    pos: int,
)
    requires
        0 <= pos <= line.len(),
    ensures
        segments_text(merge_from(line, line_start, tokens, pos)) == line.skip(pos),
    decreases line.len() - pos,
{
    if pos < line.len() {
        let line_end = line_start + line.len();
        let stop = segment_end(tokens, line_end, line_start + pos) - line_start;
        lemma_segment_end(tokens, line_end, line_start + pos);
        lemma_merge_keeps_text(line, line_start, tokens, stop);
        let all = merge_from(line, line_start, tokens, pos);
        assert(all.drop_first() =~= merge_from(line, line_start, tokens, stop));
        assert(line.skip(pos) =~= line.subrange(pos, stop) + line.skip(stop));
    } else {
        assert(line.skip(pos) =~= Seq::<u8>::empty());
    }
}

/// Where no token covers any byte from `from` on, the next covered offset is
/// the end of the line.
pub proof fn lemma_uncovered_run(tokens: Seq<SyntaxToken>, line_end: int, from: int)
    requires
        forall|q: int| from <= q < line_end ==> coloring(tokens, q) is None,
    ensures
        next_covered(tokens, line_end, from) == line_end,
    decreases line_end - from,
{
    if from < line_end {
        lemma_uncovered_run(tokens, line_end, from + 1);
    }
}

/// A line on which no token covers a byte is one segment without a kind,
/// and nothing where the line is empty. Tokens that are empty, or that lie
/// before or behind the line, change nothing.
pub proof fn lemma_merge_uncovered(line: Seq<u8>, line_start: int, tokens: Seq<SyntaxToken>)
    requires
        forall|k: int, q: int|
            0 <= k < tokens.len() && line_start <= q < line_start + line.len() ==> !#[trigger] covers(
                tokens[k],
                q,
            ),
    ensures
        merge(line, line_start, tokens) == if line.len() == 0 {
            Seq::<(Option<SyntaxKind>, Seq<u8>)>::empty()
        } else {
            seq![(None::<SyntaxKind>, line)]
        },
{
    let line_end = line_start + line.len();
    if line.len() > 0 {
        assert forall|q: int| line_start <= q < line_end implies coloring(tokens, q) is None by {
            lemma_first_covering(tokens, q, 0);
        }
        lemma_uncovered_run(tokens, line_end, line_start + 1);
        assert(line.subrange(0, line.len() as int) =~= line);
        assert(merge_from(line, line_start, tokens, line.len() as int) =~= Seq::empty());
        assert(merge(line, line_start, tokens) =~= seq![(None::<SyntaxKind>, line)]);
    }
}

/// Without tokens a line that is not empty is one segment without a kind,
/// and an empty line has no segment.
pub proof fn lemma_merge_without_tokens(line: Seq<u8>, line_start: int)
    ensures
        merge(line, line_start, Seq::empty()) == if line.len() == 0 {
            Seq::<(Option<SyntaxKind>, Seq<u8>)>::empty()
        } else {
            seq![(None::<SyntaxKind>, line)]
        },
{
    lemma_merge_uncovered(line, line_start, Seq::empty());
}

/// Among sorted tokens, the one that decides the color of a byte starts no
/// later than any other token that covers that byte, and stands before it.
pub proof fn lemma_coloring_starts_first(tokens: Seq<SyntaxToken>, at: int, other: int)
    requires
        sorted_by_start(tokens),
        0 <= other < tokens.len(),
        covers(tokens[other], at),
    ensures
        coloring(tokens, at) matches Some(k) && k <= other && tokens[k].start
            <= tokens[other].start,
{
    lemma_first_covering(tokens, at, 0);
}

/// The index of the token that decides the color of the byte at `at`.
fn find_coloring(tokens: &[SyntaxToken], at: usize) -> (r: Option<usize>)
    ensures
        match r {
            Some(k) => coloring(tokens@, at as int) == Some(k as int) && k < tokens@.len(),
            None => coloring(tokens@, at as int) is None,
        },
{
    let mut k: usize = 0;
    while k < tokens.len()
        invariant
            k <= tokens@.len(),
            coloring(tokens@, at as int) == first_covering(tokens@, at as int, k as int),
        decreases tokens@.len() - k,
    {
        let token = tokens[k];
        if token.start <= at && at < token.end {
            return Some(k);
        }
        k += 1;
    }
    None
}

/// The segments of `line`, which holds the bytes of the content from offset
/// `line_start` on. Every byte of the line is in one segment, and the
/// segments stand in the order of the bytes.
pub fn merge_line(line: &[u8], line_start: usize, tokens: &[SyntaxToken]) -> (segments: Vec<
    Segment,
>)
    requires
        line_start + line@.len() <= usize::MAX,
    ensures
        segment_views(segments@) == merge(line@, line_start as int, tokens@),
        segments_text(segment_views(segments@)) == line@,
{
    let line_end = line_start + line.len();
    let mut segments: Vec<Segment> = Vec::new();
    let mut pos: usize = 0;
    while pos < line.len()
        invariant
            pos <= line@.len(),
            line_end == line_start + line@.len(),
            merge(line@, line_start as int, tokens@) == segment_views(segments@) + merge_from(
                line@,
                line_start as int,
                tokens@,
                pos as int,
            ),
        decreases line@.len() - pos,
    {
        let at = line_start + pos;
        let ghost done = segment_views(segments@);
        let ghost end = segment_end(tokens@, line_end as int, at as int);
        proof {
            lemma_segment_end(tokens@, line_end as int, at as int);
        }
        let (kind, stop) = match find_coloring(tokens, at) {
            Some(k) => {
                let token = tokens[k];
                let stop = if token.end < line_end {
                    token.end
                } else {
                    line_end
                };
                (Some(token.kind), stop)
            },
            None => {
                let mut q: usize = at + 1;
                while q < line_end && find_coloring(tokens, q).is_none()
                    invariant
                        at < q <= line_end,
                        next_covered(tokens@, line_end as int, at + 1) == next_covered(
                            tokens@,
                            line_end as int,
                            q as int,
                        ),
                    decreases line_end - q,
                {
                    q += 1;
                }
                (None, q)
            },
        };
        assert(stop == end);
        let segment = Segment { kind, text: copy_range(line, pos, stop - line_start) };
        segments.push(segment);
        proof {
            assert(segment_views(segments@) =~= done.push(segment@));
            assert(merge_from(line@, line_start as int, tokens@, pos as int) =~= seq![segment@]
                + merge_from(line@, line_start as int, tokens@, stop - line_start));
        }
        pos = stop - line_start;
    }
    proof {
        assert(merge_from(line@, line_start as int, tokens@, pos as int) =~= Seq::empty());
        lemma_merge_keeps_text(line@, line_start as int, tokens@, 0);
        assert(line@.skip(0) =~= line@);
    }
    segments
}

/// Why a code block could not be highlighted.
#[derive(Debug, PartialEq, Eq)]
pub enum HighlightError {
    /// The parser refused the grammar of a supported language.
    Grammar,
    /// The highlight query of a supported language did not compile; the
    /// message says why.
    QuerySetup(String),
}

/// An error as plain values.
pub enum HighlightErrorView {
    Grammar,
    QuerySetup(Seq<char>),
}

impl View for HighlightError {
    type V = HighlightErrorView;

    open spec fn view(&self) -> HighlightErrorView {
        match self {
            HighlightError::Grammar => HighlightErrorView::Grammar,
            HighlightError::QuerySetup(message) => HighlightErrorView::QuerySetup(message@),
        }
    }
}

/// The languages whose code is highlighted.
#[derive(Clone, Copy, Debug, PartialEq, Eq, Structural)]
pub enum Grammar {
    Rust,
    Java,
    Python,
}

/// The grammar that a language tag names: `rust`, `java` and `python` name
/// one each, and no other tag names any.
pub open spec fn grammar_of_tag(tag: Seq<u8>) -> Option<Grammar> {
    if tag == "rust".spec_bytes() {
        Some(Grammar::Rust)
    } else if tag == "java".spec_bytes() {
        Some(Grammar::Java)
    } else if tag == "python".spec_bytes() {
        Some(Grammar::Python)
    } else {
        None
    }
}

/// Whether code in the language with this tag is highlighted.
pub open spec fn is_supported_language(tag: Seq<u8>) -> bool {
    grammar_of_tag(tag) is Some
}

/// What the oracle finds in `content`, read as code of `grammar`.
pub open spec fn oracle_found(grammar: Grammar, content: Seq<u8>) -> Result<
    Option<Seq<(Seq<u8>, usize, usize)>>,
    Option<Seq<char>>,
> {
    match grammar {
        Grammar::Rust => rust_highlights(content),
        Grammar::Java => java_highlights(content),
        Grammar::Python => python_highlights(content),
    }
}

/// The tokens that follow from what the oracle found: the tokens of the
/// captures, stably sorted by start offset; no tokens where the parser gave
/// no tree; and an error where the grammar was refused or the query did not
/// compile.
pub open spec fn found_tokens(
    found: Result<Option<Seq<(Seq<u8>, usize, usize)>>, Option<Seq<char>>>,
) -> Result<Seq<SyntaxToken>, HighlightErrorView> {
    match found {
        Ok(Some(captures)) => Ok(stable_sort(capture_tokens(captures))),
        Ok(None) => Ok(Seq::empty()),
        Err(None) => Err(HighlightErrorView::Grammar),
        Err(Some(message)) => Err(HighlightErrorView::QuerySetup(message)),
    }
}

/// The tokens of `content`, read as code in the language with tag
/// `language`: those that follow from what the oracle finds, and none for a
/// language that is not highlighted.
pub open spec fn highlighted(language: Seq<u8>, content: Seq<u8>) -> Result<
    Seq<SyntaxToken>,
    HighlightErrorView,
> {
    match grammar_of_tag(language) {
        Some(grammar) => found_tokens(oracle_found(grammar, content)),
        None => Ok(Seq::empty()),
    }
}

/// Tokens or an error, as plain values.
pub open spec fn tokens_view(result: Result<Vec<SyntaxToken>, HighlightError>) -> Result<
    Seq<SyntaxToken>,
    HighlightErrorView,
> {
    match result {
        Ok(tokens) => Ok(tokens@),
        Err(error) => Err(error@),
    }
}

/// The tokens of a highlighted language are sorted.
pub proof fn lemma_highlighted_is_sorted(language: Seq<u8>, content: Seq<u8>)
    ensures
        highlighted(language, content) matches Ok(tokens) ==> sorted_by_start(tokens),
{
    match grammar_of_tag(language) {
        Some(grammar) => {
            match oracle_found(grammar, content) {
                Ok(Some(captures)) => {
                    lemma_stable_sort(capture_tokens(captures), Seq::empty());
                },
                _ => {},
            }
        },
        None => {},
    }
}

/// The grammar that a language tag names, or `None` for a language that is
/// not highlighted.
pub fn get_language_config(lang: &[u8]) -> (config: Option<Grammar>)
    ensures
        config == grammar_of_tag(lang@),
{
    if bytes_eq(lang, "rust".as_bytes()) {
        Some(Grammar::Rust)
    } else if bytes_eq(lang, "java".as_bytes()) {
        Some(Grammar::Java)
    } else if bytes_eq(lang, "python".as_bytes()) {
        Some(Grammar::Python)
    } else {
        None
    }
}

/// The tokens that follow from what the oracle found.
pub fn tokens_of_found(found: Result<Option<Vec<Capture>>, Option<String>>) -> (result: Result<
    Vec<SyntaxToken>,
    HighlightError,
>)
    ensures
        tokens_view(result) == found_tokens(found_view(found)),
{
    match found {
        Ok(Some(captures)) => Ok(tokens_from_captures(&captures)),
        Ok(None) => Ok(Vec::new()),
        Err(None) => Err(HighlightError::Grammar),
        Err(Some(message)) => Err(HighlightError::QuerySetup(message)),
    }
}

/// The tokens of `content`, read as code in `language`: the captures that
/// the oracle finds, each with the kind of its name, stably sorted by start
/// offset. Code in a language that is not highlighted has no tokens, and so
/// has code for which the parser gives no tree. An error comes back where
/// the parser refuses the grammar of the language or its highlight query
/// does not compile.
pub fn parse_syntax(content: &[u8], language: &[u8]) -> (result: Result<
    Vec<SyntaxToken>,
    HighlightError,
>)
    ensures
        tokens_view(result) == highlighted(language@, content@),
        !is_supported_language(language@) ==> (result matches Ok(tokens) && tokens@.len() == 0),
        result matches Ok(tokens) ==> sorted_by_start(tokens@),
{
    let result = match get_language_config(language) {
        None => Ok(Vec::new()),
        Some(Grammar::Rust) => tokens_of_found(query_rust(content)),
        Some(Grammar::Java) => tokens_of_found(query_java(content)),
        Some(Grammar::Python) => tokens_of_found(query_python(content)),
    };
    proof {
        lemma_highlighted_is_sorted(language@, content@);
    }
    result
}

} // verus!
