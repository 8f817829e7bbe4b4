//! The fields of a measurement text.
//!
//! A measurement is plain text with one sample per line. The fields of a line are separated
//! by blanks or commas, and the first two of them are the frequency and the gain. A line with
//! fewer than two fields holds no sample. This module finds the two fields of each line; to
//! read them as numbers is left to the caller.
use vstd::prelude::*;

verus! {

/// The characters that count as blank: those with the property White_Space.
pub open spec fn is_blank(c: char) -> bool {
    let u = c as u32;
    ||| 0x09 <= u <= 0x0d
    ||| u == 0x20
    ||| u == 0x85
    ||| u == 0xa0
    ||| u == 0x1680
    ||| 0x2000 <= u <= 0x200a
    ||| u == 0x2028
    ||| u == 0x2029
    ||| u == 0x202f
    ||| u == 0x205f
    ||| u == 0x3000
}

/// What a scan of the text stops at.
#[derive(Clone, Copy, Debug, PartialEq, Eq, Structural)]
pub enum Mark {
    /// The end of a line.
    Newline,
    /// A blank or a comma.
    Separator,
    /// Any other character: one of a field.
    Field,
}

/// The character is of the kind that the mark names.
pub open spec fn marks(mark: Mark, c: char) -> bool {
    match mark {
        Mark::Newline => c == '\n',
        Mark::Separator => c == ',' || is_blank(c),
        Mark::Field => !(c == ',' || is_blank(c)),
    }
}

/// The first place from `from` on and before `end` at which a character of the kind stands;
/// `end` where there is none.
pub open spec fn first_at(text: Seq<char>, from: int, end: int, mark: Mark) -> int
    decreases end - from,
{
    if from >= end {
        end
    } else if marks(mark, text[from]) {
        from
    } else {
        first_at(text, from + 1, end, mark)
    }
}

/// A stretch of the text, from `start` up to, not including, `end`.
#[derive(Clone, Copy, Debug, PartialEq, Eq, Structural)]
pub struct Span {
    pub start: usize,
    pub end: usize,
}

/// The first two fields of a line.
#[derive(Clone, Copy, Debug, PartialEq, Eq, Structural)]
pub struct Row {
    pub first: Span,
    pub second: Span,
}

/// The first two fields of the line that runs from `start` to `end`, where it has two.
pub open spec fn row_in(text: Seq<char>, start: int, end: int) -> Option<Row> {
    let a = first_at(text, start, end, Mark::Field);
    let b = first_at(text, a, end, Mark::Separator);
    let c = first_at(text, b, end, Mark::Field);
    let d = first_at(text, c, end, Mark::Separator);
    if c < end {
        Some(
            Row {
                first: Span { start: a as usize, end: b as usize },
                second: Span { start: c as usize, end: d as usize },
            },
        )
    } else {
        None
    }
}

/// The rows of the lines that begin at `from` or later, in the order of the lines.
pub open spec fn rows_from(text: Seq<char>, from: int) -> Seq<Row>
    decreases text.len() - from,
{
    if from < 0 || from >= text.len() {
        Seq::empty()
    } else {
        let end = first_at(text, from, text.len() as int, Mark::Newline);
        proof {
            lemma_first_at(text, from, text.len() as int, Mark::Newline);
        }
        let here = match row_in(text, from, end) {
            Some(row) => seq![row],
            None => Seq::empty(),
        };
        if end < text.len() {
            here + rows_from(text, end + 1)
        } else {
            here
        }
    }
}

/// Every character of the stretch is of the kind.
pub open spec fn all_marked(text: Seq<char>, from: int, to: int, mark: Mark) -> bool {
    forall|i: int| from <= i < to ==> marks(mark, #[trigger] text[i])
}

/// The stretch from `from` to `to` is a field of the line that ends at `end`: it is not empty,
/// it holds no separator, and it ends at the end of the line or before a separator.
pub open spec fn is_field(text: Seq<char>, from: int, to: int, end: int) -> bool {
    &&& from < to <= end
    &&& all_marked(text, from, to, Mark::Field)
    &&& (to == end || marks(Mark::Separator, text[to]))
}

/// `row` holds the first two fields of the line that runs from `start` to `end`: before the
/// first field and between the two stand separators only.
pub open spec fn is_row(text: Seq<char>, start: int, end: int, row: Row) -> bool {
    &&& start <= row.first.start
    &&& all_marked(text, start, row.first.start as int, Mark::Separator)
    &&& is_field(text, row.first.start as int, row.first.end as int, end)
    &&& row.first.end < row.second.start
    &&& all_marked(text, row.first.end as int, row.second.start as int, Mark::Separator)
    &&& is_field(text, row.second.start as int, row.second.end as int, end)
}

/// What a scan finds: nothing of the kind stands before the place it returns, and something of
/// the kind stands there unless it is the end.
pub proof fn lemma_first_at(text: Seq<char>, from: int, end: int, mark: Mark)
    requires
        0 <= from <= end <= text.len(),
    ensures
        from <= first_at(text, from, end, mark) <= end,
        forall|i: int|
            from <= i < first_at(text, from, end, mark) ==> !marks(mark, #[trigger] text[i]),
        first_at(text, from, end, mark) < end ==> marks(
            mark,
            text[first_at(text, from, end, mark)],
        ),
    decreases end - from,
{
    if from < end && !marks(mark, text[from]) {
        lemma_first_at(text, from + 1, end, mark);
    }
}

/// A scan is the only place with what it finds.
pub proof fn lemma_first_at_unique(text: Seq<char>, from: int, end: int, mark: Mark, at: int)
    requires
        0 <= from <= at <= end <= text.len(),
        forall|i: int| from <= i < at ==> !marks(mark, #[trigger] text[i]),
        at < end ==> marks(mark, text[at]),
    ensures
        first_at(text, from, end, mark) == at,
    decreases end - from,
{
    if from < at {
        lemma_first_at_unique(text, from + 1, end, mark, at);
    }
}

/// The row that is found in a line holds its first two fields, and a line of which none is
/// found has no two fields.
pub proof fn lemma_row_in(text: Seq<char>, start: int, end: int, row: Row)
    requires
        0 <= start <= end <= text.len() <= usize::MAX,
    ensures
        is_row(text, start, end, row) <==> row_in(text, start, end) == Some(row),
{
    let a = first_at(text, start, end, Mark::Field);
    lemma_first_at(text, start, end, Mark::Field);
    let b = first_at(text, a, end, Mark::Separator);
    lemma_first_at(text, a, end, Mark::Separator);
    let c = first_at(text, b, end, Mark::Field);
    lemma_first_at(text, b, end, Mark::Field);
    let d = first_at(text, c, end, Mark::Separator);
    lemma_first_at(text, c, end, Mark::Separator);
    if is_row(text, start, end, row) {
        lemma_first_at_unique(text, start, end, Mark::Field, row.first.start as int);
        lemma_first_at_unique(text, a, end, Mark::Separator, row.first.end as int);
        lemma_first_at_unique(text, b, end, Mark::Field, row.second.start as int);
        lemma_first_at_unique(text, c, end, Mark::Separator, row.second.end as int);
    }
}

/// Whether a character is of the kind that the mark names.
pub fn is_marked(mark: Mark, c: char) -> (r: bool)
    ensures
        r == marks(mark, c),
{
    let u: u32 = c as u32;
    let blank: bool = (0x09 <= u && u <= 0x0d) || u == 0x20 || u == 0x85 || u == 0xa0 || u
        == 0x1680 || (0x2000 <= u && u <= 0x200a) || u == 0x2028 || u == 0x2029 || u == 0x202f
        || u == 0x205f || u == 0x3000;
    match mark {
        Mark::Newline => c == '\n',
        Mark::Separator => c == ',' || blank,
        Mark::Field => !(c == ',' || blank),
    }
}

/// Scans the text from `from` on for a character of the kind, up to `end`.
fn scan(text: &[char], from: usize, end: usize, mark: Mark) -> (at: usize)
    requires
        from <= end <= text.len(),
    ensures
        at == first_at(text@, from as int, end as int, mark),
        from <= at <= end,
{
    let mut at: usize = from;
    while at < end && !is_marked(mark, text[at])
        invariant
            from <= at <= end <= text.len(),
            first_at(text@, from as int, end as int, mark) == first_at(
                text@,
                at as int,
                end as int,
                mark,
            ),
        decreases end - at,
    {
        at = at + 1;
    }
    at
}

/// The first two fields of the line that runs from `start` to `end`; `None` where the line
/// has fewer than two.
fn line_row(text: &[char], start: usize, end: usize) -> (r: Option<Row>)
    requires
        start <= end <= text.len(),
    ensures
        r == row_in(text@, start as int, end as int),
{
    let a: usize = scan(text, start, end, Mark::Field);
    let b: usize = scan(text, a, end, Mark::Separator);
    let c: usize = scan(text, b, end, Mark::Field);
    let d: usize = scan(text, c, end, Mark::Separator);
    if c < end {
        Some(Row { first: Span { start: a, end: b }, second: Span { start: c, end: d } })
    } else {
        None
    }
}

/// The first two fields of every line of the text that has two, in the order of the lines.
pub fn rows(text: &[char]) -> (out: Vec<Row>)
    ensures
        out@ == rows_from(text@, 0),
{
    let n: usize = text.len();
    let mut out: Vec<Row> = Vec::new();
    let mut from: usize = 0;
    while from < n
        invariant
            n == text.len(),
            from <= n,
            rows_from(text@, 0) == out@ + rows_from(text@, from as int),
        decreases n - from,
    {
        let end: usize = scan(text, from, n, Mark::Newline);
        let ghost before = out@;
        let ghost rest = if end < n {
            rows_from(text@, end + 1)
        } else {
            Seq::<Row>::empty()
        };
        match line_row(text, from, end) {
            Some(row) => {
                out.push(row);
                proof {
                    assert(seq![row] + Seq::<Row>::empty() == seq![row]);
                    assert(before + (seq![row] + rest) == before.push(row) + rest);
                }
            },
            None => {
                proof {
                    assert(before + (Seq::<Row>::empty() + rest) == before + rest);
                }
            },
        }
        if end < n {
            from = end + 1;
        } else {
            from = n;
        }
    }
    proof {
        assert(out@ + Seq::<Row>::empty() == out@);
    }
    out
}

} // verus!
