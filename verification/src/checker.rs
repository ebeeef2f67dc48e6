//! The position tracker.  It owns a monotonic cursor over the document
//! text, consumes check/skip spans in document order, keeps exact
//! line/column state, and records a diagnostic for every checked word the
//! dictionary rejects.
//!
//! Positions are measured in characters: the cursor is a character index
//! into the text, and spans are character counts.

use vstd::prelude::*;

use crate::dict::{dict_check_word, dict_suggest, dict_words, entry_misspelled};

verus! {

/// The line number of the position after the first `n` characters of `t`:
/// one more than the number of newlines among them.
pub open spec fn line_of(t: Seq<char>, n: int) -> int
    decreases n,
{
    if n <= 0 {
        1
    } else {
        line_of(t, n - 1) + if t[n - 1] == '\n' {
            1int
        } else {
            0int
        }
    }
}

/// The column of the position after the first `n` characters of `t`: one
/// more than the number of characters since the last newline among them.
pub open spec fn col_of(t: Seq<char>, n: int) -> int
    decreases n,
{
    if n <= 0 {
        1
    } else if t[n - 1] == '\n' {
        1
    } else {
        col_of(t, n - 1) + 1
    }
}

pub proof fn lemma_line_col_bounds(t: Seq<char>, n: int)
    ensures
        1 <= line_of(t, n) <= if n <= 0 {
            1int
        } else {
            n + 1
        },
        1 <= col_of(t, n) <= if n <= 0 {
            1int
        } else {
            n + 1
        },
    decreases n,
{
    if n > 0 {
        lemma_line_col_bounds(t, n - 1);
    }
}

/// One emitted span, in the ghost record of a pass: a character count and
/// whether the range was checked against the dictionary or skipped.
pub ghost struct Span {
    pub check: bool,
    pub len: int,
}

/// The number of characters the spans cover in total.
pub open spec fn span_total(spans: Seq<Span>) -> int
    decreases spans.len(),
{
    if spans.len() == 0 {
        0
    } else {
        spans[0].len + span_total(spans.drop_first())
    }
}

/// The character offset at which the `i`-th recorded span starts: the sum
/// of the lengths of the spans before it.
pub open spec fn span_start(spans: Seq<Span>, i: int) -> int
    decreases i,
{
    if i <= 0 {
        0
    } else {
        span_start(spans, i - 1) + spans[i - 1].len
    }
}

pub open spec fn spans_wf(spans: Seq<Span>) -> bool {
    forall|i: int| 0 <= i < spans.len() ==> (#[trigger] spans[i]).len >= 0
}

pub proof fn lemma_span_total_push(spans: Seq<Span>, x: Span)
    ensures
        span_total(spans.push(x)) == span_total(spans) + x.len,
    decreases spans.len(),
{
    assert(spans.push(x)[0] == if spans.len() == 0 {
        x
    } else {
        spans[0]
    });
    if spans.len() == 0 {
        assert(spans.push(x).drop_first() =~= Seq::<Span>::empty());
        assert(span_total(spans.push(x).drop_first()) == 0);
        assert(span_total(spans.push(x)) == x.len);
    } else {
        assert(spans.push(x).drop_first() =~= spans.drop_first().push(x));
        lemma_span_total_push(spans.drop_first(), x);
        assert(span_total(spans.push(x)) == spans[0].len + span_total(spans.drop_first())
            + x.len);
        assert(span_total(spans) == spans[0].len + span_total(spans.drop_first()));
    }
}

pub proof fn lemma_span_total_concat(a: Seq<Span>, b: Seq<Span>)
    ensures
        span_total(a + b) == span_total(a) + span_total(b),
    decreases a.len(),
{
    if a.len() == 0 {
        assert(a + b =~= b);
    } else {
        assert((a + b).drop_first() =~= a.drop_first() + b);
        lemma_span_total_concat(a.drop_first(), b);
    }
}

/// Consecutive recorded spans tile the consumed prefix: each span begins
/// exactly where the one before it ended, the first begins at zero, and
/// together they reach `span_total`.  With non-negative lengths the start
/// offsets are non-decreasing, which is the emission order law.
pub proof fn lemma_spans_tile(spans: Seq<Span>)
    requires
        spans_wf(spans),
    ensures
        span_start(spans, 0) == 0,
        forall|i: int|
            0 <= i < spans.len() ==> #[trigger] span_start(spans, i + 1) == span_start(spans, i)
                + spans[i].len,
        forall|i: int, j: int| 0 <= i <= j <= spans.len() ==> span_start(spans, i) <= span_start(
            spans,
            j,
        ),
        span_start(spans, spans.len() as int) == span_total(spans),
{
    assert forall|i: int, j: int| 0 <= i <= j <= spans.len() implies span_start(spans, i)
        <= span_start(spans, j) by {
        lemma_span_start_monotonic(spans, i, j);
    }
    lemma_span_start_total(spans);
}

proof fn lemma_span_start_monotonic(spans: Seq<Span>, i: int, j: int)
    requires
        spans_wf(spans),
        0 <= i <= j <= spans.len(),
    ensures
        span_start(spans, i) <= span_start(spans, j),
    decreases j - i,
{
    if i < j {
        lemma_span_start_monotonic(spans, i, j - 1);
    }
}

proof fn lemma_span_start_total(spans: Seq<Span>)
    ensures
        span_start(spans, spans.len() as int) == span_total(spans),
    decreases spans.len(),
{
    if spans.len() > 0 {
        lemma_span_start_total(spans.drop_first());
        lemma_span_start_shift(spans, spans.len() as int);
    }
}

proof fn lemma_span_start_shift(spans: Seq<Span>, i: int)
    requires
        1 <= i <= spans.len(),
    ensures
        span_start(spans, i) == spans[0].len + span_start(spans.drop_first(), i - 1),
    decreases i,
{
    if i == 1 {
        assert(span_start(spans, 0) == 0);
        assert(span_start(spans, 1) == spans[0].len);
        assert(span_start(spans.drop_first(), 0) == 0);
    } else {
        lemma_span_start_shift(spans, i - 1);
        assert(spans.drop_first()[i - 2] == spans[i - 1]);
        assert(span_start(spans, i) == span_start(spans, i - 1) + spans[i - 1].len);
        assert(span_start(spans.drop_first(), i - 1) == span_start(spans.drop_first(), i - 2)
            + spans.drop_first()[i - 2].len);
    }
}

/// One reported misspelling: where it stands in the document and what the
/// dictionary suggested instead.
pub struct Diagnostic {
    pub line_start: usize,
    pub column_start: usize,
    pub line_end: usize,
    pub column_end: usize,
    /// Character offset of the first character of the word.
    pub start: usize,
    /// Character offset one past the last character of the word.
    pub end: usize,
    pub suggestions: Vec<String>,
}

/// The position part of a diagnostic: everything the cursor state
/// determines.  The suggestion list is the oracle's and is not pinned.
pub ghost struct DiagPos {
    pub line_start: int,
    pub column_start: int,
    pub line_end: int,
    pub column_end: int,
    pub start: int,
    pub end: int,
}

pub open spec fn diag_pos(d: Diagnostic) -> DiagPos {
    DiagPos {
        line_start: d.line_start as int,
        column_start: d.column_start as int,
        line_end: d.line_end as int,
        column_end: d.column_end as int,
        start: d.start as int,
        end: d.end as int,
    }
}

/// The positions of a misspelling covering the characters `[start, end)`
/// of `t`.
pub open spec fn diag_pos_at(t: Seq<char>, start: int, end: int) -> DiagPos {
    DiagPos {
        line_start: line_of(t, start),
        column_start: col_of(t, start),
        line_end: line_of(t, end),
        column_end: col_of(t, end),
        start,
        end,
    }
}

/// The diagnostics that consuming `spans` from position `pos` of `t`
/// produces: one per checked span whose text the dictionary's entry lookup
/// reports misspelled, in span order.
pub open spec fn diag_positions(
    spans: Seq<Span>,
    t: Seq<char>,
    pos: int,
    d: zspell::Dictionary,
) -> Seq<DiagPos>
    decreases spans.len(),
{
    if spans.len() == 0 {
        Seq::empty()
    } else {
        let s0 = spans[0];
        let rest = diag_positions(spans.drop_first(), t, pos + s0.len, d);
        if s0.check && entry_misspelled(d, t.subrange(pos, pos + s0.len)) {
            seq![diag_pos_at(t, pos, pos + s0.len)] + rest
        } else {
            rest
        }
    }
}

pub proof fn lemma_diag_positions_concat(
    a: Seq<Span>,
    b: Seq<Span>,
    t: Seq<char>,
    pos: int,
    d: zspell::Dictionary,
)
    ensures
        diag_positions(a + b, t, pos, d) == diag_positions(a, t, pos, d) + diag_positions(
            b,
            t,
            pos + span_total(a),
            d,
        ),
    decreases a.len(),
{
    if a.len() == 0 {
        assert(a + b =~= b);
        assert(diag_positions(a, t, pos, d) + diag_positions(b, t, pos, d) =~= diag_positions(
            b,
            t,
            pos,
            d,
        ));
    } else {
        assert((a + b).drop_first() =~= a.drop_first() + b);
        lemma_diag_positions_concat(a.drop_first(), b, t, pos + a[0].len, d);
        assert((a + b)[0] == a[0]);
        if a[0].check && entry_misspelled(d, t.subrange(pos, pos + a[0].len)) {
            assert(seq![diag_pos_at(t, pos, pos + a[0].len)] + (diag_positions(
                a.drop_first(),
                t,
                pos + a[0].len,
                d,
            ) + diag_positions(b, t, pos + span_total(a), d)) =~= (seq![
                diag_pos_at(t, pos, pos + a[0].len),
            ] + diag_positions(a.drop_first(), t, pos + a[0].len, d)) + diag_positions(
                b,
                t,
                pos + span_total(a),
                d,
            ));
        }
    }
}

/// The position parts of a sequence of diagnostics.
pub open spec fn diag_pos_seq(ds: Seq<Diagnostic>) -> Seq<DiagPos> {
    ds.map_values(|d: Diagnostic| diag_pos(d))
}

/// A sequence of diagnostics extended by one at `[start, end)` maps to the
/// matching extension of its position sequence.
pub proof fn lemma_diag_map_push(
    pre: Seq<Diagnostic>,
    post: Seq<Diagnostic>,
    t: Seq<char>,
    start: int,
    end: int,
)
    requires
        post.len() == pre.len() + 1,
        post.drop_last() == pre,
        diag_pos(post.last()) == diag_pos_at(t, start, end),
    ensures
        diag_pos_seq(post) =~= diag_pos_seq(pre).push(diag_pos_at(t, start, end)),
{
    assert forall|i: int| 0 <= i < pre.len() implies post[i] == pre[i] by {
        assert(post.drop_last()[i] == post[i]);
    }
}

/// Coverage: after a pass that consumed the whole text, the recorded
/// spans partition it exactly.  The first span starts at offset zero, the
/// `i`-th covers `[span_start(i), span_start(i) + len_i)`, each begins
/// exactly where the one before it ended — no gap, no overlap — the start
/// offsets are non-decreasing, and the last span ends at the end of the
/// text.
pub proof fn lemma_coverage(c: Checker<'_>)
    requires
        c.wf(),
        c.cursor == c.text@.len(),
    ensures
        span_start(c.spans@, 0) == 0,
        forall|i: int|
            0 <= i < c.spans@.len() ==> #[trigger] span_start(c.spans@, i + 1) == span_start(
                c.spans@,
                i,
            ) + c.spans@[i].len,
        forall|i: int, j: int|
            0 <= i <= j <= c.spans@.len() ==> span_start(c.spans@, i) <= span_start(c.spans@, j),
        span_start(c.spans@, c.spans@.len() as int) == c.text@.len(),
{
    lemma_spans_tile(c.spans@);
}

/// Cursor consistency: in any well-formed tracker state the cursor equals
/// the total length of the spans processed so far, and line and column
/// equal what an independent scan of that prefix for newlines gives.
pub proof fn lemma_cursor_consistency(c: Checker<'_>)
    requires
        c.wf(),
    ensures
        span_total(c.spans@) == c.cursor,
        c.line == line_of(c.text@, c.cursor as int),
        c.column == col_of(c.text@, c.cursor as int),
{
}

pub struct Checker<'a> {
    pub dict: &'a zspell::Dictionary,
    pub text: String,
    pub cursor: usize,
    pub path: String,
    pub pretty: Option<usize>,
    pub line: usize,
    pub column: usize,
    pub diagnostics: Vec<Diagnostic>,
    /// Ghost record of every span consumed so far, in order.
    pub spans: Ghost<Seq<Span>>,
}

impl<'a> Checker<'a> {
    /// The tracker's invariant: the cursor sits inside the text, the
    /// recorded spans tile exactly the consumed prefix, and line/column
    /// equal the values an independent scan of that prefix would give.
    pub open spec fn wf(self) -> bool {
        &&& self.text@.len() < usize::MAX
        &&& self.cursor <= self.text@.len()
        &&& self.line == line_of(self.text@, self.cursor as int)
        &&& self.column == col_of(self.text@, self.cursor as int)
        &&& spans_wf(self.spans@)
        &&& span_total(self.spans@) == self.cursor
    }

    /// The parts of the state one pass never changes.
    pub open spec fn same_doc(self, other: Checker<'a>) -> bool {
        &&& self.dict == other.dict
        &&& self.text == other.text
        &&& self.path == other.path
        &&& self.pretty == other.pretty
    }

    pub fn new(dict: &'a zspell::Dictionary, text: String, path: String, pretty: Option<
        usize,
    >) -> (r: Checker<'a>)
        requires
            text@.len() < usize::MAX,
        ensures
            r.wf(),
            r.dict == dict,
            r.text == text,
            r.path == path,
            r.pretty == pretty,
            r.cursor == 0,
            r.line == 1,
            r.column == 1,
            r.diagnostics@ =~= Seq::<Diagnostic>::empty(),
            r.spans@ =~= Seq::<Span>::empty(),
    {
        Checker {
            dict,
            text,
            cursor: 0,
            path,
            pretty,
            line: 1,
            column: 1,
            diagnostics: Vec::new(),
            spans: Ghost(Seq::empty()),
        }
    }

    /// Advance the cursor over `length` characters, updating line and
    /// column: a newline moves to the start of the next line, any other
    /// character moves one column right.
    fn advance(&mut self, length: usize)
        requires
            old(self).wf(),
            old(self).cursor + length <= old(self).text@.len(),
        ensures
            final(self).cursor == old(self).cursor + length,
            final(self).line == line_of(final(self).text@, final(self).cursor as int),
            final(self).column == col_of(final(self).text@, final(self).cursor as int),
            old(self).same_doc(*final(self)),
            final(self).diagnostics == old(self).diagnostics,
            final(self).spans == old(self).spans,
    {
        let end = self.cursor + length;
        while self.cursor < end
            invariant
                self.cursor <= end <= self.text@.len(),
                self.text@.len() < usize::MAX,
                self.line == line_of(self.text@, self.cursor as int),
                self.column == col_of(self.text@, self.cursor as int),
                old(self).same_doc(*self),
                self.diagnostics == old(self).diagnostics,
                self.spans == old(self).spans,
            decreases end - self.cursor,
        {
            let c = self.text.as_str().get_char(self.cursor);
            proof {
                lemma_line_col_bounds(self.text@, self.cursor as int);
            }
            if c == '\n' {
                self.line = self.line + 1;
                self.column = 1;
            } else {
                self.column = self.column + 1;
            }
            self.cursor = self.cursor + 1;
        }
    }

    /// Consume `length` characters as one skipped span: no dictionary
    /// query, no diagnostic.
    pub fn skip(&mut self, length: usize)
        requires
            old(self).wf(),
            old(self).cursor + length <= old(self).text@.len(),
        ensures
            final(self).wf(),
            old(self).same_doc(*final(self)),
            final(self).cursor == old(self).cursor + length,
            final(self).diagnostics == old(self).diagnostics,
            final(self).spans@ == old(self).spans@.push(
                Span { check: false, len: length as int },
            ),
    {
        self.advance(length);
        let ghost spans0 = self.spans@;
        self.spans = Ghost(self.spans@.push(Span { check: false, len: length as int }));
        proof {
            lemma_span_total_push(spans0, Span { check: false, len: length as int });
        }
    }

    /// Ask the dictionary, without moving the cursor, whether the next
    /// `length` characters form a valid word.  A pure lookahead: it is what
    /// the walker's abbreviation exception calls before committing to a
    /// span boundary.
    pub fn valid_word(&self, length: usize) -> (r: bool)
        requires
            self.wf(),
            self.cursor + length <= self.text@.len(),
        ensures
            r == dict_words(*self.dict).contains(
                self.text@.subrange(self.cursor as int, self.cursor + length),
            ),
    {
        let word = self.text.as_str().substring_char(self.cursor, self.cursor + length);
        dict_check_word(self.dict, word)
    }

    /// Consume `length` characters as one checked span: record the start
    /// position, advance, record the end position, and ask the dictionary
    /// about the consumed word.  If the dictionary reports it misspelled, a
    /// diagnostic with those positions and the dictionary's suggestions is
    /// appended; otherwise nothing is.
    pub fn check(&mut self, length: usize)
        requires
            old(self).wf(),
            old(self).cursor + length <= old(self).text@.len(),
        ensures
            final(self).wf(),
            old(self).same_doc(*final(self)),
            final(self).cursor == old(self).cursor + length,
            final(self).spans@ == old(self).spans@.push(
                Span { check: true, len: length as int },
            ),
            ({
                let w = old(self).text@.subrange(
                    old(self).cursor as int,
                    old(self).cursor + length,
                );
                if entry_misspelled(*old(self).dict, w) {
                    &&& final(self).diagnostics@.len() == old(self).diagnostics@.len() + 1
                    &&& final(self).diagnostics@.drop_last() == old(self).diagnostics@
                    &&& diag_pos(final(self).diagnostics@.last()) == diag_pos_at(
                        old(self).text@,
                        old(self).cursor as int,
                        old(self).cursor + length,
                    )
                } else {
                    final(self).diagnostics@ == old(self).diagnostics@
                }
            }),
            !entry_misspelled(
                *old(self).dict,
                old(self).text@.subrange(old(self).cursor as int, old(self).cursor + length),
            ) ==> dict_words(*old(self).dict).contains(
                old(self).text@.subrange(old(self).cursor as int, old(self).cursor + length),
            ),
    {
        let start = self.cursor;
        let line_start = self.line;
        let column_start = self.column;
        self.advance(length);
        let ghost spans0 = self.spans@;
        self.spans = Ghost(self.spans@.push(Span { check: true, len: length as int }));
        proof {
            lemma_span_total_push(spans0, Span { check: true, len: length as int });
        }
        let word = self.text.as_str().substring_char(start, start + length);
        let suggested = dict_suggest(self.dict, word);
        match suggested {
            None => {},
            Some(suggestions) => {
                let diagnostic = Diagnostic {
                    line_start,
                    column_start,
                    line_end: self.line,
                    column_end: self.column,
                    start,
                    end: start + length,
                    suggestions,
                };
                self.diagnostics.push(diagnostic);
            },
        }
    }
}

} // verus!
