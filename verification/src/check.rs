//! The span classifier.  It walks the syntax tree, tracks a markdown/code
//! mode as it descends, and feeds every character of the document to the
//! position tracker exactly once, in document order, as a sequence of
//! checked word spans and skipped spans.

use vstd::prelude::*;

use crate::checker::{
    diag_pos_seq, diag_positions, lemma_diag_positions_concat, lemma_diag_map_push,
    lemma_span_total_concat, span_total, spans_wf, Checker, DiagPos, Span,
};
use crate::dict::dict_words;
use crate::tree::{children_text, node_text, parsed, Node, NodeKind};

verus! {

/// How a subtree's text is interpreted: prose to spell-check, or code to
/// pass over.  The walker copies the mode on descent; a subtree never
/// mutates its parent's mode.
#[derive(Clone, Copy, PartialEq, Eq, Structural, Debug)]
pub enum Mode {
    Markdown,
    Code,
}

/// The word scanner's state: before the first character, inside a run of
/// break characters, or inside a word.
#[derive(Clone, Copy, PartialEq, Eq, Structural, Debug)]
pub enum ScanState {
    Start,
    Break,
    Word,
}

/// A character that ends a word: ASCII whitespace or ASCII punctuation.
pub open spec fn is_break_char(c: char) -> bool {
    let u = c as u32;
    u == 9 || u == 10 || u == 12 || u == 13 || u == 32 || (33 <= u && u <= 47) || (58 <= u && u
        <= 64) || (91 <= u && u <= 96) || (123 <= u && u <= 126)
}

fn is_break(c: char) -> (r: bool)
    ensures
        r == is_break_char(c),
{
    let u = c as u32;
    u == 9 || u == 10 || u == 12 || u == 13 || u == 32 || (33 <= u && u <= 47) || (58 <= u && u
        <= 64) || (91 <= u && u <= 96) || (123 <= u && u <= 126)
}

/// The spans the word scanner emits for the rest of `t`, from position `i`,
/// with the open span starting at `start` and the machine in state `st`.
///
/// A word ends at a break character, except that a period ending a word
/// whose extension by that period is itself a dictionary word is absorbed
/// into the word (the abbreviation exception); the scan then continues
/// inside the same word span.
pub open spec fn scan(
    t: Seq<char>,
    words: Set<Seq<char>>,
    i: int,
    start: int,
    st: ScanState,
) -> Seq<Span>
    decreases t.len() - i,
{
    if i >= t.len() {
        match st {
            ScanState::Start => Seq::empty(),
            ScanState::Word => seq![Span { check: true, len: t.len() - start }],
            ScanState::Break => seq![Span { check: false, len: t.len() - start }],
        }
    } else {
        let brk = is_break_char(t[i]);
        match st {
            ScanState::Start => scan(
                t,
                words,
                i + 1,
                start,
                if brk {
                    ScanState::Break
                } else {
                    ScanState::Word
                },
            ),
            ScanState::Word => if brk && !(t[i] == '.' && words.contains(
                t.subrange(start, i + 1),
            )) {
                seq![Span { check: true, len: i - start }] + scan(
                    t,
                    words,
                    i + 1,
                    i,
                    ScanState::Break,
                )
            } else {
                scan(t, words, i + 1, start, ScanState::Word)
            },
            ScanState::Break => if !brk {
                seq![Span { check: false, len: i - start }] + scan(
                    t,
                    words,
                    i + 1,
                    i,
                    ScanState::Word,
                )
            } else {
                scan(t, words, i + 1, start, ScanState::Break)
            },
        }
    }
}

/// The spans the word scanner emits for a whole text leaf.
pub open spec fn scan_text(t: Seq<char>, words: Set<Seq<char>>) -> Seq<Span> {
    scan(t, words, 0, 0, ScanState::Start)
}

/// The spans a whole-subtree skip emits: one skip for the node's own text,
/// then the children's, recursively.
pub open spec fn skip_walk(n: Node) -> Seq<Span>
    decreases n,
{
    seq![Span { check: false, len: n.text@.len() as int }] + skip_walk_children(n.children@)
}

pub open spec fn skip_walk_children(s: Seq<Node>) -> Seq<Span>
    decreases s,
{
    if s.len() == 0 {
        Seq::empty()
    } else {
        skip_walk(s[0]) + skip_walk_children(s.drop_first())
    }
}

/// The spans the classifier emits for one node under the inherited mode:
/// - plain text in markdown mode is scanned into word and break spans;
/// - equations and references are skipped as whole subtrees;
/// - code-bearing constructs force code mode on their children;
/// - markup containers force markdown mode back on, re-entering prose;
/// - a smart quote in markdown mode is checked as a span of its own;
/// - anything else skips its own text and walks its children unchanged.
pub open spec fn walk_node(n: Node, mode: Mode, words: Set<Seq<char>>) -> Seq<Span>
    decreases n,
{
    match n.kind {
        NodeKind::Text => if mode == Mode::Markdown {
            scan_text(n.text@, words) + walk_children(n.children@, mode, words)
        } else {
            seq![Span { check: false, len: n.text@.len() as int }] + walk_children(
                n.children@,
                mode,
                words,
            )
        },
        NodeKind::Opaque => skip_walk(n),
        NodeKind::CodeConstruct => seq![Span { check: false, len: n.text@.len() as int }]
            + walk_children(n.children@, Mode::Code, words),
        NodeKind::Markup => seq![Span { check: false, len: n.text@.len() as int }]
            + walk_children(n.children@, Mode::Markdown, words),
        NodeKind::SmartQuote => if mode == Mode::Markdown {
            seq![Span { check: true, len: n.text@.len() as int }] + walk_children(
                n.children@,
                mode,
                words,
            )
        } else {
            seq![Span { check: false, len: n.text@.len() as int }] + walk_children(
                n.children@,
                mode,
                words,
            )
        },
        NodeKind::Other => seq![Span { check: false, len: n.text@.len() as int }] + walk_children(
            n.children@,
            mode,
            words,
        ),
    }
}

pub open spec fn walk_children(s: Seq<Node>, mode: Mode, words: Set<Seq<char>>) -> Seq<Span>
    decreases s,
{
    if s.len() == 0 {
        Seq::empty()
    } else {
        walk_node(s[0], mode, words) + walk_children(s.drop_first(), mode, words)
    }
}

/// Whether the subtree holds a markup container, the only construct that
/// brings the walk back from code mode to prose.
pub open spec fn reenters_markup(n: Node) -> bool
    decreases n,
{
    n.kind is Markup || children_reenter_markup(n.children@)
}

pub open spec fn children_reenter_markup(s: Seq<Node>) -> bool
    decreases s,
{
    s.len() > 0 && (reenters_markup(s[0]) || children_reenter_markup(s.drop_first()))
}

proof fn lemma_span_total_cons(x: Span, s: Seq<Span>)
    ensures
        span_total(seq![x] + s) == x.len + span_total(s),
        spans_wf(s) && x.len >= 0 ==> spans_wf(seq![x] + s),
{
    assert((seq![x] + s)[0] == x);
    assert((seq![x] + s).drop_first() =~= s);
    assert(span_total(seq![x] + s) == x.len + span_total(s));
    if spans_wf(s) && x.len >= 0 {
        assert forall|i: int| 0 <= i < (seq![x] + s).len() implies (#[trigger] (seq![x] + s)[i]).len
            >= 0 by {
            if i > 0 {
                assert((seq![x] + s)[i] == s[i - 1]);
            }
        }
    }
}

/// The word scanner covers exactly the rest of the text: the emitted spans
/// have non-negative lengths and sum to the distance from the open span's
/// start to the end of the text.
pub proof fn lemma_scan_total(t: Seq<char>, words: Set<Seq<char>>, i: int, start: int, st: ScanState)
    requires
        0 <= start <= i <= t.len(),
    ensures
        spans_wf(scan(t, words, i, start, st)),
        span_total(scan(t, words, i, start, st)) == if st is Start && i == t.len() {
            0int
        } else {
            t.len() - start
        },
    decreases t.len() - i,
{
    if i >= t.len() {
        let r = scan(t, words, i, start, st);
        match st {
            ScanState::Start => {
                assert(span_total(r) == 0);
            },
            ScanState::Word => {
                assert(r[0] == Span { check: true, len: t.len() - start });
                assert(r.drop_first() =~= Seq::<Span>::empty());
                assert(span_total(r.drop_first()) == 0);
                assert(span_total(r) == t.len() - start);
            },
            ScanState::Break => {
                assert(r[0] == Span { check: false, len: t.len() - start });
                assert(r.drop_first() =~= Seq::<Span>::empty());
                assert(span_total(r.drop_first()) == 0);
                assert(span_total(r) == t.len() - start);
            },
        }
    } else {
        let brk = is_break_char(t[i]);
        match st {
            ScanState::Start => {
                lemma_scan_total(
                    t,
                    words,
                    i + 1,
                    start,
                    if brk {
                        ScanState::Break
                    } else {
                        ScanState::Word
                    },
                );
            },
            ScanState::Word => {
                if brk && !(t[i] == '.' && words.contains(t.subrange(start, i + 1))) {
                    lemma_scan_total(t, words, i + 1, i, ScanState::Break);
                    lemma_span_total_cons(
                        Span { check: true, len: i - start },
                        scan(t, words, i + 1, i, ScanState::Break),
                    );
                } else {
                    lemma_scan_total(t, words, i + 1, start, ScanState::Word);
                }
            },
            ScanState::Break => {
                if !brk {
                    lemma_scan_total(t, words, i + 1, i, ScanState::Word);
                    lemma_span_total_cons(
                        Span { check: false, len: i - start },
                        scan(t, words, i + 1, i, ScanState::Word),
                    );
                } else {
                    lemma_scan_total(t, words, i + 1, start, ScanState::Break);
                }
            },
        }
    }
}

proof fn lemma_spans_wf_concat(a: Seq<Span>, b: Seq<Span>)
    requires
        spans_wf(a),
        spans_wf(b),
    ensures
        spans_wf(a + b),
{
    assert forall|i: int| 0 <= i < (a + b).len() implies (#[trigger] (a + b)[i]).len >= 0 by {
        if i < a.len() {
            assert((a + b)[i] == a[i]);
        } else {
            assert((a + b)[i] == b[i - a.len()]);
        }
    }
}

/// A whole-subtree skip covers exactly the subtree's text.
pub proof fn lemma_skip_walk_total(n: Node)
    ensures
        spans_wf(skip_walk(n)),
        span_total(skip_walk(n)) == node_text(n).len(),
    decreases n,
{
    lemma_skip_walk_children_total(n.children@);
    lemma_span_total_cons(
        Span { check: false, len: n.text@.len() as int },
        skip_walk_children(n.children@),
    );
}

pub proof fn lemma_skip_walk_children_total(s: Seq<Node>)
    ensures
        spans_wf(skip_walk_children(s)),
        span_total(skip_walk_children(s)) == children_text(s).len(),
    decreases s,
{
    if s.len() > 0 {
        lemma_skip_walk_total(s[0]);
        lemma_skip_walk_children_total(s.drop_first());
        lemma_span_total_concat(skip_walk(s[0]), skip_walk_children(s.drop_first()));
        lemma_spans_wf_concat(skip_walk(s[0]), skip_walk_children(s.drop_first()));
    }
}

/// Coverage: the walk of a node covers exactly the node's text, whatever
/// the mode.  Together with the tracker's tiling law this is the statement
/// that the emitted spans partition the document with no gaps or overlaps.
pub proof fn lemma_walk_total(n: Node, mode: Mode, words: Set<Seq<char>>)
    ensures
        spans_wf(walk_node(n, mode, words)),
        span_total(walk_node(n, mode, words)) == node_text(n).len(),
    decreases n,
{
    let own = n.text@.len() as int;
    match n.kind {
        NodeKind::Opaque => {
            lemma_skip_walk_total(n);
        },
        NodeKind::Text => {
            if mode == Mode::Markdown {
                lemma_walk_children_total(n.children@, mode, words);
                lemma_scan_total(n.text@, words, 0, 0, ScanState::Start);
                lemma_span_total_concat(
                    scan_text(n.text@, words),
                    walk_children(n.children@, mode, words),
                );
                lemma_spans_wf_concat(
                    scan_text(n.text@, words),
                    walk_children(n.children@, mode, words),
                );
            } else {
                lemma_walk_children_total(n.children@, mode, words);
                lemma_span_total_cons(
                    Span { check: false, len: own },
                    walk_children(n.children@, mode, words),
                );
            }
        },
        NodeKind::CodeConstruct => {
            lemma_walk_children_total(n.children@, Mode::Code, words);
            lemma_span_total_cons(
                Span { check: false, len: own },
                walk_children(n.children@, Mode::Code, words),
            );
        },
        NodeKind::Markup => {
            lemma_walk_children_total(n.children@, Mode::Markdown, words);
            lemma_span_total_cons(
                Span { check: false, len: own },
                walk_children(n.children@, Mode::Markdown, words),
            );
        },
        NodeKind::SmartQuote => {
            lemma_walk_children_total(n.children@, mode, words);
            lemma_span_total_cons(
                Span {
                    check: mode == Mode::Markdown,
                    len: own,
                },
                walk_children(n.children@, mode, words),
            );
        },
        NodeKind::Other => {
            lemma_walk_children_total(n.children@, mode, words);
            lemma_span_total_cons(
                Span { check: false, len: own },
                walk_children(n.children@, mode, words),
            );
        },
    }
}

pub proof fn lemma_walk_children_total(s: Seq<Node>, mode: Mode, words: Set<Seq<char>>)
    ensures
        spans_wf(walk_children(s, mode, words)),
        span_total(walk_children(s, mode, words)) == children_text(s).len(),
    decreases s,
{
    if s.len() > 0 {
        lemma_walk_total(s[0], mode, words);
        lemma_walk_children_total(s.drop_first(), mode, words);
        lemma_span_total_concat(
            walk_node(s[0], mode, words),
            walk_children(s.drop_first(), mode, words),
        );
        lemma_spans_wf_concat(
            walk_node(s[0], mode, words),
            walk_children(s.drop_first(), mode, words),
        );
    }
}

pub proof fn lemma_children_text_concat(a: Seq<Node>, b: Seq<Node>)
    ensures
        children_text(a + b) == children_text(a) + children_text(b),
    decreases a.len(),
{
    if a.len() == 0 {
        assert(a + b =~= b);
        assert(children_text(a) + children_text(b) =~= children_text(b));
    } else {
        assert((a + b).drop_first() =~= a.drop_first() + b);
        assert((a + b)[0] == a[0]);
        lemma_children_text_concat(a.drop_first(), b);
        assert(node_text(a[0]) + (children_text(a.drop_first()) + children_text(b)) =~= (node_text(
            a[0],
        ) + children_text(a.drop_first())) + children_text(b));
    }
}

pub proof fn lemma_walk_children_push(s: Seq<Node>, x: Node, mode: Mode, words: Set<Seq<char>>)
    ensures
        walk_children(s.push(x), mode, words) == walk_children(s, mode, words) + walk_node(
            x,
            mode,
            words,
        ),
    decreases s.len(),
{
    if s.len() == 0 {
        assert(s.push(x)[0] == x);
        assert(s.push(x).drop_first() =~= Seq::<Node>::empty());
        assert(walk_children(s.push(x), mode, words) == walk_node(x, mode, words) + walk_children(
            Seq::empty(),
            mode,
            words,
        ));
        assert(walk_node(x, mode, words) + Seq::<Span>::empty() =~= walk_node(x, mode, words));
        assert(walk_children(s, mode, words) + walk_node(x, mode, words) =~= walk_node(
            x,
            mode,
            words,
        ));
    } else {
        assert(s.push(x)[0] == s[0]);
        assert(s.push(x).drop_first() =~= s.drop_first().push(x));
        lemma_walk_children_push(s.drop_first(), x, mode, words);
        assert(walk_node(s[0], mode, words) + (walk_children(s.drop_first(), mode, words)
            + walk_node(x, mode, words)) =~= (walk_node(s[0], mode, words) + walk_children(
            s.drop_first(),
            mode,
            words,
        )) + walk_node(x, mode, words));
    }
}

pub proof fn lemma_skip_walk_children_push(s: Seq<Node>, x: Node)
    ensures
        skip_walk_children(s.push(x)) == skip_walk_children(s) + skip_walk(x),
    decreases s.len(),
{
    if s.len() == 0 {
        assert(s.push(x)[0] == x);
        assert(s.push(x).drop_first() =~= Seq::<Node>::empty());
        assert(skip_walk_children(s.push(x)) == skip_walk(x) + skip_walk_children(
            Seq::empty(),
        ));
        assert(skip_walk(x) + Seq::<Span>::empty() =~= skip_walk(x));
        assert(skip_walk_children(s) + skip_walk(x) =~= skip_walk(x));
    } else {
        assert(s.push(x)[0] == s[0]);
        assert(s.push(x).drop_first() =~= s.drop_first().push(x));
        lemma_skip_walk_children_push(s.drop_first(), x);
        assert(skip_walk(s[0]) + (skip_walk_children(s.drop_first()) + skip_walk(x)) =~= (skip_walk(
            s[0],
        ) + skip_walk_children(s.drop_first())) + skip_walk(x));
    }
}

pub proof fn lemma_children_text_push(s: Seq<Node>, x: Node)
    ensures
        children_text(s.push(x)) == children_text(s) + node_text(x),
    decreases s.len(),
{
    if s.len() == 0 {
        assert(s.push(x)[0] == x);
        assert(s.push(x).drop_first() =~= Seq::<Node>::empty());
        assert(node_text(x) + children_text(Seq::empty()) =~= node_text(x));
        assert(children_text(s) + node_text(x) =~= node_text(x));
    } else {
        assert(s.push(x)[0] == s[0]);
        assert(s.push(x).drop_first() =~= s.drop_first().push(x));
        lemma_children_text_push(s.drop_first(), x);
        assert(node_text(s[0]) + (children_text(s.drop_first()) + node_text(x)) =~= (node_text(s[0])
            + children_text(s.drop_first())) + node_text(x));
    }
}

/// Spans with no checked member produce no diagnostics.
pub proof fn lemma_no_check_no_diags(spans: Seq<Span>, t: Seq<char>, pos: int, d: zspell::Dictionary)
    requires
        forall|i: int| 0 <= i < spans.len() ==> !(#[trigger] spans[i]).check,
    ensures
        diag_positions(spans, t, pos, d) =~= Seq::<DiagPos>::empty(),
    decreases spans.len(),
{
    if spans.len() > 0 {
        assert(!spans[0].check);
        lemma_no_check_no_diags(spans.drop_first(), t, pos + spans[0].len, d);
    }
}

proof fn lemma_no_check_concat(a: Seq<Span>, b: Seq<Span>)
    requires
        forall|i: int| 0 <= i < a.len() ==> !(#[trigger] a[i]).check,
        forall|i: int| 0 <= i < b.len() ==> !(#[trigger] b[i]).check,
    ensures
        forall|i: int| 0 <= i < (a + b).len() ==> !(#[trigger] (a + b)[i]).check,
{
    assert forall|i: int| 0 <= i < (a + b).len() implies !(#[trigger] (a + b)[i]).check by {
        if i < a.len() {
            assert((a + b)[i] == a[i]);
        } else {
            assert((a + b)[i] == b[i - a.len()]);
        }
    }
}

/// A whole-subtree skip checks nothing.
pub proof fn lemma_skip_walk_no_check(n: Node)
    ensures
        forall|i: int| 0 <= i < skip_walk(n).len() ==> !(#[trigger] skip_walk(n)[i]).check,
    decreases n,
{
    lemma_skip_walk_children_no_check(n.children@);
    lemma_no_check_concat(
        seq![Span { check: false, len: n.text@.len() as int }],
        skip_walk_children(n.children@),
    );
}

pub proof fn lemma_skip_walk_children_no_check(s: Seq<Node>)
    ensures
        forall|i: int|
            0 <= i < skip_walk_children(s).len() ==> !(#[trigger] skip_walk_children(s)[i]).check,
    decreases s,
{
    if s.len() > 0 {
        lemma_skip_walk_no_check(s[0]);
        lemma_skip_walk_children_no_check(s.drop_first());
        lemma_no_check_concat(skip_walk(s[0]), skip_walk_children(s.drop_first()));
        assert(skip_walk_children(s) == skip_walk(s[0]) + skip_walk_children(s.drop_first()));
    }
}

/// Mode isolation: inside a code construct, unless a nested markup
/// container re-enters prose, the walk emits no checked span, and so no
/// diagnostic can arise from that subtree's text.
pub proof fn lemma_mode_isolation(n: Node, words: Set<Seq<char>>)
    requires
        !reenters_markup(n),
    ensures
        forall|i: int|
            0 <= i < walk_node(n, Mode::Code, words).len() ==> !(#[trigger] walk_node(
                n,
                Mode::Code,
                words,
            )[i]).check,
    decreases n,
{
    let own = seq![Span { check: false, len: n.text@.len() as int }];
    assert(forall|i: int| 0 <= i < own.len() ==> !(#[trigger] own[i]).check);
    match n.kind {
        NodeKind::Opaque => {
            lemma_skip_walk_no_check(n);
        },
        NodeKind::Markup => {
            assert(false);
        },
        _ => {
            lemma_children_mode_isolation(n.children@, words);
            lemma_no_check_concat(own, walk_children(n.children@, Mode::Code, words));
        },
    }
}

pub proof fn lemma_children_mode_isolation(s: Seq<Node>, words: Set<Seq<char>>)
    requires
        !children_reenter_markup(s),
    ensures
        forall|i: int|
            0 <= i < walk_children(s, Mode::Code, words).len() ==> !(#[trigger] walk_children(
                s,
                Mode::Code,
                words,
            )[i]).check,
    decreases s,
{
    if s.len() > 0 {
        lemma_mode_isolation(s[0], words);
        lemma_children_mode_isolation(s.drop_first(), words);
        lemma_no_check_concat(
            walk_node(s[0], Mode::Code, words),
            walk_children(s.drop_first(), Mode::Code, words),
        );
        assert(walk_children(s, Mode::Code, words) == walk_node(s[0], Mode::Code, words)
            + walk_children(s.drop_first(), Mode::Code, words));
    }
}

/// A slice of a slice of the document is the matching slice of the
/// document.
pub proof fn lemma_subrange_within(doc: Seq<char>, t: Seq<char>, base: int, a: int, b: int)
    requires
        0 <= base,
        base + t.len() <= doc.len(),
        doc.subrange(base, base + t.len()) == t,
        0 <= a <= b <= t.len(),
    ensures
        doc.subrange(base + a, base + b) == t.subrange(a, b),
{
    assert forall|k: int| 0 <= k < b - a implies doc.subrange(base + a, base + b)[k] == t.subrange(
        a,
        b,
    )[k] by {
        assert(doc.subrange(base, base + t.len())[a + k] == t[a + k]);
    }
    assert(doc.subrange(base + a, base + b) =~= t.subrange(a, b));
}

/// Scan one text leaf, feeding its word and break spans to the tracker in
/// order.  Runs the three-state machine: a break character ends the open
/// word as a checked span, except that a period whose absorption keeps the
/// word a dictionary entry is folded into it; a word character ends the
/// open break run as a skipped span; the end of the text flushes whatever
/// span is open.
fn convert_text(text: &String, checker: &mut Checker)
    requires
        old(checker).wf(),
        old(checker).cursor + text@.len() <= old(checker).text@.len(),
        old(checker).text@.subrange(
            old(checker).cursor as int,
            old(checker).cursor + text@.len(),
        ) == text@,
    ensures
        final(checker).wf(),
        old(checker).same_doc(*final(checker)),
        final(checker).cursor == old(checker).cursor + text@.len(),
        final(checker).spans@ == old(checker).spans@ + scan_text(
            text@,
            dict_words(*old(checker).dict),
        ),
        diag_pos_seq(final(checker).diagnostics@) == diag_pos_seq(old(checker).diagnostics@)
            + diag_positions(
            scan_text(text@, dict_words(*old(checker).dict)),
            old(checker).text@,
            old(checker).cursor as int,
            *old(checker).dict,
        ),
{
    let ghost words = dict_words(*old(checker).dict);
    let ghost doc = old(checker).text@;
    let ghost base = old(checker).cursor as int;
    let ghost d = *old(checker).dict;
    let len = text.as_str().unicode_len();
    let mut i: usize = 0;
    let mut start: usize = 0;
    let mut last = ScanState::Start;
    while i < len
        invariant
            checker.wf(),
            old(checker).same_doc(*checker),
            len == text@.len(),
            doc == checker.text@,
            0 <= base,
            base + len <= doc.len(),
            doc.subrange(base, base + len as int) == text@,
            words == dict_words(*checker.dict),
            d == *checker.dict,
            start <= i <= len,
            checker.cursor as int == base + start,
            last is Start ==> i == 0 && start == 0,
            old(checker).spans@ + scan_text(text@, words) == checker.spans@ + scan(
                text@,
                words,
                i as int,
                start as int,
                last,
            ),
            diag_pos_seq(old(checker).diagnostics@) + diag_positions(
                scan_text(text@, words),
                doc,
                base,
                d,
            ) == diag_pos_seq(checker.diagnostics@) + diag_positions(
                scan(text@, words, i as int, start as int, last),
                doc,
                base + start,
                d,
            ),
        decreases len - i,
    {
        let c = text.as_str().get_char(i);
        let brk = is_break(c);
        match last {
            ScanState::Start => {
                last = if brk {
                    ScanState::Break
                } else {
                    ScanState::Word
                };
            },
            ScanState::Word => {
                if brk {
                    let absorb = c == '.' && checker.valid_word(i - start + 1);
                    proof {
                        lemma_subrange_within(doc, text@, base, start as int, i + 1);
                        assert(absorb == (text@[i as int] == '.' && words.contains(
                            text@.subrange(start as int, i + 1),
                        )));
                    }
                    if !absorb {
                        let ghost spans_pre = checker.spans@;
                        let ghost diags_pre = checker.diagnostics@;
                        let ghost chk = Span { check: true, len: i - start };
                        let ghost rest = scan(text@, words, i + 1, i as int, ScanState::Break);
                        proof {
                            assert(scan(text@, words, i as int, start as int, last) == seq![chk]
                                + rest);
                            lemma_subrange_within(doc, text@, base, start as int, i as int);
                        }
                        checker.check(i - start);
                        proof {
                            assert(checker.spans@ + rest =~= spans_pre + (seq![chk] + rest));
                            let word = doc.subrange(base + start, base + i);
                            let cons = seq![chk] + rest;
                            assert(cons[0] == chk);
                            assert(cons.drop_first() =~= rest);
                            if crate::dict::entry_misspelled(d, word) {
                                let dp = crate::checker::diag_pos_at(doc, base + start, base + i);
                                lemma_diag_map_push(
                                    diags_pre,
                                    checker.diagnostics@,
                                    doc,
                                    base + start,
                                    base + i,
                                );
                                assert(diag_positions(cons, doc, base + start, d) == seq![dp]
                                    + diag_positions(rest, doc, base + i, d));
                                assert(diag_pos_seq(diags_pre).push(dp) + diag_positions(
                                    rest,
                                    doc,
                                    base + i,
                                    d,
                                ) =~= diag_pos_seq(diags_pre) + (seq![dp] + diag_positions(
                                    rest,
                                    doc,
                                    base + i,
                                    d,
                                )));
                            } else {
                                assert(diag_positions(cons, doc, base + start, d)
                                    == diag_positions(rest, doc, base + i, d));
                            }
                        }
                        start = i;
                        last = ScanState::Break;
                    }
                }
            },
            ScanState::Break => {
                if !brk {
                    let ghost spans_pre = checker.spans@;
                    let ghost sk = Span { check: false, len: i - start };
                    let ghost rest = scan(text@, words, i + 1, i as int, ScanState::Word);
                    proof {
                        assert(scan(text@, words, i as int, start as int, last) == seq![sk] + rest);
                    }
                    checker.skip(i - start);
                    proof {
                        assert(checker.spans@ + rest =~= spans_pre + (seq![sk] + rest));
                        let cons = seq![sk] + rest;
                        assert(cons[0] == sk);
                        assert(cons.drop_first() =~= rest);
                        assert(diag_positions(cons, doc, base + start, d) == diag_positions(
                            rest,
                            doc,
                            base + i,
                            d,
                        ));
                    }
                    start = i;
                    last = ScanState::Word;
                }
            },
        }
        i = i + 1;
    }
    let ghost tail = scan(text@, words, len as int, start as int, last);
    match last {
        ScanState::Start => {
            proof {
                assert(tail =~= Seq::<Span>::empty());
                assert(checker.spans@ + tail =~= checker.spans@);
                assert(diag_positions(tail, doc, base + start, d) =~= Seq::<DiagPos>::empty());
                assert(diag_pos_seq(checker.diagnostics@) + Seq::<DiagPos>::empty()
                    =~= diag_pos_seq(checker.diagnostics@));
            }
        },
        ScanState::Word => {
            let ghost spans_pre = checker.spans@;
            let ghost diags_pre = checker.diagnostics@;
            let ghost chk = Span { check: true, len: len - start };
            proof {
                assert(tail == seq![chk]);
                lemma_subrange_within(doc, text@, base, start as int, len as int);
            }
            checker.check(len - start);
            proof {
                assert(checker.spans@ =~= spans_pre + seq![chk]);
                let word = doc.subrange(base + start, base + len);
                assert(tail[0] == chk);
                assert(tail.drop_first() =~= Seq::<Span>::empty());
                assert(diag_positions(Seq::empty(), doc, base + len, d) =~= Seq::<
                    DiagPos,
                >::empty());
                if crate::dict::entry_misspelled(d, word) {
                    let dp = crate::checker::diag_pos_at(doc, base + start, base + len);
                    lemma_diag_map_push(diags_pre, checker.diagnostics@, doc, base + start, base
                        + len);
                    assert(diag_positions(tail, doc, base + start, d) =~= seq![dp]);
                    assert(diag_pos_seq(diags_pre).push(dp) =~= diag_pos_seq(diags_pre)
                        + seq![dp]);
                } else {
                    assert(diag_positions(tail, doc, base + start, d) =~= Seq::<DiagPos>::empty());
                    assert(diag_pos_seq(checker.diagnostics@) + Seq::<DiagPos>::empty()
                        =~= diag_pos_seq(checker.diagnostics@));
                }
            }
        },
        ScanState::Break => {
            let ghost spans_pre = checker.spans@;
            let ghost sk = Span { check: false, len: len - start };
            proof {
                assert(tail == seq![sk]);
            }
            checker.skip(len - start);
            proof {
                assert(checker.spans@ =~= spans_pre + seq![sk]);
                assert(tail[0] == sk);
                assert(tail.drop_first() =~= Seq::<Span>::empty());
                assert(diag_positions(Seq::empty(), doc, base + len, d) =~= Seq::<
                    DiagPos,
                >::empty());
                assert(diag_positions(tail, doc, base + start, d) =~= Seq::<DiagPos>::empty());
                assert(diag_pos_seq(checker.diagnostics@) + Seq::<DiagPos>::empty()
                    =~= diag_pos_seq(checker.diagnostics@));
            }
        },
    }
}

/// A node sequence's text splits at any member into the text before it,
/// its own, and the text after it.
pub proof fn lemma_children_text_split(s: Seq<Node>, j: int)
    requires
        0 <= j < s.len(),
    ensures
        children_text(s) == children_text(s.take(j)) + node_text(s[j]) + children_text(
            s.skip(j + 1),
        ),
        children_text(s).len() == children_text(s.take(j)).len() + node_text(s[j]).len()
            + children_text(s.skip(j + 1)).len(),
{
    assert(s =~= s.take(j + 1) + s.skip(j + 1));
    lemma_children_text_concat(s.take(j + 1), s.skip(j + 1));
    assert(s.take(j + 1) =~= s.take(j).push(s[j]));
    lemma_children_text_push(s.take(j), s[j]);
    assert((children_text(s.take(j)) + node_text(s[j])) + children_text(s.skip(j + 1))
        =~= children_text(s.take(j)) + node_text(s[j]) + children_text(s.skip(j + 1)));
}

/// Skip a whole subtree: its own text and, recursively, its children's.
fn skip_subtree(node: &Node, checker: &mut Checker)
    requires
        old(checker).wf(),
        old(checker).cursor + node_text(*node).len() <= old(checker).text@.len(),
    ensures
        final(checker).wf(),
        old(checker).same_doc(*final(checker)),
        final(checker).cursor == old(checker).cursor + node_text(*node).len(),
        final(checker).diagnostics == old(checker).diagnostics,
        final(checker).spans@ == old(checker).spans@ + skip_walk(*node),
    decreases *node,
{
    let ghost doc = old(checker).text@;
    let ghost base = old(checker).cursor as int;
    proof {
        assert(node_text(*node).len() == node.text@.len() + children_text(
            node.children@,
        ).len());
    }
    let own_len = node.text.as_str().unicode_len();
    checker.skip(own_len);
    let ghost sk = Span { check: false, len: node.text@.len() as int };
    skip_children(&node.children, checker);
    proof {
        assert(checker.spans@ =~= (old(checker).spans@.push(sk)) + skip_walk_children(
            node.children@,
        ));
        assert(old(checker).spans@.push(sk) + skip_walk_children(node.children@)
            =~= old(checker).spans@ + (seq![sk] + skip_walk_children(node.children@)));
    }
}

/// Skip each of a sequence of subtrees, in order.
fn skip_children(children: &Vec<Node>, checker: &mut Checker)
    requires
        old(checker).wf(),
        old(checker).cursor + children_text(children@).len() <= old(checker).text@.len(),
    ensures
        final(checker).wf(),
        old(checker).same_doc(*final(checker)),
        final(checker).cursor == old(checker).cursor + children_text(children@).len(),
        final(checker).diagnostics == old(checker).diagnostics,
        final(checker).spans@ == old(checker).spans@ + skip_walk_children(children@),
    decreases children@,
{
    let ghost base = old(checker).cursor as int;
    let mut j: usize = 0;
    proof {
        assert(children@.take(0) =~= Seq::<Node>::empty());
        assert(checker.spans@ + skip_walk_children(Seq::empty()) =~= checker.spans@);
    }
    while j < children.len()
        invariant
            checker.wf(),
            old(checker).same_doc(*checker),
            j <= children@.len(),
            0 <= base,
            base + children_text(children@).len() <= checker.text@.len(),
            checker.cursor as int == base + children_text(children@.take(j as int)).len(),
            checker.diagnostics == old(checker).diagnostics,
            checker.spans@ == old(checker).spans@ + skip_walk_children(
                children@.take(j as int),
            ),
        decreases children@.len() - j,
    {
        proof {
            lemma_children_text_split(children@, j as int);
        }
        let ghost spans_pre = checker.spans@;
        skip_subtree(&children[j], checker);
        proof {
            assert(children@.take(j + 1) =~= children@.take(j as int).push(children@[j as int]));
            lemma_children_text_push(children@.take(j as int), children@[j as int]);
            lemma_skip_walk_children_push(children@.take(j as int), children@[j as int]);
            assert(checker.spans@ =~= old(checker).spans@ + skip_walk_children(
                children@.take(j + 1),
            ));
        }
        j = j + 1;
    }
    proof {
        assert(children@.take(children@.len() as int) =~= children@);
    }
}

/// Walk one node under the inherited mode, dispatching on its kind as the
/// per-kind policy says, and recursing into its children.
fn convert(node: &Node, mode: Mode, checker: &mut Checker)
    requires
        old(checker).wf(),
        old(checker).cursor + node_text(*node).len() <= old(checker).text@.len(),
        old(checker).text@.subrange(
            old(checker).cursor as int,
            old(checker).cursor + node_text(*node).len(),
        ) == node_text(*node),
    ensures
        final(checker).wf(),
        old(checker).same_doc(*final(checker)),
        final(checker).cursor == old(checker).cursor + node_text(*node).len(),
        final(checker).spans@ == old(checker).spans@ + walk_node(
            *node,
            mode,
            dict_words(*old(checker).dict),
        ),
        diag_pos_seq(final(checker).diagnostics@) == diag_pos_seq(old(checker).diagnostics@)
            + diag_positions(
            walk_node(*node, mode, dict_words(*old(checker).dict)),
            old(checker).text@,
            old(checker).cursor as int,
            *old(checker).dict,
        ),
    decreases *node,
{
    let ghost words = dict_words(*old(checker).dict);
    let ghost doc = old(checker).text@;
    let ghost base = old(checker).cursor as int;
    let ghost d = *old(checker).dict;
    let ghost own = node.text@;
    let ghost kids = node.children@;
    proof {
        assert(node_text(*node) == own + children_text(kids));
        assert forall|k: int| 0 <= k < own.len() implies doc.subrange(base, base + own.len())[k]
            == own[k] by {
            assert(doc.subrange(base, base + node_text(*node).len())[k] == node_text(*node)[k]);
        }
        assert(doc.subrange(base, base + own.len()) =~= own);
        assert forall|k: int| 0 <= k < children_text(kids).len() implies doc.subrange(
            base + own.len(),
            base + node_text(*node).len(),
        )[k] == children_text(kids)[k] by {
            assert(doc.subrange(base, base + node_text(*node).len())[own.len() + k] == node_text(
                *node,
            )[own.len() + k]);
        }
        assert(doc.subrange(base + own.len(), base + node_text(*node).len()) =~= children_text(
            kids,
        ));
    }
    match node.kind {
        NodeKind::Opaque => {
            skip_subtree(node, checker);
            proof {
                lemma_skip_walk_no_check(*node);
                lemma_no_check_no_diags(skip_walk(*node), doc, base, d);
                assert(diag_pos_seq(checker.diagnostics@) + Seq::<DiagPos>::empty()
                    =~= diag_pos_seq(checker.diagnostics@));
            }
        },
        NodeKind::Text => {
            if mode == Mode::Markdown {
                let ghost first = scan_text(own, words);
                convert_text(&node.text, checker);
                let ghost mid_spans = checker.spans@;
                let ghost mid_diags = checker.diagnostics@;
                convert_children(&node.children, mode, checker);
                proof {
                    lemma_scan_total(own, words, 0, 0, ScanState::Start);
                    glue_walk(
                        old(checker).spans@,
                        mid_spans,
                        checker.spans@,
                        diag_pos_seq(old(checker).diagnostics@),
                        diag_pos_seq(mid_diags),
                        diag_pos_seq(checker.diagnostics@),
                        first,
                        walk_children(kids, mode, words),
                        doc,
                        base,
                        own.len() as int,
                        d,
                    );
                }
            } else {
                let own_len = node.text.as_str().unicode_len();
                checker.skip(own_len);
                let ghost mid_spans = checker.spans@;
                let ghost mid_diags = checker.diagnostics@;
                convert_children(&node.children, mode, checker);
                proof {
                    glue_skip_then(
                        old(checker).spans@,
                        mid_spans,
                        checker.spans@,
                        diag_pos_seq(old(checker).diagnostics@),
                        diag_pos_seq(mid_diags),
                        diag_pos_seq(checker.diagnostics@),
                        own.len() as int,
                        walk_children(kids, mode, words),
                        doc,
                        base,
                        d,
                    );
                }
            }
        },
        NodeKind::CodeConstruct => {
            let own_len = node.text.as_str().unicode_len();
            checker.skip(own_len);
            let ghost mid_spans = checker.spans@;
            let ghost mid_diags = checker.diagnostics@;
            convert_children(&node.children, Mode::Code, checker);
            proof {
                glue_skip_then(
                    old(checker).spans@,
                    mid_spans,
                    checker.spans@,
                    diag_pos_seq(old(checker).diagnostics@),
                    diag_pos_seq(mid_diags),
                    diag_pos_seq(checker.diagnostics@),
                    own.len() as int,
                    walk_children(kids, Mode::Code, words),
                    doc,
                    base,
                    d,
                );
            }
        },
        NodeKind::Markup => {
            let own_len = node.text.as_str().unicode_len();
            checker.skip(own_len);
            let ghost mid_spans = checker.spans@;
            let ghost mid_diags = checker.diagnostics@;
            convert_children(&node.children, Mode::Markdown, checker);
            proof {
                glue_skip_then(
                    old(checker).spans@,
                    mid_spans,
                    checker.spans@,
                    diag_pos_seq(old(checker).diagnostics@),
                    diag_pos_seq(mid_diags),
                    diag_pos_seq(checker.diagnostics@),
                    own.len() as int,
                    walk_children(kids, Mode::Markdown, words),
                    doc,
                    base,
                    d,
                );
            }
        },
        NodeKind::SmartQuote => {
            if mode == Mode::Markdown {
                let ghost diags0 = checker.diagnostics@;
                let own_len = node.text.as_str().unicode_len();
                checker.check(own_len);
                let ghost chk = Span { check: true, len: own.len() as int };
                let ghost mid_spans = checker.spans@;
                let ghost mid_diags = checker.diagnostics@;
                proof {
                    assert(mid_spans =~= old(checker).spans@ + seq![chk]);
                    if crate::dict::entry_misspelled(d, doc.subrange(base, base + own.len())) {
                        let dp = crate::checker::diag_pos_at(doc, base, base + own.len());
                        lemma_diag_map_push(diags0, mid_diags, doc, base, base + own.len());
                        assert(seq![chk][0] == chk);
                        assert(seq![chk].drop_first() =~= Seq::<Span>::empty());
                        assert(diag_positions(Seq::empty(), doc, base + own.len(), d) =~= Seq::<
                            DiagPos,
                        >::empty());
                        assert(seq![dp] + Seq::<DiagPos>::empty() =~= seq![dp]);
                        assert(diag_positions(seq![chk], doc, base, d) =~= seq![dp]);
                        assert(diag_pos_seq(diags0).push(dp) =~= diag_pos_seq(diags0) + seq![dp]);
                    } else {
                        assert(seq![chk][0] == chk);
                        assert(seq![chk].drop_first() =~= Seq::<Span>::empty());
                        assert(diag_positions(Seq::empty(), doc, base + own.len(), d) =~= Seq::<
                            DiagPos,
                        >::empty());
                        assert(diag_positions(seq![chk], doc, base, d) =~= Seq::<
                            DiagPos,
                        >::empty());
                        assert(diag_pos_seq(mid_diags) + Seq::<DiagPos>::empty() =~= diag_pos_seq(
                            mid_diags,
                        ));
                    }
                }
                convert_children(&node.children, mode, checker);
                proof {
                    glue_one_then(
                        old(checker).spans@,
                        mid_spans,
                        checker.spans@,
                        diag_pos_seq(old(checker).diagnostics@),
                        diag_pos_seq(mid_diags),
                        diag_pos_seq(checker.diagnostics@),
                        chk,
                        walk_children(kids, mode, words),
                        doc,
                        base,
                        d,
                    );
                }
            } else {
                let own_len = node.text.as_str().unicode_len();
                checker.skip(own_len);
                let ghost mid_spans = checker.spans@;
                let ghost mid_diags = checker.diagnostics@;
                convert_children(&node.children, mode, checker);
                proof {
                    glue_skip_then(
                        old(checker).spans@,
                        mid_spans,
                        checker.spans@,
                        diag_pos_seq(old(checker).diagnostics@),
                        diag_pos_seq(mid_diags),
                        diag_pos_seq(checker.diagnostics@),
                        own.len() as int,
                        walk_children(kids, mode, words),
                        doc,
                        base,
                        d,
                    );
                }
            }
        },
        NodeKind::Other => {
            let own_len = node.text.as_str().unicode_len();
            checker.skip(own_len);
            let ghost mid_spans = checker.spans@;
            let ghost mid_diags = checker.diagnostics@;
            convert_children(&node.children, mode, checker);
            proof {
                glue_skip_then(
                    old(checker).spans@,
                    mid_spans,
                    checker.spans@,
                    diag_pos_seq(old(checker).diagnostics@),
                    diag_pos_seq(mid_diags),
                    diag_pos_seq(checker.diagnostics@),
                    own.len() as int,
                    walk_children(kids, mode, words),
                    doc,
                    base,
                    d,
                );
            }
        },
    }
}

/// Stitch together the span and diagnostic records of a first stage that
/// emitted `first` (covering the text up to `mid`) and a second stage that
/// emitted `second`, into the record of their concatenation.
proof fn glue_walk(
    spans0: Seq<Span>,
    spans1: Seq<Span>,
    spans2: Seq<Span>,
    dps0: Seq<DiagPos>,
    dps1: Seq<DiagPos>,
    dps2: Seq<DiagPos>,
    first: Seq<Span>,
    second: Seq<Span>,
    doc: Seq<char>,
    base: int,
    mid: int,
    d: zspell::Dictionary,
)
    requires
        spans1 == spans0 + first,
        spans2 == spans1 + second,
        span_total(first) == mid,
        dps1 == dps0 + diag_positions(first, doc, base, d),
        dps2 == dps1 + diag_positions(second, doc, base + mid, d),
    ensures
        spans2 == spans0 + (first + second),
        dps2 == dps0 + diag_positions(first + second, doc, base, d),
{
    assert(spans2 =~= spans0 + (first + second));
    lemma_diag_positions_concat(first, second, doc, base, d);
    assert(dps2 =~= dps0 + diag_positions(first + second, doc, base, d));
}

/// As `glue_walk`, for a first stage that emitted one skipped span.
proof fn glue_skip_then(
    spans0: Seq<Span>,
    spans1: Seq<Span>,
    spans2: Seq<Span>,
    dps0: Seq<DiagPos>,
    dps1: Seq<DiagPos>,
    dps2: Seq<DiagPos>,
    own: int,
    second: Seq<Span>,
    doc: Seq<char>,
    base: int,
    d: zspell::Dictionary,
)
    requires
        spans1 == spans0.push(Span { check: false, len: own }),
        spans2 == spans1 + second,
        dps1 == dps0,
        dps2 == dps1 + diag_positions(second, doc, base + own, d),
    ensures
        spans2 == spans0 + (seq![Span { check: false, len: own }] + second),
        dps2 == dps0 + diag_positions(seq![Span { check: false, len: own }] + second, doc, base, d),
{
    let sk = Span { check: false, len: own };
    assert(spans2 =~= spans0 + (seq![sk] + second));
    assert((seq![sk] + second)[0] == sk);
    assert((seq![sk] + second).drop_first() =~= second);
    assert(diag_positions(seq![sk] + second, doc, base, d) == diag_positions(
        second,
        doc,
        base + own,
        d,
    ));
}

/// As `glue_walk`, for a first stage that emitted exactly one span.
proof fn glue_one_then(
    spans0: Seq<Span>,
    spans1: Seq<Span>,
    spans2: Seq<Span>,
    dps0: Seq<DiagPos>,
    dps1: Seq<DiagPos>,
    dps2: Seq<DiagPos>,
    x: Span,
    second: Seq<Span>,
    doc: Seq<char>,
    base: int,
    d: zspell::Dictionary,
)
    requires
        spans1 == spans0 + seq![x],
        spans2 == spans1 + second,
        dps1 == dps0 + diag_positions(seq![x], doc, base, d),
        dps2 == dps1 + diag_positions(second, doc, base + x.len, d),
    ensures
        spans2 == spans0 + (seq![x] + second),
        dps2 == dps0 + diag_positions(seq![x] + second, doc, base, d),
{
    assert(span_total(seq![x]) == x.len + span_total(seq![x].drop_first())) by {
        assert(seq![x][0] == x);
        assert(seq![x].drop_first() =~= Seq::<Span>::empty());
    }
    glue_walk(spans0, spans1, spans2, dps0, dps1, dps2, seq![x], second, doc, base, x.len, d);
}

/// Walk each of a sequence of subtrees under `mode`, in order.
fn convert_children(children: &Vec<Node>, mode: Mode, checker: &mut Checker)
    requires
        old(checker).wf(),
        old(checker).cursor + children_text(children@).len() <= old(checker).text@.len(),
        old(checker).text@.subrange(
            old(checker).cursor as int,
            old(checker).cursor + children_text(children@).len(),
        ) == children_text(children@),
    ensures
        final(checker).wf(),
        old(checker).same_doc(*final(checker)),
        final(checker).cursor == old(checker).cursor + children_text(children@).len(),
        final(checker).spans@ == old(checker).spans@ + walk_children(
            children@,
            mode,
            dict_words(*old(checker).dict),
        ),
        diag_pos_seq(final(checker).diagnostics@) == diag_pos_seq(old(checker).diagnostics@)
            + diag_positions(
            walk_children(children@, mode, dict_words(*old(checker).dict)),
            old(checker).text@,
            old(checker).cursor as int,
            *old(checker).dict,
        ),
    decreases children@,
{
    let ghost words = dict_words(*old(checker).dict);
    let ghost doc = old(checker).text@;
    let ghost base = old(checker).cursor as int;
    let ghost d = *old(checker).dict;
    let ghost all = children@;
    let mut j: usize = 0;
    proof {
        assert(all.take(0) =~= Seq::<Node>::empty());
        assert(checker.spans@ + walk_children(Seq::empty(), mode, words) =~= checker.spans@);
        assert(diag_positions(walk_children(Seq::empty(), mode, words), doc, base, d) =~= Seq::<
            DiagPos,
        >::empty());
        assert(diag_pos_seq(checker.diagnostics@) + Seq::<DiagPos>::empty() =~= diag_pos_seq(
            checker.diagnostics@,
        ));
    }
    while j < children.len()
        invariant
            checker.wf(),
            old(checker).same_doc(*checker),
            all == children@,
            j <= all.len(),
            0 <= base,
            doc == checker.text@,
            words == dict_words(*checker.dict),
            d == *checker.dict,
            base + children_text(all).len() <= doc.len(),
            doc.subrange(base, base + children_text(all).len()) == children_text(all),
            checker.cursor as int == base + children_text(all.take(j as int)).len(),
            checker.spans@ == old(checker).spans@ + walk_children(
                all.take(j as int),
                mode,
                words,
            ),
            diag_pos_seq(checker.diagnostics@) == diag_pos_seq(old(checker).diagnostics@)
                + diag_positions(walk_children(all.take(j as int), mode, words), doc, base, d),
        decreases all.len() - j,
    {
        let ghost off = children_text(all.take(j as int)).len() as int;
        let ghost child = all[j as int];
        proof {
            lemma_children_text_split(all, j as int);
            assert forall|k: int| 0 <= k < node_text(child).len() implies children_text(
                all,
            ).subrange(off, off + node_text(child).len())[k] == node_text(child)[k] by {
                assert(children_text(all)[off + k] == ((children_text(all.take(j as int))
                    + node_text(child)) + children_text(all.skip(j + 1)))[off + k]);
            }
            assert(children_text(all).subrange(off, off + node_text(child).len()) =~= node_text(
                child,
            ));
            lemma_subrange_within(
                doc,
                children_text(all),
                base,
                off,
                off + node_text(child).len(),
            );
        }
        let ghost spans_pre = checker.spans@;
        let ghost diags_pre = checker.diagnostics@;
        convert(&children[j], mode, checker);
        proof {
            assert(all.take(j + 1) =~= all.take(j as int).push(child));
            lemma_children_text_push(all.take(j as int), child);
            lemma_walk_children_push(all.take(j as int), child, mode, words);
            lemma_walk_children_total(all.take(j as int), mode, words);
            lemma_diag_positions_concat(
                walk_children(all.take(j as int), mode, words),
                walk_node(child, mode, words),
                doc,
                base,
                d,
            );
            assert(checker.spans@ =~= old(checker).spans@ + walk_children(
                all.take(j + 1),
                mode,
                words,
            ));
            assert(diag_pos_seq(checker.diagnostics@) =~= diag_pos_seq(old(checker).diagnostics@)
                + diag_positions(walk_children(all.take(j + 1), mode, words), doc, base, d));
        }
        j = j + 1;
    }
    proof {
        assert(all.take(all.len() as int) =~= all);
    }
}

/// Run one whole classification pass: walk the tree from its root in
/// markdown mode, feeding every span to the tracker in document order.
///
/// The recorded spans extend by exactly the walk of the node, covering its
/// text completely, and the recorded diagnostic positions extend by
/// exactly the positions that walk determines.  Started on a fresh tracker
/// whose text is the node's text, the diagnostics are pinned to
/// `pass_diag_positions`: a function of tree, text and dictionary alone.
pub fn check(node: &Node, checker: &mut Checker)
    requires
        old(checker).wf(),
        old(checker).cursor + node_text(*node).len() <= old(checker).text@.len(),
        old(checker).text@.subrange(
            old(checker).cursor as int,
            old(checker).cursor + node_text(*node).len(),
        ) == node_text(*node),
    ensures
        final(checker).wf(),
        old(checker).same_doc(*final(checker)),
        final(checker).cursor == old(checker).cursor + node_text(*node).len(),
        final(checker).spans@ == old(checker).spans@ + walk_node(
            *node,
            Mode::Markdown,
            dict_words(*old(checker).dict),
        ),
        diag_pos_seq(final(checker).diagnostics@) == diag_pos_seq(old(checker).diagnostics@)
            + diag_positions(
            walk_node(*node, Mode::Markdown, dict_words(*old(checker).dict)),
            old(checker).text@,
            old(checker).cursor as int,
            *old(checker).dict,
        ),
        old(checker).cursor == 0 && old(checker).diagnostics@.len() == 0 ==> diag_pos_seq(
            final(checker).diagnostics@,
        ) == pass_diag_positions(*node, old(checker).text@, *old(checker).dict),
    {
    convert(node, Mode::Markdown, checker);
    proof {
        if old(checker).cursor == 0 && old(checker).diagnostics@.len() == 0 {
            assert(diag_pos_seq(old(checker).diagnostics@) =~= Seq::<DiagPos>::empty());
            assert(Seq::<DiagPos>::empty() + diag_positions(
                walk_node(*node, Mode::Markdown, dict_words(*old(checker).dict)),
                old(checker).text@,
                0,
                *old(checker).dict,
            ) =~= diag_positions(
                walk_node(*node, Mode::Markdown, dict_words(*old(checker).dict)),
                old(checker).text@,
                0,
                *old(checker).dict,
            ));
        }
    }
}

/// Parse a source text and run one whole classification pass over it:
/// the compute core of handling a file.  The returned tracker has
/// consumed the full text and holds the pass's diagnostics, whose
/// positions are a function of the text and the dictionary alone.
pub fn check_document<'a>(
    dict: &'a zspell::Dictionary,
    text: String,
    path: String,
    pretty: Option<usize>,
) -> (r: Checker<'a>)
    requires
        text@.len() < usize::MAX,
    ensures
        r.wf(),
        r.dict == dict,
        r.text == text,
        r.path == path,
        r.pretty == pretty,
        r.cursor == text@.len(),
        r.spans@ == walk_node(parsed(text@), Mode::Markdown, dict_words(*dict)),
        diag_pos_seq(r.diagnostics@) == pass_diag_positions(parsed(text@), text@, *dict),
{
    let root = crate::tree::parse_document(text.as_str());
    let mut checker = Checker::new(dict, text, path, pretty);
    proof {
        assert(checker.text@.subrange(0, node_text(root).len() as int) =~= checker.text@);
        assert(checker.spans@ + walk_node(root, Mode::Markdown, dict_words(*dict)) =~= walk_node(
            root,
            Mode::Markdown,
            dict_words(*dict),
        ));
    }
    check(&root, &mut checker);
    checker
}

/// The diagnostic positions one whole pass over a document produces: the
/// walk starts in markdown mode at the top of the text.
pub open spec fn pass_diag_positions(n: Node, t: Seq<char>, d: zspell::Dictionary) -> Seq<DiagPos> {
    diag_positions(walk_node(n, Mode::Markdown, dict_words(d)), t, 0, d)
}

/// Idempotence: the positions a pass reports are a function of the tree,
/// the text and the dictionary alone, so re-running the classifier on
/// identical input with an unchanged oracle reports the same misspellings
/// at the same places in the same order.  (The suggestion lists attached to
/// them come from the oracle's internal hash-map walk and are not pinned.)
pub proof fn lemma_pass_deterministic(
    a: Seq<crate::checker::Diagnostic>,
    b: Seq<crate::checker::Diagnostic>,
    n: Node,
    t: Seq<char>,
    d: zspell::Dictionary,
)
    requires
        diag_pos_seq(a) == pass_diag_positions(n, t, d),
        diag_pos_seq(b) == pass_diag_positions(n, t, d),
    ensures
        diag_pos_seq(a) == diag_pos_seq(b),
{
}

} // verus!
