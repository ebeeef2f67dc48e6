//! The snippet renderer.  A diagnostic is rendered either as a plain
//! single line, or as a context snippet: a window around the misspelled
//! range, cut only on character boundaries, annotated with the suggested
//! replacements.

use annotate_snippets::display_list::{DisplayList, FormatOptions};
use annotate_snippets::snippet::{Annotation, AnnotationType, Slice, Snippet, SourceAnnotation};
use vstd::prelude::*;

use crate::checker::{Checker, Diagnostic};

verus! {

/// The decimal digit character for `d`.
pub open spec fn dec_digit(d: int) -> char {
    if d == 0 {
        '0'
    } else if d == 1 {
        '1'
    } else if d == 2 {
        '2'
    } else if d == 3 {
        '3'
    } else if d == 4 {
        '4'
    } else if d == 5 {
        '5'
    } else if d == 6 {
        '6'
    } else if d == 7 {
        '7'
    } else if d == 8 {
        '8'
    } else {
        '9'
    }
}

/// The decimal digit characters of `n`, most significant first.
pub open spec fn dec_seq(n: int) -> Seq<char>
    decreases n,
{
    if n < 10 {
        seq![dec_digit(n)]
    } else {
        dec_seq(n / 10).push(dec_digit(n % 10))
    }
}

fn digit_str(d: usize) -> (r: &'static str)
    requires
        d < 10,
    ensures
        r@ == seq![dec_digit(d as int)],
{
    proof {
        reveal_strlit("0");
        reveal_strlit("1");
        reveal_strlit("2");
        reveal_strlit("3");
        reveal_strlit("4");
        reveal_strlit("5");
        reveal_strlit("6");
        reveal_strlit("7");
        reveal_strlit("8");
        reveal_strlit("9");
    }
    if d == 0 {
        "0"
    } else if d == 1 {
        "1"
    } else if d == 2 {
        "2"
    } else if d == 3 {
        "3"
    } else if d == 4 {
        "4"
    } else if d == 5 {
        "5"
    } else if d == 6 {
        "6"
    } else if d == 7 {
        "7"
    } else if d == 8 {
        "8"
    } else {
        "9"
    }
}

/// Format a number in decimal.
pub fn usize_to_string(n: usize) -> (r: String)
    ensures
        r@ == dec_seq(n as int),
    decreases n,
{
    if n < 10 {
        let mut out = String::new();
        out.append(digit_str(n));
        proof {
            assert(Seq::<char>::empty() + seq![dec_digit(n as int)] =~= seq![
                dec_digit(n as int),
            ]);
        }
        out
    } else {
        let mut out = usize_to_string(n / 10);
        out.append(digit_str(n % 10));
        proof {
            assert(dec_seq((n / 10) as int) + seq![dec_digit((n % 10) as int)] =~= dec_seq(
                (n / 10) as int,
            ).push(dec_digit((n % 10) as int)));
        }
        out
    }
}

/// The tail of a comma-separated list: a leading separator before each
/// remaining entry.
pub open spec fn more_commas(s: Seq<Seq<char>>) -> Seq<char>
    decreases s.len(),
{
    if s.len() == 0 {
        Seq::empty()
    } else {
        ", "@ + s[0] + more_commas(s.drop_first())
    }
}

/// A comma-separated list.
pub open spec fn joined_commas(s: Seq<Seq<char>>) -> Seq<char> {
    if s.len() == 0 {
        Seq::empty()
    } else {
        s[0] + more_commas(s.drop_first())
    }
}

/// The plain rendering of one diagnostic: the file, the start and end
/// positions, and the comma-separated suggestions on a single line.
pub open spec fn plain_line(
    path: Seq<char>,
    line_start: int,
    column_start: int,
    line_end: int,
    column_end: int,
    suggestions: Seq<Seq<char>>,
) -> Seq<char> {
    path + " "@ + dec_seq(line_start) + ":"@ + dec_seq(column_start) + "-"@ + dec_seq(line_end)
        + ":"@ + dec_seq(column_end) + " info "@ + joined_commas(suggestions)
}

/// Render one diagnostic as a single plain line:
/// `<path> <startLine>:<startCol>-<endLine>:<endCol> info <s1>, <s2>, ...`.
pub fn output_plain(
    file_name: &str,
    line_start: usize,
    column_start: usize,
    line_end: usize,
    column_end: usize,
    suggestions: &Vec<String>,
) -> (r: String)
    ensures
        r@ == plain_line(
            file_name@,
            line_start as int,
            column_start as int,
            line_end as int,
            column_end as int,
            suggestions.deep_view(),
        ),
{
    let ghost all = suggestions.deep_view();
    let mut out = String::new();
    out.append(file_name);
    out.append(" ");
    let s1 = usize_to_string(line_start);
    out.append(s1.as_str());
    out.append(":");
    let s2 = usize_to_string(column_start);
    out.append(s2.as_str());
    out.append("-");
    let s3 = usize_to_string(line_end);
    out.append(s3.as_str());
    out.append(":");
    let s4 = usize_to_string(column_end);
    out.append(s4.as_str());
    out.append(" info ");
    let ghost head = out@;
    proof {
        assert(head =~= file_name@ + " "@ + dec_seq(line_start as int) + ":"@ + dec_seq(
            column_start as int,
        ) + "-"@ + dec_seq(line_end as int) + ":"@ + dec_seq(column_end as int) + " info "@);
    }
    if suggestions.len() > 0 {
        out.append(suggestions[0].as_str());
        let mut k: usize = 1;
        proof {
            assert(all.skip(1) =~= all.drop_first());
        }
        while k < suggestions.len()
            invariant
                1 <= k <= suggestions@.len(),
                all == suggestions.deep_view(),
                all.len() == suggestions@.len(),
                out@ + more_commas(all.skip(k as int)) == head + all[0] + more_commas(
                    all.drop_first(),
                ),
            decreases suggestions@.len() - k,
        {
            out.append(", ");
            out.append(suggestions[k].as_str());
            proof {
                assert(all.skip(k as int)[0] == all[k as int]);
                assert(all[k as int] == suggestions@[k as int]@);
                assert(all.skip(k as int).drop_first() =~= all.skip(k as int + 1));
                assert(more_commas(all.skip(k as int)) == ", "@ + all[k as int] + more_commas(
                    all.skip(k as int + 1),
                ));
            }
            k = k + 1;
        }
        proof {
            assert(all.skip(all.len() as int) =~= Seq::<Seq<char>>::empty());
            assert(more_commas(Seq::empty()) =~= Seq::<char>::empty());
            assert(out@ + Seq::<char>::empty() =~= out@);
            assert(all[0] == suggestions@[0]@);
            assert(out@ =~= head + joined_commas(all));
        }
    } else {
        proof {
            assert(joined_commas(all) =~= Seq::<char>::empty());
            assert(out@ + Seq::<char>::empty() =~= out@);
        }
    }
    proof {
        assert(out@ =~= plain_line(
            file_name@,
            line_start as int,
            column_start as int,
            line_end as int,
            column_end as int,
            all,
        ));
    }
    out
}

/// A character that bounds a context window: a line break or a tab.
pub open spec fn is_stop_char(c: char) -> bool {
    c == '\n' || c == '\t' || c == '\r'
}

fn is_stop(c: char) -> (r: bool)
    ensures
        r == is_stop_char(c),
{
    c == '\n' || c == '\t' || c == '\r'
}

/// Where the context window opens: walking backward from the range start,
/// over `t[j]`, `t[j-1]`, ..., having already taken `idx` characters of
/// context, it stops after `limit` characters or just after a stop
/// character, whichever comes first, and at the top of the text at the
/// latest.
pub open spec fn window_start_from(t: Seq<char>, j: int, idx: int, limit: int) -> int
    decreases j + 1,
{
    if j < 0 {
        0
    } else if is_stop_char(t[j]) || idx >= limit {
        j + 1
    } else {
        window_start_from(t, j - 1, idx + 1, limit)
    }
}

/// Where the context window closes: walking forward from the range end.
pub open spec fn window_end_from(t: Seq<char>, j: int, idx: int, limit: int) -> int
    decreases t.len() - j,
{
    if j >= t.len() {
        t.len() as int
    } else if is_stop_char(t[j]) || idx >= limit {
        j
    } else {
        window_end_from(t, j + 1, idx + 1, limit)
    }
}

/// The rendered context snippet that the outside renderer produces from a
/// window, the in-window character range to annotate, and the suggestions.
pub uninterp spec fn snippet_of(
    path: Seq<char>,
    line_start: int,
    context: Seq<char>,
    char_start: int,
    char_end: int,
    suggestions: Seq<Seq<char>>,
) -> Seq<char>;

/// Relies on `annotate_snippets`' `DisplayList` formatting
/// (`DisplayList::from` and its `Display` impl): a pure rendering of the
/// snippet built from these values, titled "Unknown word", with one info
/// annotation over the range and one help annotation per suggestion.
#[verifier::external_body]
fn render_snippet(
    file_name: &str,
    line_start: usize,
    context: &str,
    char_start: usize,
    char_end: usize,
    suggestions: &Vec<String>,
) -> (r: String)
    requires
        char_start <= char_end <= context@.len(),
    ensures
        r@ == snippet_of(
            file_name@,
            line_start as int,
            context@,
            char_start as int,
            char_end as int,
            suggestions.deep_view(),
        ),
{
    let range = (char_start, char_end);
    let info = SourceAnnotation { label: "", annotation_type: AnnotationType::Info, range };
    let help = suggestions.iter().map(|s| SourceAnnotation { label: s, annotation_type: AnnotationType::Help, range });
    let annotations = std::iter::once(info).chain(help).collect();
    let title = Annotation { label: Some("Unknown word"), annotation_type: AnnotationType::Info, id: None };
    let slice = Slice { source: context, line_start, origin: Some(file_name), fold: true, annotations };
    let opt = FormatOptions { color: true, anonymized_line_numbers: false, margin: None };
    DisplayList::from(Snippet { title: Some(title), footer: Vec::new(), slices: vec![slice], opt }).to_string()
}

/// Render one diagnostic as an annotated context snippet.  The extracted
/// window is a contiguous character range of the text, so no character is
/// ever split, whatever the context length.
pub fn output_pretty(
    file_name: &str,
    line_start: usize,
    text: &str,
    range_start: usize,
    range_end: usize,
    context_length: usize,
    suggestions: &Vec<String>,
) -> (r: String)
    requires
        range_start <= range_end <= text@.len(),
    ensures
        ({
            let ws = window_start_from(text@, range_start - 1, 0, context_length as int);
            let we = window_end_from(text@, range_end as int, 0, context_length as int);
            r@ == snippet_of(
                file_name@,
                line_start as int,
                text@.subrange(ws, we),
                range_start - ws,
                range_end - ws,
                suggestions.deep_view(),
            )
        }),
{
    let ghost t = text@;
    let ghost limit = context_length as int;
    let mut j: usize = range_start;
    let mut idx: usize = 0;
    loop
        invariant
            j <= range_start <= t.len(),
            t == text@,
            limit == context_length as int,
            idx == range_start - j,
            window_start_from(t, range_start - 1, 0, limit) == window_start_from(
                t,
                j - 1,
                idx as int,
                limit,
            ),
        ensures
            j <= range_start,
            window_start_from(t, range_start - 1, 0, limit) == j,
        decreases j,
    {
        if j == 0 {
            proof {
                assert(window_start_from(t, j - 1, idx as int, limit) == 0);
            }
            break ;
        }
        let c = text.get_char(j - 1);
        if is_stop(c) || idx >= context_length {
            proof {
                assert(window_start_from(t, j - 1, idx as int, limit) == j);
            }
            break ;
        }
        proof {
            assert(window_start_from(t, j - 1, idx as int, limit) == window_start_from(
                t,
                j - 2,
                idx as int + 1,
                limit,
            ));
        }
        j = j - 1;
        idx = idx + 1;
    }
    let start = j;
    let mut k: usize = range_end;
    let mut idx2: usize = 0;
    let text_chars = text.unicode_len();
    loop
        invariant
            range_end <= k <= t.len(),
            t == text@,
            limit == context_length as int,
            text_chars == t.len(),
            idx2 == k - range_end,
            window_end_from(t, range_end as int, 0, limit) == window_end_from(
                t,
                k as int,
                idx2 as int,
                limit,
            ),
        ensures
            range_end <= k <= t.len(),
            window_end_from(t, range_end as int, 0, limit) == k,
        decreases t.len() - k,
    {
        if k >= text_chars {
            proof {
                assert(window_end_from(t, k as int, idx2 as int, limit) == t.len());
            }
            break ;
        }
        let c = text.get_char(k);
        if is_stop(c) || idx2 >= context_length {
            proof {
                assert(window_end_from(t, k as int, idx2 as int, limit) == k);
            }
            break ;
        }
        proof {
            assert(window_end_from(t, k as int, idx2 as int, limit) == window_end_from(
                t,
                k as int + 1,
                idx2 as int + 1,
                limit,
            ));
        }
        k = k + 1;
        idx2 = idx2 + 1;
    }
    let end = k;
    proof {
        assert(window_start_from(t, range_start - 1, 0, limit) == start);
        assert(window_end_from(t, range_end as int, 0, limit) == end);
    }
    let context = text.substring_char(start, end);
    render_snippet(
        file_name,
        line_start,
        context,
        range_start - start,
        range_end - start,
        suggestions,
    )
}

impl<'a> Checker<'a> {
    /// Render one of this pass's diagnostics the way the pass was
    /// configured: a pretty context snippet of the configured radius, or a
    /// plain single line.
    pub fn render(&self, diagnostic: &Diagnostic) -> (r: String)
        requires
            self.wf(),
            diagnostic.start <= diagnostic.end <= self.text@.len(),
        ensures
            match self.pretty {
                Some(limit) => ({
                    let ws = window_start_from(
                        self.text@,
                        diagnostic.start - 1,
                        0,
                        limit as int,
                    );
                    let we = window_end_from(self.text@, diagnostic.end as int, 0, limit as int);
                    r@ == snippet_of(
                        self.path@,
                        diagnostic.line_start as int,
                        self.text@.subrange(ws, we),
                        diagnostic.start - ws,
                        diagnostic.end - ws,
                        diagnostic.suggestions.deep_view(),
                    )
                }),
                None => r@ == plain_line(
                    self.path@,
                    diagnostic.line_start as int,
                    diagnostic.column_start as int,
                    diagnostic.line_end as int,
                    diagnostic.column_end as int,
                    diagnostic.suggestions.deep_view(),
                ),
            },
    {
        match self.pretty {
            Some(limit) => output_pretty(
                self.path.as_str(),
                diagnostic.line_start,
                self.text.as_str(),
                diagnostic.start,
                diagnostic.end,
                limit,
                &diagnostic.suggestions,
            ),
            None => output_plain(
                self.path.as_str(),
                diagnostic.line_start,
                diagnostic.column_start,
                diagnostic.line_end,
                diagnostic.column_end,
                &diagnostic.suggestions,
            ),
        }
    }
}

} // verus!
