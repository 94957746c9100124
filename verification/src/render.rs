//! Rendering diagnostics against the original source text: a boxed,
//! line-numbered context view with caret underlining, and recursively
//! rendered "or" groups for the alternatives.
use vstd::prelude::*;
use vstd::string::StrSliceExecFns;
use vstd::string::StringExecFns;

use crate::error::EOFErrorKind;
use crate::error::Error;

verus! {

/// The position of the first line break in `s`, or its length if none.
pub open spec fn find_nl(s: Seq<char>) -> int
    decreases s.len(),
{
    if s.len() == 0 {
        0
    } else if s[0] == '\n' {
        0
    } else {
        1 + find_nl(s.drop_first())
    }
}

/// Where `find_nl` points: before the first line break, at it if any.
pub proof fn lemma_find_nl(s: Seq<char>)
    ensures
        0 <= find_nl(s) <= s.len(),
        find_nl(s) < s.len() ==> s[find_nl(s)] == '\n',
        forall|t: int| 0 <= t < find_nl(s) ==> s[t] != '\n',
    decreases s.len(),
{
    if s.len() > 0 && s[0] != '\n' {
        lemma_find_nl(s.drop_first());
        assert forall|t: int| 0 <= t < find_nl(s) implies s[t] != '\n' by {
            if t > 0 {
                assert(s[t] == s.drop_first()[t - 1]);
            }
        }
    }
}

/// A line with a trailing carriage return shown without it.
pub open spec fn strip_cr(s: Seq<char>) -> Seq<char> {
    if s.len() > 0 && s.last() == '\r' {
        s.drop_last()
    } else {
        s
    }
}

/// The lines of a text: split at line breaks, each shown without a trailing
/// carriage return; a final line break opens no further line.
pub open spec fn spec_lines(s: Seq<char>) -> Seq<Seq<char>>
    decreases s.len(),
    via spec_lines_decreases
{
    if s.len() == 0 {
        Seq::empty()
    } else {
        let i = find_nl(s);
        if i == s.len() {
            seq![strip_cr(s)]
        } else {
            seq![strip_cr(s.subrange(0, i))] + spec_lines(s.subrange(i + 1, s.len() as int))
        }
    }
}

#[via_fn]
proof fn spec_lines_decreases(s: Seq<char>) {
    lemma_find_nl(s);
}

/// How many leading blanks and tabs the line starts with.
pub open spec fn leading_indent(s: Seq<char>) -> int
    decreases s.len(),
{
    if s.len() == 0 {
        0
    } else if s[0] == ' ' || s[0] == '\t' {
        1 + leading_indent(s.drop_first())
    } else {
        0
    }
}

/// Where `leading_indent` points: every character before it is a blank or a
/// tab, and the one at it, if any, is not.
pub proof fn lemma_leading_indent(s: Seq<char>)
    ensures
        0 <= leading_indent(s) <= s.len(),
        leading_indent(s) < s.len() ==> !(s[leading_indent(s)] == ' ' || s[leading_indent(s)]
            == '\t'),
        forall|t: int| 0 <= t < leading_indent(s) ==> (s[t] == ' ' || s[t] == '\t'),
    decreases s.len(),
{
    if s.len() > 0 && (s[0] == ' ' || s[0] == '\t') {
        lemma_leading_indent(s.drop_first());
        assert forall|t: int| 0 <= t < leading_indent(s) implies (s[t] == ' ' || s[t] == '\t') by {
            if t > 0 {
                assert(s[t] == s.drop_first()[t - 1]);
            }
        }
    }
}

/// The decimal digits of a number, most significant first.
pub open spec fn dec_digits(n: nat) -> Seq<char>
    decreases n,
{
    if n < 10 {
        seq![digit_char(n)]
    } else {
        dec_digits(n / 10) + seq![digit_char(n % 10)]
    }
}

/// The character of one decimal digit.
pub open spec fn digit_char(d: nat) -> char {
    if d == 0 {
        '0'
    } else if d == 1 {
        '1'
    } else if d == 2 {
        '2'
    } else if d == 3 {
        '3'
    } else if d == 4 {
        '4'
    } else if d == 5 {
        '5'
    } else if d == 6 {
        '6'
    } else if d == 7 {
        '7'
    } else if d == 8 {
        '8'
    } else {
        '9'
    }
}

/// A line number padded with blanks to the width of the number column.
pub open spec fn pad5(s: Seq<char>) -> Seq<char> {
    if s.len() >= 5 {
        s
    } else {
        s + ("     "@).subrange(0, 5 - s.len() as int)
    }
}

/// `piece` repeated `n` times.
pub open spec fn repeat_seq(piece: Seq<char>, n: nat) -> Seq<char>
    decreases n,
{
    if n == 0 {
        Seq::empty()
    } else {
        repeat_seq(piece, (n - 1) as nat) + piece
    }
}

/// A line as shown: everything from `to_remove` on, or nothing when the
/// line is shorter than that.
pub open spec fn skip_shown(line: Seq<char>, to_remove: int) -> Seq<char> {
    if to_remove <= line.len() {
        line.subrange(to_remove, line.len() as int)
    } else {
        Seq::empty()
    }
}

/// One printed source line: its right-padded 1-based number, the box bar,
/// an ellipsis when indentation was stripped, and the stripped text.
pub open spec fn spec_row(line: Seq<char>, idx: int, to_remove: int, prefix: Seq<char>) -> Seq<
    char,
> {
    prefix + pad5(dec_digits((idx + 1) as nat)) + "\u{2502} "@ + (if to_remove > 0 {
        "\u{2026} "@
    } else {
        Seq::empty()
    }) + skip_shown(line, to_remove) + "\n"@
}

/// The printed source lines from `lo` up to `hi`, exclusive.
pub open spec fn spec_rows(
    lines: Seq<Seq<char>>,
    lo: int,
    hi: int,
    to_remove: int,
    prefix: Seq<char>,
) -> Seq<char>
    decreases hi - lo,
{
    if lo >= hi {
        Seq::empty()
    } else {
        spec_row(lines[lo], lo, to_remove, prefix) + spec_rows(lines, lo + 1, hi, to_remove, prefix)
    }
}

/// How many alternatives survive filtering, from position `i` on.
pub open spec fn count_shown<'s, Kind>(
    subs: Seq<Error<'s, Kind>>,
    filter: bool,
    i: int,
) -> nat
    decreases subs.len() - i,
{
    if i < 0 || i >= subs.len() {
        0
    } else {
        (if !filter || subs[i].important {
            1nat
        } else {
            0nat
        }) + count_shown(subs, filter, i + 1)
    }
}

/// The first selected line: at most one line of leading context before the
/// span, clamped to the lines that exist.
pub open spec fn sel_lo(line_start: usize, n: int) -> int {
    let a = line_start - 1;
    let b = if n >= 2 {
        n - 2
    } else {
        0
    };
    if a <= b {
        a
    } else {
        b
    }
}

/// The last selected line, inclusive: the end of the span, clamped.
pub open spec fn sel_hi(line_end: usize, n: int) -> int {
    let a = line_end - 1;
    let b = n - 1;
    if a <= b {
        a
    } else {
        b
    }
}

/// What the whole error header looks like: the kind, then the box corner
/// with the source label, line and 1-based column (the unknown-column
/// sentinel shows as 0).
pub open spec fn spec_header<'s, Kind: EOFErrorKind>(
    e: Error<'s, Kind>,
    prefix: Seq<char>,
) -> Seq<char> {
    let col: nat = if e.column_start == usize::MAX {
        0
    } else {
        e.column_start as nat + 1
    };
    prefix + "Error: "@ + e.kind.describe_spec() + "\n"@ + prefix + "     \u{256d}\u{2574}"@
        + e.filename@ + ":"@ + dec_digits(e.line_start as nat) + ":"@ + dec_digits(col) + "\n"@
        + prefix + "     \u{2502}\n"@
}

/// The footer under the printed lines: the closing corner (or a tee when an
/// "or" group follows), a rule out to the span's first column, and carets
/// under the span. Sentinel bounds fall back to the start of the line and
/// the end of the last printed line.
pub open spec fn spec_footer<'s, Kind: EOFErrorKind>(
    e: Error<'s, Kind>,
    prefix: Seq<char>,
    to_remove: int,
    last_len: int,
    shown: nat,
) -> Seq<char> {
    let to_add: int = if to_remove > 0 {
        2
    } else {
        0
    };
    let stub: Seq<char> = if shown == 0 {
        "     \u{2570}\u{2500}"@
    } else {
        "     \u{251c}\u{2500}"@
    };
    let dashes: int = if e.column_start == usize::MAX {
        to_add
    } else {
        e.column_start - to_remove + to_add
    };
    let cs: int = if e.column_start == usize::MAX {
        0
    } else {
        e.column_start as int
    };
    let ce: int = if e.column_end == usize::MAX {
        if last_len >= 1 {
            last_len - 1
        } else {
            0
        }
    } else {
        e.column_end as int
    };
    let carets: nat = if ce >= cs {
        (ce - cs) as nat
    } else {
        0
    };
    prefix + stub + repeat_seq("\u{2500}"@, dashes as nat) + repeat_seq("\u{2534}"@, carets)
        + "\u{256f}\n"@
}

/// The text `render_with_context_prefix` produces: header, context lines,
/// footer, and the filtered alternatives as a recursively rendered "or"
/// group, in original order. Rendering is a function of the diagnostic, the
/// source text, the line prefix and the filter flag alone.
pub open spec fn spec_render<'s, Kind: EOFErrorKind>(
    e: Error<'s, Kind>,
    cs: Seq<char>,
    prefix: Seq<char>,
    filter: bool,
) -> Seq<char>
    decreases e, 1int, 0int,
{
    let lines = spec_lines(cs);
    let n = lines.len() as int;
    let lo = sel_lo(e.line_start, n);
    let hi = sel_hi(e.line_end, n);
    let to_remove: int = if n == 0 {
        0
    } else {
        let ind = leading_indent(lines[lo]);
        if ind <= e.column_start {
            ind
        } else {
            e.column_start as int
        }
    };
    let last_len: int = if n == 0 {
        0
    } else {
        skip_shown(lines[hi], to_remove).len() as int
    };
    let shown = count_shown(e.suberrors@, filter, 0);
    let rows: Seq<char> = if n == 0 {
        Seq::empty()
    } else {
        spec_rows(lines, lo, hi + 1, to_remove, prefix)
    };
    let group: Seq<char> = if e.suberrors@.len() > 0 && shown > 0 {
        prefix + "\u{256d}\u{2574}Or\u{2576}\u{256f}\n"@ + spec_or_list(e, cs, prefix, filter, 0, 0)
            + prefix + "\u{2570}\u{2500}\u{2500}\u{2500}\u{2500}\u{2574}\n"@
    } else {
        Seq::empty()
    };
    spec_header(e, prefix) + rows + spec_footer(e, prefix, to_remove, last_len, shown) + group
}

/// The renderings of the alternatives of `e` from position `i` on that
/// survive filtering, each indented behind a bar, with separators between
/// them; `printed` says whether one was already rendered before `i`.
pub open spec fn spec_or_list<'s, Kind: EOFErrorKind>(
    e: Error<'s, Kind>,
    cs: Seq<char>,
    prefix: Seq<char>,
    filter: bool,
    i: int,
    printed: int,
) -> Seq<char>
    decreases e, 0int, e.suberrors@.len() - i,
{
    if i < 0 || i >= e.suberrors@.len() {
        Seq::empty()
    } else if filter && !e.suberrors@[i].important {
        spec_or_list(e, cs, prefix, filter, i + 1, printed)
    } else {
        (if printed > 0 {
            prefix + "\u{251c}\u{2574}Or\n"@
        } else {
            Seq::empty()
        }) + spec_render(e.suberrors@[i], cs, prefix + "\u{2502} "@, filter) + spec_or_list(
            e,
            cs,
            prefix,
            filter,
            i + 1,
            printed + 1,
        )
    }
}

/// Rendering is deterministic: the same diagnostic rendered twice against
/// the same source text, prefix and filter gives byte-identical output.
pub proof fn lemma_render_deterministic<'s, Kind: EOFErrorKind>(
    e: Error<'s, Kind>,
    cs: Seq<char>,
    prefix: Seq<char>,
    filter: bool,
    out1: Seq<char>,
    out2: Seq<char>,
)
    requires
        out1 == spec_render(e, cs, prefix, filter),
        out2 == spec_render(e, cs, prefix, filter),
    ensures
        out1 == out2,
{
}

/// The decimal text of a number.
fn u_to_dec(n: usize) -> (s: String)
    ensures
        s@ == dec_digits(n as nat),
    decreases n,
{
    let d = n % 10;
    let ds: &str = digit_str((d) as u8);
    if n < 10 {
        ds.to_owned()
    } else {
        let q = u_to_dec(n / 10);
        q.concat(ds)
    }
}

/// The text of one decimal digit.
fn digit_str(d: u8) -> (s: &'static str)
    requires
        d < 10,
    ensures
        s@ == seq![digit_char(d as nat)],
{
    proof {
        reveal_strlit("0");
        reveal_strlit("1");
        reveal_strlit("2");
        reveal_strlit("3");
        reveal_strlit("4");
        reveal_strlit("5");
        reveal_strlit("6");
        reveal_strlit("7");
        reveal_strlit("8");
        reveal_strlit("9");
    }
    match d {
        0 => "0",
        1 => "1",
        2 => "2",
        3 => "3",
        4 => "4",
        5 => "5",
        6 => "6",
        7 => "7",
        8 => "8",
        _ => "9",
    }
}

/// `piece` repeated `n` times.
fn repeat_str(piece: &str, n: usize) -> (s: String)
    ensures
        s@ == repeat_seq(piece@, n as nat),
{
    let mut out = String::new();
    let mut i: usize = 0;
    while i < n
        invariant
            i <= n,
            out@ == repeat_seq(piece@, i as nat),
        decreases n - i,
    {
        out.append(piece);
        i = i + 1;
    }
    out
}

/// The lines of a text, split as `spec_lines` says.
fn split_lines<'a>(s: &'a str) -> (v: Vec<&'a str>)
    ensures
        v@.len() == spec_lines(s@).len(),
        forall|i: int| 0 <= i < v@.len() ==> (#[trigger] v@[i])@ == spec_lines(s@)[i],
{
    let n = s.unicode_len();
    let mut v: Vec<&str> = Vec::new();
    let mut pos: usize = 0;
    proof {
        assert(s@.subrange(0, n as int) =~= s@);
        assert(Seq::new(0, |i: int| v@[i]@) =~= Seq::<Seq<char>>::empty());
    }
    while pos < n
        invariant
            pos <= n,
            n == s@.len(),
            spec_lines(s@) =~= Seq::new(v@.len(), |i: int| v@[i]@) + spec_lines(
                s@.subrange(pos as int, n as int),
            ),
        decreases n - pos,
    {
        let ghost suffix = s@.subrange(pos as int, n as int);
        let mut j: usize = pos;
        while j < n
            invariant
                pos <= j <= n,
                n == s@.len(),
                forall|t: int| pos <= t < j ==> s@[t] != '\n',
            ensures
                pos <= j <= n,
                forall|t: int| pos <= t < j ==> s@[t] != '\n',
                j < n ==> s@[j as int] == '\n',
            decreases n - j,
        {
            if s.get_char(j) == '\n' {
                break ;
            }
            j = j + 1;
        }
        proof {
            lemma_find_nl(suffix);
            assert forall|t: int| 0 <= t < j - pos implies suffix[t] != '\n' by {
                assert(suffix[t] == s@[pos + t]);
            }
            if (j - pos) < suffix.len() {
                assert(suffix[j - pos] == s@[j as int]);
            }
            assert(find_nl(suffix) == j - pos);
        }
        let line: &str = if j > pos && s.get_char(j - 1) == '\r' {
            s.substring_char(pos, j - 1)
        } else {
            s.substring_char(pos, j)
        };
        proof {
            assert(suffix.subrange(0, (j - pos) as int) =~= s@.subrange(pos as int, j as int));
            assert(strip_cr(suffix.subrange(0, (j - pos) as int)) =~= line@);
            if j < n {
                assert(suffix.subrange((j - pos) + 1, suffix.len() as int) =~= s@.subrange(
                    j + 1,
                    n as int,
                ));
            }
        }
        let ghost old_v = v@;
        v.push(line);
        proof {
            assert(Seq::new(v@.len(), |i: int| v@[i]@) =~= Seq::new(old_v.len(), |i: int| old_v[i]@)
                + seq![line@]);
        }
        if j < n {
            pos = j + 1;
        } else {
            pos = n;
            proof {
                assert(spec_lines(suffix) =~= seq![strip_cr(suffix)]);
                assert(strip_cr(suffix) == line@);
                assert(spec_lines(s@.subrange(n as int, n as int)) =~= Seq::<Seq<char>>::empty());
            }
        }
    }
    proof {
        assert(spec_lines(s@.subrange(pos as int, n as int)) =~= Seq::<Seq<char>>::empty());
        assert(spec_lines(s@) =~= Seq::new(v@.len(), |i: int| v@[i]@));
    }
    v
}

/// How many alternatives of `subs` survive filtering.
fn count_shown_exec<'s, Kind: EOFErrorKind>(subs: &Vec<Error<'s, Kind>>, filter: bool) -> (c:
    usize)
    ensures
        c == count_shown(subs@, filter, 0),
{
    let mut c: usize = 0;
    let mut i: usize = 0;
    while i < subs.len()
        invariant
            i <= subs@.len(),
            c <= i,
            count_shown(subs@, filter, 0) == c + count_shown(subs@, filter, i as int),
        decreases subs@.len() - i,
    {
        if !filter || subs[i].important {
            c = c + 1;
        }
        i = i + 1;
    }
    c
}

/// Appending one more printed line to a block of printed lines.
proof fn lemma_rows_snoc(
    lines: Seq<Seq<char>>,
    lo: int,
    hi: int,
    to_remove: int,
    prefix: Seq<char>,
)
    requires
        lo <= hi,
    ensures
        spec_rows(lines, lo, hi + 1, to_remove, prefix) == spec_rows(
            lines,
            lo,
            hi,
            to_remove,
            prefix,
        ) + spec_row(lines[hi], hi, to_remove, prefix),
    decreases hi - lo,
{
    if lo < hi {
        lemma_rows_snoc(lines, lo + 1, hi, to_remove, prefix);
        assert(spec_rows(lines, lo, hi + 1, to_remove, prefix) =~= spec_rows(
            lines,
            lo,
            hi,
            to_remove,
            prefix,
        ) + spec_row(lines[hi], hi, to_remove, prefix));
    } else {
        assert(spec_rows(lines, lo, hi, to_remove, prefix) =~= Seq::<char>::empty());
        assert(spec_rows(lines, lo + 1, hi + 1, to_remove, prefix) =~= Seq::<char>::empty());
        assert(spec_rows(lines, lo, hi + 1, to_remove, prefix) =~= spec_row(
            lines[hi],
            hi,
            to_remove,
            prefix,
        ));
    }
}

/// How many leading blanks and tabs the line starts with.
fn leading_indent_of(line: &str) -> (r: usize)
    ensures
        r == leading_indent(line@),
{
    let n = line.unicode_len();
    let mut k: usize = 0;
    while k < n
        invariant
            k <= n,
            n == line@.len(),
            forall|t: int| 0 <= t < k ==> (line@[t] == ' ' || line@[t] == '\t'),
        ensures
            k <= n,
            forall|t: int| 0 <= t < k ==> (line@[t] == ' ' || line@[t] == '\t'),
            k < n ==> !(line@[k as int] == ' ' || line@[k as int] == '\t'),
        decreases n - k,
    {
        let c = line.get_char(k);
        if !(c == ' ' || c == '\t') {
            break ;
        }
        k = k + 1;
    }
    proof {
        lemma_leading_indent(line@);
    }
    k
}

/// Relies on std::io::Write::write_all to put the rendered report on
/// standard output.
#[verifier::external_body]
fn print_text(s: &str) {
    let _ = std::io::Write::write_all(&mut std::io::stdout(), s.as_bytes());
}

impl<'source, Kind: EOFErrorKind> Error<'source, Kind> {
    /// Renders this diagnostic against the source text it was produced from
    /// and prints the report; with `filter_important` set, only alternatives
    /// marked important are shown.
    pub fn print_with_context(&self, contents: &str, filter_important: bool)
        requires
            self.wf(),
    {
        let text = self.render_with_context(contents, filter_important);
        print_text(text.as_str());
    }

    /// Renders behind a prefix and prints, as the nested branches of a
    /// larger report would.
    pub fn print_with_context_prefix(&self, contents: &str, prefix: &str, filter_important: bool)
        requires
            self.wf(),
    {
        let text = self.render_with_context_prefix(contents, prefix, filter_important);
        print_text(text.as_str());
    }

    /// The rendered report of this diagnostic against the source text it was
    /// produced from; with `filter_important` set, only alternatives marked
    /// important are shown.
    pub fn render_with_context(&self, contents: &str, filter_important: bool) -> (out: String)
        requires
            self.wf(),
        ensures
            out@ == spec_render(*self, contents@, Seq::empty(), filter_important),
    {
        let out = self.render_with_context_prefix(contents, "", filter_important);
        proof {
            reveal_strlit("");
            assert(""@ =~= Seq::<char>::empty());
        }
        out
    }

    /// The header of the report: the kind and the box corner with the
    /// location.
    fn render_header(&self, prefix: &str) -> (out: String)
        ensures
            out@ == spec_header(*self, prefix@),
    {
        let mut out = String::new();
        out.append(prefix);
        out.append("Error: ");
        let kt = self.kind.describe();
        out.append(kt.as_str());
        out.append("\n");
        out.append(prefix);
        out.append("     \u{256d}\u{2574}");
        out.append(self.filename);
        out.append(":");
        let t1 = u_to_dec(self.line_start);
        out.append(t1.as_str());
        out.append(":");
        let cd: usize = if self.column_start == usize::MAX {
            0
        } else {
            self.column_start + 1
        };
        let t2 = u_to_dec(cd);
        out.append(t2.as_str());
        out.append("\n");
        out.append(prefix);
        out.append("     \u{2502}\n");
        proof {
            assert(out@ =~= spec_header(*self, prefix@));
        }
        out
    }

    /// The footer of the report: the closing corner or tee, the rule, and
    /// the carets under the span.
    fn render_footer(&self, prefix: &str, to_remove: usize, last_len: usize, shown: usize) -> (out:
        String)
        requires
            self.column_start == usize::MAX || to_remove <= self.column_start,
        ensures
            out@ == spec_footer(*self, prefix@, to_remove as int, last_len as int, shown as nat),
    {
        let mut out = String::new();
        out.append(prefix);
        if shown == 0 {
            out.append("     \u{2570}\u{2500}");
        } else {
            out.append("     \u{251c}\u{2500}");
        }
        let to_add: usize = if to_remove > 0 {
            2
        } else {
            0
        };
        let dashes: usize = if self.column_start == usize::MAX {
            to_add
        } else {
            (self.column_start - to_remove) + to_add
        };
        let rl = repeat_str("\u{2500}", dashes);
        out.append(rl.as_str());
        let cs0: usize = if self.column_start == usize::MAX {
            0
        } else {
            self.column_start
        };
        let ce0: usize = if self.column_end == usize::MAX {
            if last_len >= 1 {
                last_len - 1
            } else {
                0
            }
        } else {
            self.column_end
        };
        let carets: usize = if ce0 >= cs0 {
            ce0 - cs0
        } else {
            0
        };
        let rc = repeat_str("\u{2534}", carets);
        out.append(rc.as_str());
        out.append("\u{256f}\n");
        proof {
            assert(out@ =~= spec_footer(
                *self,
                prefix@,
                to_remove as int,
                last_len as int,
                shown as nat,
            ));
        }
        out
    }

    /// The rendered report, each of its lines behind `prefix` (used to
    /// indent nested "or" branches).
    #[verifier::rlimit(60)]
    pub fn render_with_context_prefix(&self, contents: &str, prefix: &str, filter_important: bool)
        -> (out: String)
        requires
            self.wf(),
        ensures
            out@ == spec_render(*self, contents@, prefix@, filter_important),
        decreases *self,
    {
        let ghost glines = spec_lines(contents@);
        let lines = split_lines(contents);
        let n = lines.len();
        proof {
            assert(glines =~= Seq::new(lines@.len(), |i: int| lines@[i]@));
        }

        let mut lo: usize = 0;
        let mut hi: usize = 0;
        if n > 0 {
            let b1: usize = if n >= 2 {
                n - 2
            } else {
                0
            };
            let a1: usize = self.line_start - 1;
            lo = if a1 <= b1 {
                a1
            } else {
                b1
            };
            let a2: usize = self.line_end - 1;
            let b2: usize = n - 1;
            hi = if a2 <= b2 {
                a2
            } else {
                b2
            };
            proof {
                assert(lo as int == sel_lo(self.line_start, n as int));
                assert(hi as int == sel_hi(self.line_end, n as int));
                assert(lo <= hi < n);
            }
        }
        let mut to_remove: usize = 0;
        let mut last_len: usize = 0;
        if n > 0 {
            let ind = leading_indent_of(lines[lo]);
            to_remove = if ind <= self.column_start {
                ind
            } else {
                self.column_start
            };
            let ll = lines[hi].unicode_len();
            last_len = if to_remove <= ll {
                ll - to_remove
            } else {
                0
            };
            proof {
                assert(last_len as int == skip_shown(glines[hi as int], to_remove as int).len());
            }
        }
        let shown = count_shown_exec(&self.suberrors, filter_important);

        let mut out = self.render_header(prefix);
        let ghost out_h = out@;
        if n > 0 {
            let rows = render_rows(&lines, lo, hi, to_remove, prefix);
            out.append(rows.as_str());
        }
        proof {
            if n == 0 {
                assert(out@ =~= out_h);
            }
        }

        let ghost out_r = out@;
        let footer = self.render_footer(prefix, to_remove, last_len, shown);
        out.append(footer.as_str());

        let ghost out_f = out@;
        if self.suberrors.len() > 0 && shown > 0 {
            out.append(prefix);
            out.append("\u{256d}\u{2574}Or\u{2576}\u{256f}\n");
            let mut child_prefix = prefix.to_owned();
            child_prefix.append("\u{2502} ");
            let ghost open_mark = out@;
            let ghost mut acc: Seq<char> = Seq::empty();
            let mut i: usize = 0;
            let mut printed: usize = 0;
            while i < self.suberrors.len()
                invariant
                    self.wf(),
                    i <= self.suberrors@.len(),
                    printed <= i,
                    child_prefix@ == prefix@ + "\u{2502} "@,
                    out@ == open_mark + acc,
                    acc + spec_or_list(
                        *self,
                        contents@,
                        prefix@,
                        filter_important,
                        i as int,
                        printed as int,
                    ) == spec_or_list(*self, contents@, prefix@, filter_important, 0, 0),
                decreases self.suberrors@.len() - i,
            {
                let ghost acc0 = acc;
                let sub = &self.suberrors[i];
                if !filter_important || sub.important {
                    let ghost sep: Seq<char> = if printed > 0 {
                        prefix@ + "\u{251c}\u{2574}Or\n"@
                    } else {
                        Seq::<char>::empty()
                    };
                    if printed > 0 {
                        out.append(prefix);
                        out.append("\u{251c}\u{2574}Or\n");
                    }
                    proof {
                        assert(self.suberrors@[i as int].wf());
                    }
                    let piece = sub.render_with_context_prefix(
                        contents,
                        child_prefix.as_str(),
                        filter_important,
                    );
                    out.append(piece.as_str());
                    proof {
                        acc = acc0 + sep + spec_render(
                            self.suberrors@[i as int],
                            contents@,
                            prefix@ + "\u{2502} "@,
                            filter_important,
                        );
                        assert(out@ =~= open_mark + acc);
                        assert(acc + spec_or_list(
                            *self,
                            contents@,
                            prefix@,
                            filter_important,
                            i + 1,
                            printed + 1,
                        ) =~= acc0 + spec_or_list(
                            *self,
                            contents@,
                            prefix@,
                            filter_important,
                            i as int,
                            printed as int,
                        ));
                    }
                    printed = printed + 1;
                } else {
                    proof {
                        assert(spec_or_list(
                            *self,
                            contents@,
                            prefix@,
                            filter_important,
                            i as int,
                            printed as int,
                        ) == spec_or_list(
                            *self,
                            contents@,
                            prefix@,
                            filter_important,
                            i + 1,
                            printed as int,
                        ));
                    }
                }
                i = i + 1;
            }
            proof {
                assert(spec_or_list(
                    *self,
                    contents@,
                    prefix@,
                    filter_important,
                    i as int,
                    printed as int,
                ) =~= Seq::<char>::empty());
                assert(acc =~= spec_or_list(*self, contents@, prefix@, filter_important, 0, 0));
            }
            out.append(prefix);
            out.append("\u{2570}\u{2500}\u{2500}\u{2500}\u{2500}\u{2574}\n");
            proof {
                assert(out@ =~= out_f + (prefix@ + "\u{256d}\u{2574}Or\u{2576}\u{256f}\n"@
                    + spec_or_list(*self, contents@, prefix@, filter_important, 0, 0) + prefix@
                    + "\u{2570}\u{2500}\u{2500}\u{2500}\u{2500}\u{2574}\n"@));
            }
        }
        proof {
            assert(out@ =~= spec_render(*self, contents@, prefix@, filter_important));
        }
        out
    }
}

/// The printed source lines from `lo` to `hi`, inclusive.
fn render_rows(lines: &Vec<&str>, lo: usize, hi: usize, to_remove: usize, prefix: &str) -> (out:
    String)
    requires
        lo <= hi < lines@.len(),
    ensures
        out@ == spec_rows(
            Seq::new(lines@.len(), |i: int| lines@[i]@),
            lo as int,
            hi + 1,
            to_remove as int,
            prefix@,
        ),
{
    let ghost glines = Seq::new(lines@.len(), |i: int| lines@[i]@);
    let nn = lines.len();
    let mut out = String::new();
    let mut idx: usize = lo;
    while idx <= hi
        invariant
            lo <= idx <= hi + 1,
            hi < nn,
            nn == lines@.len(),
            glines == Seq::new(lines@.len(), |i: int| lines@[i]@),
            out@ == spec_rows(glines, lo as int, idx as int, to_remove as int, prefix@),
        decreases hi + 1 - idx,
    {
        let ghost row_start = out@;
        out.append(prefix);
        let mut numcol = u_to_dec(idx + 1);
        let ncl = numcol.as_str().unicode_len();
        if ncl < 5 {
            proof {
                reveal_strlit("     ");
            }
            let blanks: &str = "     ";
            let pad = blanks.substring_char(0, 5 - ncl);
            numcol = numcol.concat(pad);
        }
        proof {
            assert(numcol@ == pad5(dec_digits((idx + 1) as nat)));
        }
        out.append(numcol.as_str());
        out.append("\u{2502} ");
        if to_remove > 0 {
            out.append("\u{2026} ");
        }
        let li = lines[idx];
        let lilen = li.unicode_len();
        let from: usize = if to_remove <= lilen {
            to_remove
        } else {
            lilen
        };
        let part = li.substring_char(from, lilen);
        proof {
            assert(part@ == skip_shown(glines[idx as int], to_remove as int));
        }
        out.append(part);
        out.append("\n");
        proof {
            assert(out@ =~= row_start + spec_row(
                glines[idx as int],
                idx as int,
                to_remove as int,
                prefix@,
            ));
            lemma_rows_snoc(glines, lo as int, idx as int, to_remove as int, prefix@);
            assert(out@ =~= spec_rows(glines, lo as int, idx + 1, to_remove as int, prefix@));
        }
        idx = idx + 1;
    }
    out
}

} // verus!
