//! The bounded reader engine: given a source's raw contents, it computes
//! exactly what the utility prints for that source — a prefix bounded by a
//! line count or a byte count, preceded by a header when several sources are
//! listed — and aggregates sources, letting a failed source report itself
//! without disturbing the others.

use crate::config::Limit;
use vstd::prelude::*;
use vstd::slice::{slice_subrange, slice_to_vec};
use vstd::string::StringExecFns;

verus! {

/// The byte that ends a line.
pub const NEWLINE: u8 = 10;

/// The length of the first line of `s`, its terminating newline included;
/// an unterminated final line runs to the end of `s`.
pub open spec fn first_line_len(s: Seq<u8>) -> int
    decreases s.len(),
{
    if s.len() == 0 {
        0
    } else if s[0] == NEWLINE {
        1
    } else {
        1 + first_line_len(s.drop_first())
    }
}

/// The first `n` lines of `s`, each keeping its terminator exactly as it
/// stands in `s`; fewer when `s` is exhausted first, and an unterminated
/// final line still counts.
pub open spec fn take_lines_spec(s: Seq<u8>, n: nat) -> Seq<u8>
    decreases n,
{
    if n == 0 || s.len() == 0 {
        Seq::empty()
    } else {
        s.take(first_line_len(s)) + take_lines_spec(s.skip(first_line_len(s)), (n - 1) as nat)
    }
}

/// How many newline bytes `s` holds.
pub open spec fn newline_count(s: Seq<u8>) -> nat
    decreases s.len(),
{
    if s.len() == 0 {
        0
    } else {
        (if s[0] == NEWLINE {
            1nat
        } else {
            0nat
        }) + newline_count(s.drop_first())
    }
}

/// How many lines `s` holds: one per newline, plus an unterminated final
/// line when `s` does not end in a newline.
pub open spec fn line_count(s: Seq<u8>) -> nat {
    newline_count(s) + (if s.len() > 0 && s.last() != NEWLINE {
        1nat
    } else {
        0nat
    })
}

/// The first min(`b`, length) bytes of `s`.
pub open spec fn take_bytes_spec(s: Seq<u8>, b: nat) -> Seq<u8> {
    if b < s.len() {
        s.take(b as int)
    } else {
        s
    }
}

/// What a bounded read of a source with contents `data` emits, as raw bytes.
pub open spec fn prefix_spec(data: Seq<u8>, limit: Limit) -> Seq<u8> {
    match limit {
        Limit::Lines(n) => take_lines_spec(data, n as nat),
        Limit::Bytes(b) => take_bytes_spec(data, b as nat),
    }
}

proof fn lemma_first_line_len_bounds(s: Seq<u8>)
    requires
        s.len() > 0,
    ensures
        1 <= first_line_len(s) <= s.len(),
    decreases s.len(),
{
    if s[0] != NEWLINE {
        if s.len() > 1 {
            lemma_first_line_len_bounds(s.drop_first());
        } else {
            assert(s.drop_first().len() == 0);
            assert(first_line_len(s.drop_first()) == 0);
        }
    }
}

/// The first line ends right after the first newline, or at the end of `s`
/// when no newline occurs.
proof fn lemma_first_line_len_at(s: Seq<u8>, e: int)
    requires
        0 <= e <= s.len(),
        forall|j: int| 0 <= j < e ==> s[j] != NEWLINE,
        e < s.len() ==> s[e] == NEWLINE,
    ensures
        first_line_len(s) == if e < s.len() {
            e + 1
        } else {
            e
        },
    decreases e,
{
    if s.len() == 0 {
    } else if e == 0 {
    } else {
        let t = s.drop_first();
        assert(forall|j: int| 0 <= j < e - 1 ==> t[j] != NEWLINE);
        lemma_first_line_len_at(t, e - 1);
    }
}

/// The first min(`b`, length) bytes of `data`.
pub fn take_bytes(data: &Vec<u8>, b: usize) -> (r: Vec<u8>)
    ensures
        r@ == take_bytes_spec(data@, b as nat),
{
    let m = if b < data.len() {
        b
    } else {
        data.len()
    };
    let r = slice_to_vec(slice_subrange(data.as_slice(), 0, m));
    proof {
        if b >= data@.len() {
            assert(data@.subrange(0, m as int) =~= data@);
        }
    }
    r
}

/// The first `n` lines of `data`, terminators kept; fewer when the data is
/// exhausted before `n` lines were seen.
pub fn take_lines(data: &Vec<u8>, n: usize) -> (r: Vec<u8>)
    ensures
        r@ == take_lines_spec(data@, n as nat),
{
    let mut out: Vec<u8> = Vec::new();
    let mut pos: usize = 0;
    let mut count: usize = 0;
    proof {
        assert(data@.skip(0) =~= data@);
        assert(Seq::<u8>::empty() + take_lines_spec(data@, n as nat) =~= take_lines_spec(
            data@,
            n as nat,
        ));
    }
    while count < n && pos < data.len()
        invariant
            pos <= data@.len(),
            count <= n,
            take_lines_spec(data@, n as nat) == out@ + take_lines_spec(
                data@.skip(pos as int),
                (n - count) as nat,
            ),
        decreases n - count,
    {
        let ghost suffix = data@.skip(pos as int);
        let mut end: usize = pos;
        while end < data.len() && data[end] != NEWLINE
            invariant
                pos <= end <= data@.len(),
                forall|j: int| pos <= j < end ==> data@[j] != NEWLINE,
            decreases data@.len() - end,
        {
            end = end + 1;
        }
        let line_end = if end < data.len() {
            end + 1
        } else {
            end
        };
        proof {
            assert(forall|j: int| 0 <= j < end - pos ==> suffix[j] != NEWLINE);
            lemma_first_line_len_at(suffix, end - pos);
            assert(first_line_len(suffix) == line_end - pos);
            assert(suffix.take(line_end - pos) =~= data@.subrange(pos as int, line_end as int));
            assert(suffix.skip(line_end - pos) =~= data@.skip(line_end as int));
            assert(take_lines_spec(suffix, (n - count) as nat) == data@.subrange(
                pos as int,
                line_end as int,
            ) + take_lines_spec(data@.skip(line_end as int), (n - count - 1) as nat));
        }
        let mut chunk = slice_to_vec(slice_subrange(data.as_slice(), pos, line_end));
        out.append(&mut chunk);
        proof {
            assert(take_lines_spec(data@, n as nat) == out@ + take_lines_spec(
                data@.skip(line_end as int),
                (n - count - 1) as nat,
            ));
        }
        pos = line_end;
        count = count + 1;
    }
    proof {
        if count >= n {
            assert(take_lines_spec(data@.skip(pos as int), (n - count) as nat)
                == Seq::<u8>::empty());
        } else {
            assert(data@.skip(pos as int).len() == 0);
        }
        assert(out@ + Seq::<u8>::empty() =~= out@);
    }
    out
}

/// A bounded read of one source's contents, in whichever mode the limit
/// selects.
pub fn bounded_prefix(data: &Vec<u8>, limit: &Limit) -> (r: Vec<u8>)
    ensures
        r@ == prefix_spec(data@, *limit),
{
    match limit {
        Limit::Lines(n) => take_lines(data, *n),
        Limit::Bytes(b) => take_bytes(data, *b),
    }
}

/// What the line mode emits is a prefix of the source, byte for byte: every
/// emitted line keeps its original terminator, and nothing is reordered or
/// rewritten.
pub proof fn lemma_take_lines_is_prefix(s: Seq<u8>, n: nat)
    ensures
        take_lines_spec(s, n).is_prefix_of(s),
    decreases n,
{
    if n == 0 || s.len() == 0 {
        assert(take_lines_spec(s, n) =~= s.take(0));
    } else {
        let k = first_line_len(s);
        lemma_first_line_len_bounds(s);
        let rest = s.skip(k);
        lemma_take_lines_is_prefix(rest, (n - 1) as nat);
        let b = take_lines_spec(rest, (n - 1) as nat);
        assert(b =~= rest.take(b.len() as int));
        assert(s.take(k) + b =~= s.take(k + b.len()));
        assert(take_lines_spec(s, n).is_prefix_of(s));
    }
}

proof fn lemma_newline_count_split(s: Seq<u8>, k: int)
    requires
        0 <= k <= s.len(),
    ensures
        newline_count(s) == newline_count(s.take(k)) + newline_count(s.skip(k)),
    decreases k,
{
    if k == 0 {
        assert(s.take(0) =~= Seq::<u8>::empty());
        assert(s.skip(0) =~= s);
    } else {
        let rest = s.drop_first();
        assert(s.take(k).drop_first() =~= rest.take(k - 1));
        assert(s.take(k)[0] == s[0]);
        assert(s.skip(k) =~= rest.skip(k - 1));
        lemma_newline_count_split(rest, k - 1);
    }
}

proof fn lemma_newline_count_of_line(c: Seq<u8>)
    requires
        forall|j: int| 0 <= j < c.len() - 1 ==> c[j] != NEWLINE,
    ensures
        newline_count(c) == if c.len() > 0 && c.last() == NEWLINE {
            1nat
        } else {
            0nat
        },
    decreases c.len(),
{
    if c.len() > 0 {
        let rest = c.drop_first();
        assert(forall|j: int| 0 <= j < rest.len() - 1 ==> rest[j] != NEWLINE);
        lemma_newline_count_of_line(rest);
        if c.len() > 1 {
            assert(c.last() == rest.last());
        }
    }
}

proof fn lemma_first_line_shape(s: Seq<u8>)
    requires
        s.len() > 0,
    ensures
        1 <= first_line_len(s) <= s.len(),
        forall|j: int| 0 <= j < first_line_len(s) - 1 ==> s[j] != NEWLINE,
        first_line_len(s) < s.len() ==> s[first_line_len(s) - 1] == NEWLINE,
        s[first_line_len(s) - 1] == NEWLINE || first_line_len(s) == s.len(),
    decreases s.len(),
{
    if s[0] == NEWLINE {
    } else if s.len() == 1 {
        assert(s.drop_first().len() == 0);
        assert(first_line_len(s.drop_first()) == 0);
        assert(first_line_len(s) == 1);
    } else {
        let rest = s.drop_first();
        lemma_first_line_shape(rest);
        let k = first_line_len(s);
        assert(k == 1 + first_line_len(rest));
        assert(forall|j: int| 1 <= j < k - 1 ==> s[j] == rest[j - 1] && rest[j - 1] != NEWLINE);
        assert(s[k - 1] == rest[k - 2]);
    }
}

/// Taking the first line off the front removes exactly one line.
proof fn lemma_line_count_step(s: Seq<u8>)
    requires
        s.len() > 0,
    ensures
        line_count(s) == 1 + line_count(s.skip(first_line_len(s))),
{
    let k = first_line_len(s);
    lemma_first_line_shape(s);
    lemma_newline_count_split(s, k);
    let chunk = s.take(k);
    assert(forall|j: int| 0 <= j < chunk.len() - 1 ==> chunk[j] != NEWLINE);
    lemma_newline_count_of_line(chunk);
    let rest = s.skip(k);
    assert(chunk.last() == s[k - 1]);
    if k < s.len() {
        assert(rest.len() > 0);
        assert(s.last() == rest.last());
    } else {
        assert(rest.len() == 0);
    }
}

/// With a line limit at least the source's number of lines, line mode emits
/// the whole source.
pub proof fn lemma_take_lines_complete(s: Seq<u8>, n: nat)
    requires
        n >= line_count(s),
    ensures
        take_lines_spec(s, n) == s,
    decreases s.len(),
{
    if s.len() == 0 {
        assert(take_lines_spec(s, n) =~= s);
    } else {
        let k = first_line_len(s);
        lemma_first_line_shape(s);
        lemma_line_count_step(s);
        lemma_take_lines_complete(s.skip(k), (n - 1) as nat);
        assert(s.take(k) + s.skip(k) =~= s);
    }
}

/// Line mode emits exactly min(`n`, total lines) lines.
pub proof fn lemma_take_lines_count(s: Seq<u8>, n: nat)
    ensures
        line_count(take_lines_spec(s, n)) == if n <= line_count(s) {
            n
        } else {
            line_count(s)
        },
    decreases n,
{
    if n == 0 || s.len() == 0 {
        assert(take_lines_spec(s, n) =~= Seq::<u8>::empty());
    } else {
        let k = first_line_len(s);
        lemma_first_line_shape(s);
        lemma_line_count_step(s);
        let chunk = s.take(k);
        let r = take_lines_spec(s.skip(k), (n - 1) as nat);
        let t = chunk + r;
        lemma_take_lines_count(s.skip(k), (n - 1) as nat);
        assert(forall|j: int| 0 <= j < chunk.len() - 1 ==> chunk[j] != NEWLINE);
        lemma_newline_count_of_line(chunk);
        assert(chunk.last() == s[k - 1]);
        lemma_newline_count_split(t, k);
        assert(t.take(k) =~= chunk);
        assert(t.skip(k) =~= r);
        if s[k - 1] == NEWLINE {
            if r.len() > 0 {
                assert(t.last() == r.last());
            }
        } else {
            assert(k == s.len());
            assert(s.skip(k).len() == 0);
            assert(r =~= Seq::<u8>::empty());
            assert(t =~= chunk);
            assert(t.len() > 0 && t.last() != NEWLINE);
        }
    }
}

/// The text that a byte sequence renders as, invalid sequences replaced.
pub uninterp spec fn lossy_text(bytes: Seq<u8>) -> Seq<char>;

/// Relies on String::from_utf8_lossy: the text is a function of the bytes
/// alone, invalid UTF-8 rendered with replacement characters, and no bytes
/// yield no text.
#[verifier::external_body]
fn utf8_lossy(bytes: &Vec<u8>) -> (r: String)
    ensures
        r@ == lossy_text(bytes@),
        bytes@.len() == 0 ==> r@.len() == 0,
{
    String::from_utf8_lossy(bytes.as_slice()).into_owned()
}

/// The header announcing one source when several are listed: a blank line
/// first for every source but the first, then `==> <identifier> <==`.
pub open spec fn header_spec(name: Seq<char>, index: int, total: int) -> Seq<char> {
    if total > 1 {
        (if index > 0 {
            seq!['\n']
        } else {
            Seq::empty()
        }) + "==> "@ + name + " <==\n"@
    } else {
        Seq::empty()
    }
}

/// The header printed before one source's content, empty when only one
/// source is listed.
pub fn header_line(filename: &str, index: usize, total: usize) -> (r: String)
    ensures
        r@ == header_spec(filename@, index as int, total as int),
{
    if total > 1 {
        let mut s = if index > 0 {
            String::from_str("\n==> ")
        } else {
            String::from_str("==> ")
        };
        s.append(filename);
        s.append(" <==\n");
        proof {
            reveal_strlit("\n==> ");
            reveal_strlit("==> ");
            assert("\n==> "@ =~= seq!['\n'] + "==> "@);
            assert((seq!['\n'] + "==> "@) + filename@ + " <==\n"@ =~= seq!['\n'] + "==> "@
                + filename@ + " <==\n"@);
        }
        s
    } else {
        String::new()
    }
}

/// The full text printed for one successfully read source: its header (when
/// several sources are listed) followed by its bounded prefix as lossy text.
pub open spec fn source_output_spec(
    name: Seq<char>,
    index: int,
    total: int,
    data: Seq<u8>,
    limit: Limit,
) -> Seq<char> {
    header_spec(name, index, total) + lossy_text(prefix_spec(data, limit))
}

/// Renders one successfully read source: header, then the bounded prefix of
/// `contents` as text. `index` is the source's position among `total`
/// listed sources.
pub fn source_output(
    filename: &str,
    index: usize,
    total: usize,
    contents: &Vec<u8>,
    limit: &Limit,
) -> (r: String)
    requires
        index < total,
    ensures
        r@ == source_output_spec(filename@, index as int, total as int, contents@, *limit),
{
    let mut s = header_line(filename, index, total);
    let body = bounded_prefix(contents, limit);
    let text = utf8_lossy(&body);
    s.append(text.as_str());
    s
}

/// The report for a source that could not be opened or read: the identifier,
/// a comma, and the underlying cause.
pub open spec fn error_line_spec(name: Seq<char>, cause: Seq<char>) -> Seq<char> {
    name + ", "@ + cause
}

/// One line of the error report for a failed source.
pub fn error_line(filename: &str, cause: &str) -> (r: String)
    ensures
        r@ == error_line_spec(filename@, cause@),
{
    let mut s = String::from_str(filename);
    s.append(", ");
    s.append(cause);
    s
}

/// What reading one source produced: its raw contents, or the message of the
/// failure that kept it from being read. A failure is scoped to its source.
pub enum ReadOutcome {
    Contents(Vec<u8>),
    Failure(String),
}

/// What one source contributes to the primary output: a read source prints
/// its header and bounded prefix, a failed source prints nothing.
pub open spec fn contrib_spec(
    src: (String, ReadOutcome),
    index: int,
    total: int,
    limit: Limit,
) -> Seq<char> {
    match src.1 {
        ReadOutcome::Contents(c) => source_output_spec(src.0@, index, total, c@, limit),
        ReadOutcome::Failure(_) => Seq::empty(),
    }
}

/// The primary output of the sources from position `lo` (exclusive of `hi`),
/// each contributing in order.
pub open spec fn batch_output_seg(
    srcs: Seq<(String, ReadOutcome)>,
    limit: Limit,
    lo: int,
    hi: int,
    total: int,
) -> Seq<char>
    decreases hi - lo,
{
    if lo >= hi {
        Seq::empty()
    } else {
        contrib_spec(srcs[lo], lo, total, limit) + batch_output_seg(srcs, limit, lo + 1, hi, total)
    }
}

/// The whole primary output of one invocation.
pub open spec fn batch_output_spec(srcs: Seq<(String, ReadOutcome)>, limit: Limit) -> Seq<char> {
    batch_output_seg(srcs, limit, 0, srcs.len() as int, srcs.len() as int)
}

/// The error report of the sources from position `lo` (exclusive of `hi`):
/// one line per failed source, in source order.
pub open spec fn error_report_seg(srcs: Seq<(String, ReadOutcome)>, lo: int, hi: int) -> Seq<
    Seq<char>,
>
    decreases hi - lo,
{
    if lo >= hi {
        Seq::empty()
    } else {
        (match srcs[lo].1 {
            ReadOutcome::Failure(cause) => seq![error_line_spec(srcs[lo].0@, cause@)],
            ReadOutcome::Contents(_) => Seq::empty(),
        }) + error_report_seg(srcs, lo + 1, hi)
    }
}

/// The whole error report of one invocation.
pub open spec fn error_report_spec(srcs: Seq<(String, ReadOutcome)>) -> Seq<Seq<char>> {
    error_report_seg(srcs, 0, srcs.len() as int)
}

proof fn lemma_batch_seg_split(
    srcs: Seq<(String, ReadOutcome)>,
    limit: Limit,
    lo: int,
    mid: int,
    hi: int,
    total: int,
)
    requires
        lo <= mid <= hi,
    ensures
        batch_output_seg(srcs, limit, lo, hi, total) == batch_output_seg(srcs, limit, lo, mid, total)
            + batch_output_seg(srcs, limit, mid, hi, total),
    decreases mid - lo,
{
    if lo >= mid {
        assert(batch_output_seg(srcs, limit, lo, mid, total) =~= Seq::<char>::empty());
        assert(Seq::<char>::empty() + batch_output_seg(srcs, limit, mid, hi, total)
            =~= batch_output_seg(srcs, limit, mid, hi, total));
    } else {
        lemma_batch_seg_split(srcs, limit, lo + 1, mid, hi, total);
        assert(contrib_spec(srcs[lo], lo, total, limit) + (batch_output_seg(
            srcs,
            limit,
            lo + 1,
            mid,
            total,
        ) + batch_output_seg(srcs, limit, mid, hi, total)) =~= (contrib_spec(
            srcs[lo],
            lo,
            total,
            limit,
        ) + batch_output_seg(srcs, limit, lo + 1, mid, total)) + batch_output_seg(
            srcs,
            limit,
            mid,
            hi,
            total,
        ));
    }
}

proof fn lemma_batch_seg_congruent(
    a: Seq<(String, ReadOutcome)>,
    b: Seq<(String, ReadOutcome)>,
    limit: Limit,
    lo: int,
    hi: int,
    total: int,
)
    requires
        0 <= lo,
        hi <= a.len(),
        hi <= b.len(),
        forall|i: int| lo <= i < hi ==> a[i] == b[i],
    ensures
        batch_output_seg(a, limit, lo, hi, total) == batch_output_seg(b, limit, lo, hi, total),
    decreases hi - lo,
{
    if lo < hi {
        lemma_batch_seg_congruent(a, b, limit, lo + 1, hi, total);
    }
}

proof fn lemma_error_seg_split(srcs: Seq<(String, ReadOutcome)>, lo: int, mid: int, hi: int)
    requires
        lo <= mid <= hi,
    ensures
        error_report_seg(srcs, lo, hi) == error_report_seg(srcs, lo, mid) + error_report_seg(
            srcs,
            mid,
            hi,
        ),
    decreases mid - lo,
{
    if lo >= mid {
        assert(error_report_seg(srcs, lo, mid) =~= Seq::<Seq<char>>::empty());
        assert(Seq::<Seq<char>>::empty() + error_report_seg(srcs, mid, hi) =~= error_report_seg(
            srcs,
            mid,
            hi,
        ));
    } else {
        lemma_error_seg_split(srcs, lo + 1, mid, hi);
        let head = (match srcs[lo].1 {
            ReadOutcome::Failure(cause) => seq![error_line_spec(srcs[lo].0@, cause@)],
            ReadOutcome::Contents(_) => Seq::<Seq<char>>::empty(),
        });
        assert(head + (error_report_seg(srcs, lo + 1, mid) + error_report_seg(srcs, mid, hi))
            =~= (head + error_report_seg(srcs, lo + 1, mid)) + error_report_seg(srcs, mid, hi));
    }
}

proof fn lemma_error_seg_congruent(
    a: Seq<(String, ReadOutcome)>,
    b: Seq<(String, ReadOutcome)>,
    lo: int,
    hi: int,
)
    requires
        0 <= lo,
        hi <= a.len(),
        hi <= b.len(),
        forall|i: int| lo <= i < hi ==> a[i] == b[i],
    ensures
        error_report_seg(a, lo, hi) == error_report_seg(b, lo, hi),
    decreases hi - lo,
{
    if lo < hi {
        lemma_error_seg_congruent(a, b, lo + 1, hi);
    }
}

/// A failed source is isolated. Let `a` and `b` list the same sources with
/// the same outcomes, except that in `b` the source at position `j` failed.
/// Then the primary output of `b` is exactly the output of the sources
/// before `j` followed by the output of the sources after `j`, each
/// contribution as it stands in `a` — the failure changes nothing else —
/// and the error report of `b` is the report of the others with one line,
/// naming the failed source and its cause, in the failed source's place.
pub proof fn lemma_failure_isolated(
    a: Seq<(String, ReadOutcome)>,
    b: Seq<(String, ReadOutcome)>,
    limit: Limit,
    j: int,
)
    requires
        a.len() == b.len(),
        0 <= j < a.len(),
        forall|i: int| 0 <= i < a.len() && i != j ==> a[i] == b[i],
        b[j].1 is Failure,
    ensures
        batch_output_spec(b, limit) == batch_output_seg(a, limit, 0, j, a.len() as int)
            + batch_output_seg(a, limit, j + 1, a.len() as int, a.len() as int),
        error_report_spec(b) == error_report_seg(a, 0, j) + seq![
            error_line_spec(b[j].0@, b[j].1->Failure_0@),
        ] + error_report_seg(a, j + 1, a.len() as int),
{
    let total = a.len() as int;
    lemma_batch_seg_split(b, limit, 0, j, total, total);
    lemma_batch_seg_split(b, limit, j, j + 1, total, total);
    lemma_batch_seg_congruent(a, b, limit, 0, j, total);
    lemma_batch_seg_congruent(a, b, limit, j + 1, total, total);
    assert(contrib_spec(b[j], j, total, limit) =~= Seq::<char>::empty());
    assert(batch_output_seg(b, limit, j, j + 1, total) =~= Seq::<char>::empty());
    assert(batch_output_seg(b, limit, 0, j, total) + (Seq::<char>::empty() + batch_output_seg(
        b,
        limit,
        j + 1,
        total,
        total,
    )) =~= batch_output_seg(b, limit, 0, j, total) + batch_output_seg(b, limit, j + 1, total, total));
    lemma_error_seg_split(b, 0, j, total);
    lemma_error_seg_split(b, j, j + 1, total);
    lemma_error_seg_congruent(a, b, 0, j);
    lemma_error_seg_congruent(a, b, j + 1, total);
    assert(error_report_seg(b, j, j + 1) =~= seq![error_line_spec(b[j].0@, b[j].1->Failure_0@)]
        + Seq::<Seq<char>>::empty());
    assert(error_report_seg(b, 0, j) + (error_report_seg(b, j, j + 1) + error_report_seg(
        b,
        j + 1,
        total,
    )) =~= error_report_seg(a, 0, j) + seq![error_line_spec(b[j].0@, b[j].1->Failure_0@)]
        + error_report_seg(a, j + 1, total));
}

/// Processes every source in order: the first component is everything the
/// invocation prints to its primary output, the second the error report,
/// one line per failed source. A failure never stops the batch.
pub fn run_batch(sources: &Vec<(String, ReadOutcome)>, limit: &Limit) -> (r: (String, Vec<String>))
    ensures
        r.0@ == batch_output_spec(sources@, *limit),
        r.1.deep_view() == error_report_spec(sources@),
{
    let total = sources.len();
    let mut out = String::new();
    let mut errs: Vec<String> = Vec::new();
    let mut i: usize = 0;
    proof {
        assert(Seq::<char>::empty() + batch_output_spec(sources@, *limit) =~= batch_output_spec(
            sources@,
            *limit,
        ));
        assert(errs.deep_view() =~= Seq::<Seq<char>>::empty());
        assert(Seq::<Seq<char>>::empty() + error_report_spec(sources@) =~= error_report_spec(
            sources@,
        ));
    }
    while i < total
        invariant
            total == sources@.len(),
            i <= total,
            batch_output_spec(sources@, *limit) == out@ + batch_output_seg(
                sources@,
                *limit,
                i as int,
                total as int,
                total as int,
            ),
            error_report_spec(sources@) == errs.deep_view() + error_report_seg(
                sources@,
                i as int,
                total as int,
            ),
        decreases total - i,
    {
        let src = &sources[i];
        match &src.1 {
            ReadOutcome::Contents(c) => {
                let piece = source_output(src.0.as_str(), i, total, c, limit);
                out.append(piece.as_str());
                proof {
                    assert(out@ + batch_output_seg(
                        sources@,
                        *limit,
                        i + 1,
                        total as int,
                        total as int,
                    ) =~= batch_output_spec(sources@, *limit));
                    assert(errs.deep_view() + error_report_seg(sources@, i + 1, total as int)
                        =~= error_report_spec(sources@));
                }
            },
            ReadOutcome::Failure(cause) => {
                let ghost old_errs = errs.deep_view();
                errs.push(error_line(src.0.as_str(), cause.as_str()));
                proof {
                    assert(errs.deep_view() =~= old_errs.push(
                        error_line_spec(src.0@, cause@),
                    ));
                    assert(errs.deep_view() + error_report_seg(sources@, i + 1, total as int)
                        =~= error_report_spec(sources@));
                    assert(out@ + batch_output_seg(
                        sources@,
                        *limit,
                        i + 1,
                        total as int,
                        total as int,
                    ) =~= batch_output_spec(sources@, *limit));
                }
            },
        }
        i = i + 1;
    }
    proof {
        assert(out@ + Seq::<char>::empty() =~= out@);
        assert(errs.deep_view() + Seq::<Seq<char>>::empty() =~= errs.deep_view());
    }
    (out, errs)
}

} // verus!

