//! The mathematical model of the scan. A record is delimited by the first
//! structural terminator (LF or CR outside quotes); a field boundary is a
//! structural delimiter. "Outside quotes" is a parity condition: a
//! position lies inside a quoted region exactly when the number of quote
//! bytes seen since the scan anchor, xored with the incoming state, is
//! odd. Every executable function in the crate is specified against the
//! functions in this module.

use vstd::prelude::*;
use crate::Dialect;

verus! {

/// The line-feed byte.
pub open spec fn lf() -> u8 {
    10u8
}

/// The carriage-return byte.
pub open spec fn cr() -> u8 {
    13u8
}

/// Inside-quotes state just before position `i`, scanning `s[a..i)` from
/// the incoming state `q0`: `q0` xored with the parity of quote bytes in
/// `s[a..i)`.
pub open spec fn pq(s: Seq<u8>, qt: u8, q0: bool, a: int, i: int) -> bool
    decreases i - a,
{
    if i <= a {
        q0
    } else {
        pq(s, qt, q0, a, i - 1) != (s[i - 1] == qt)
    }
}

/// A byte that can terminate a record.
pub open spec fn is_term_byte(b: u8) -> bool {
    b == lf() || b == cr()
}

/// A structural terminator: a terminator byte that lies outside quotes.
pub open spec fn struct_term(s: Seq<u8>, d: Dialect, q0: bool, a: int, i: int) -> bool {
    &&& 0 <= i < s.len()
    &&& is_term_byte(s[i])
    &&& !pq(s, d.quotechar, q0, a, i)
}

/// A structural delimiter: a delimiter byte that lies outside quotes.
pub open spec fn struct_delim(s: Seq<u8>, d: Dialect, q0: bool, a: int, i: int) -> bool {
    &&& 0 <= i < s.len()
    &&& s[i] == d.delimiter
    &&& !pq(s, d.quotechar, q0, a, i)
}

/// Position of the first structural terminator at or after `i`, or
/// `s.len()` when the rest of the input holds none.
pub open spec fn term_from(s: Seq<u8>, d: Dialect, q0: bool, a: int, i: int) -> int
    recommends
        0 <= i <= s.len(),
    decreases s.len() - i,
{
    if i < 0 || i >= s.len() {
        s.len() as int
    } else if struct_term(s, d, q0, a, i) {
        i
    } else {
        term_from(s, d, q0, a, i + 1)
    }
}

/// Width of the terminator starting at `t`: two bytes for CRLF, one
/// otherwise.
pub open spec fn twidth(s: Seq<u8>, t: int) -> int {
    if 0 <= t < s.len() && s[t] == cr() && t + 1 < s.len() && s[t + 1] == lf() {
        2
    } else {
        1
    }
}

/// The offset table accumulated over `s[rs..i)` for a record starting at
/// `rs`: a leading 0, then, for every structural delimiter at `p`, the
/// record-relative position `p + 1 - rs`, in ascending order. Keeping the
/// delimiter inside the preceding entry's span lets indexed reads strip
/// it.
pub open spec fn offs_upto(s: Seq<u8>, d: Dialect, q0: bool, a: int, rs: int, i: int) -> Seq<int>
    decreases i - rs,
{
    if i <= rs {
        seq![0int]
    } else {
        let prev = offs_upto(s, d, q0, a, rs, i - 1);
        if struct_delim(s, d, q0, a, i - 1) {
            prev.push(i - rs)
        } else {
            prev
        }
    }
}

/// The full offset table of a record spanning `s[rs..t)`: the accumulated
/// delimiter offsets closed with the record length.
pub open spec fn record_offsets(s: Seq<u8>, d: Dialect, q0: bool, a: int, rs: int, t: int) -> Seq<
    int,
> {
    offs_upto(s, d, q0, a, rs, t).push(t - rs)
}

/// Start of the first record at or after `i`: positions whose record
/// would be empty (a structural terminator with nothing accumulated) are
/// skipped over, so blank lines never surface as records.
pub open spec fn rec_start(s: Seq<u8>, d: Dialect, q0: bool, a: int, i: int) -> int
    recommends
        0 <= i <= s.len(),
    decreases s.len() - i + 1,
{
    if i < 0 || i >= s.len() {
        i
    } else if struct_term(s, d, q0, a, i) {
        rec_start(s, d, q0, a, i + twidth(s, i))
    } else {
        i
    }
}

/// Parity decomposes across a midpoint: scanning `s[a..i)` from `q0` is
/// scanning `s[b..i)` from the state reached at `b`.
pub proof fn lemma_pq_compose(s: Seq<u8>, qt: u8, q0: bool, a: int, b: int, i: int)
    requires
        a <= b <= i,
    ensures
        pq(s, qt, q0, a, i) == pq(s, qt, pq(s, qt, q0, a, b), b, i),
    decreases i - b,
{
    if i > b {
        lemma_pq_compose(s, qt, q0, a, b, i - 1);
    }
}

/// The incoming state enters the parity by xor: scanning from `q0` is
/// scanning from `false`, xored with `q0`.
pub proof fn lemma_pq_xor(s: Seq<u8>, qt: u8, q0: bool, a: int, i: int)
    requires
        a <= i,
    ensures
        pq(s, qt, q0, a, i) == (q0 != pq(s, qt, false, a, i)),
    decreases i - a,
{
    if i > a {
        lemma_pq_xor(s, qt, q0, a, i - 1);
    }
}

/// Parity is unchanged over a span that holds no quote byte.
pub proof fn lemma_pq_no_quotes(s: Seq<u8>, qt: u8, q0: bool, a: int, b: int, i: int)
    requires
        a <= b <= i,
        forall|j: int| b <= j < i ==> s[j] != qt,
    ensures
        pq(s, qt, q0, a, i) == pq(s, qt, q0, a, b),
    decreases i - b,
{
    if i > b {
        lemma_pq_no_quotes(s, qt, q0, a, b, i - 1);
    }
}

/// Two scans agree while they read equal bytes: if `s1[a1..a1+k)` and
/// `s2[a2..a2+k)` coincide, the parity states at corresponding positions
/// coincide.
pub proof fn lemma_pq_agree(
    s1: Seq<u8>,
    s2: Seq<u8>,
    qt: u8,
    q0: bool,
    a1: int,
    a2: int,
    k: int,
    i: int,
)
    requires
        0 <= i <= k,
        0 <= a1,
        0 <= a2,
        a1 + k <= s1.len(),
        a2 + k <= s2.len(),
        forall|j: int| 0 <= j < k ==> s1[a1 + j] == #[trigger] s2[a2 + j],
    ensures
        pq(s1, qt, q0, a1, a1 + i) == pq(s2, qt, q0, a2, a2 + i),
    decreases i,
{
    if i > 0 {
        lemma_pq_agree(s1, s2, qt, q0, a1, a2, k, i - 1);
        assert(s1[a1 + (i - 1)] == s2[a2 + (i - 1)]);
    }
}

/// Characterization of `term_from`: it is bounded by the input, nothing
/// before it is a structural terminator, and it is one itself unless the
/// input ran out.
pub proof fn lemma_term_from_props(s: Seq<u8>, d: Dialect, q0: bool, a: int, i: int)
    requires
        0 <= i <= s.len(),
    ensures
        i <= term_from(s, d, q0, a, i) <= s.len(),
        term_from(s, d, q0, a, i) < s.len() ==> struct_term(s, d, q0, a, term_from(s, d, q0, a, i)),
        forall|j: int| i <= j < term_from(s, d, q0, a, i) ==> !struct_term(s, d, q0, a, j),
    decreases s.len() - i,
{
    if i < s.len() && !struct_term(s, d, q0, a, i) {
        lemma_term_from_props(s, d, q0, a, i + 1);
    }
}

/// Converse characterization: a position that is a structural terminator
/// (or the end of input), with none strictly before it, is `term_from`.
pub proof fn lemma_term_from_exact(s: Seq<u8>, d: Dialect, q0: bool, a: int, i: int, t: int)
    requires
        0 <= i <= t <= s.len(),
        t < s.len() ==> struct_term(s, d, q0, a, t),
        forall|j: int| i <= j < t ==> !struct_term(s, d, q0, a, j),
    ensures
        term_from(s, d, q0, a, i) == t,
    decreases t - i,
{
    if i < t {
        lemma_term_from_exact(s, d, q0, a, i + 1, t);
    }
}

/// Offset monotonicity, the shape law of every record's offset table:
/// it opens at 0, rises strictly while delimiters are pending, closes at
/// the record length, and every entry stays within the record.
pub proof fn lemma_record_offsets_shape(s: Seq<u8>, d: Dialect, q0: bool, a: int, rs: int, t: int)
    requires
        rs <= t,
    ensures
        record_offsets(s, d, q0, a, rs, t).len() >= 2,
        record_offsets(s, d, q0, a, rs, t)[0] == 0,
        forall|j: int|
            0 <= j < record_offsets(s, d, q0, a, rs, t).len() - 2 ==> #[trigger] record_offsets(
                s,
                d,
                q0,
                a,
                rs,
                t,
            )[j] < record_offsets(s, d, q0, a, rs, t)[j + 1],
        record_offsets(s, d, q0, a, rs, t)[record_offsets(s, d, q0, a, rs, t).len() - 2]
            <= record_offsets(s, d, q0, a, rs, t)[record_offsets(s, d, q0, a, rs, t).len() - 1],
        record_offsets(s, d, q0, a, rs, t)[record_offsets(s, d, q0, a, rs, t).len() - 1] == t - rs,
        forall|j: int|
            0 <= j < record_offsets(s, d, q0, a, rs, t).len() ==> 0 <= #[trigger] record_offsets(
                s,
                d,
                q0,
                a,
                rs,
                t,
            )[j] <= t - rs,
{
    lemma_offs_shape(s, d, q0, a, rs, t);
    let offs = offs_upto(s, d, q0, a, rs, t);
    let ro = record_offsets(s, d, q0, a, rs, t);
    assert forall|j: int| 0 <= j < ro.len() - 2 implies #[trigger] ro[j] < ro[j + 1] by {
        assert(ro[j] == offs[j]);
        assert(ro[j + 1] == offs[j + 1]);
        assert(offs[(j + 1) - 1] < offs[j + 1]);
    }
}

/// Shape of the accumulated offset table: it starts at 0, never
/// decreases, steps past a delimiter only (so interior entries grow
/// strictly), and stays within the scanned span.
pub proof fn lemma_offs_shape(s: Seq<u8>, d: Dialect, q0: bool, a: int, rs: int, i: int)
    requires
        rs <= i,
    ensures
        offs_upto(s, d, q0, a, rs, i).len() >= 1,
        offs_upto(s, d, q0, a, rs, i)[0] == 0,
        forall|j: int|
            0 <= j < offs_upto(s, d, q0, a, rs, i).len() ==> 0 <= #[trigger] offs_upto(
                s,
                d,
                q0,
                a,
                rs,
                i,
            )[j] <= i - rs,
        forall|j: int|
            0 < j < offs_upto(s, d, q0, a, rs, i).len() ==> #[trigger] offs_upto(
                s,
                d,
                q0,
                a,
                rs,
                i,
            )[j - 1] < offs_upto(s, d, q0, a, rs, i)[j],
        forall|j: int|
            0 < j < offs_upto(s, d, q0, a, rs, i).len() ==> struct_delim(
                s,
                d,
                q0,
                a,
                rs + #[trigger] offs_upto(s, d, q0, a, rs, i)[j] - 1,
            ),
    decreases i - rs,
{
    if i > rs {
        lemma_offs_shape(s, d, q0, a, rs, i - 1);
    }
}

} // verus!
