//! Laws of the scanner, stated over the model in `scan` and proved once
//! and for all. Together with the contracts of `Parser::read_line` they
//! pin down the scanner's behaviour: the offset table's shape, the field
//! count of quote-free records, independence from everything before the
//! cursor, the equivalence of LF and CRLF terminators — per record and
//! for whole record streams — and the reconstruction of a record from
//! its fields.

use vstd::assert_seqs_equal;
use vstd::prelude::*;
use crate::Dialect;
use crate::wf_dialect;
use crate::scan::{
    cr, lemma_offs_shape, lemma_pq_agree, lemma_pq_compose, lemma_pq_no_quotes,
    lemma_term_from_exact, lemma_term_from_props, lf, offs_upto, pq, rec_start, record_offsets,
    struct_delim, struct_term, term_from, twidth,
};

verus! {

/// Number of occurrences of `b` in `s`.
pub open spec fn count_byte(s: Seq<u8>, b: u8) -> int
    decreases s.len(),
{
    if s.len() == 0 {
        0
    } else {
        count_byte(s.drop_last(), b) + if s.last() == b {
            1int
        } else {
            0int
        }
    }
}

/// The fields carved out of record bytes by an offset table: entry `i`
/// spans `offs[i]` to `offs[i+1]`, minus the trailing delimiter kept
/// inline for every field but the last.
pub open spec fn fields_of(data: Seq<u8>, offs: Seq<int>) -> Seq<Seq<u8>> {
    Seq::new(
        (offs.len() - 1) as nat,
        |i: int|
            data.subrange(
                offs[i],
                offs[i + 1] - (if i + 1 < offs.len() - 1 {
                    1int
                } else {
                    0int
                }),
            ),
    )
}

/// The fields joined back together with a single delimiter between
/// them.
pub open spec fn join_with(fields: Seq<Seq<u8>>, delim: u8) -> Seq<u8>
    decreases fields.len(),
{
    if fields.len() == 0 {
        Seq::empty()
    } else if fields.len() == 1 {
        fields[0]
    } else {
        join_with(fields.drop_last(), delim).push(delim) + fields.last()
    }
}

/// Helper for the field-count law: while scanning a span in which every
/// delimiter byte lies outside quotes, the offset table grows by exactly
/// one entry per delimiter byte.
proof fn lemma_offs_count(s: Seq<u8>, d: Dialect, q0: bool, a: int, rs: int, i: int)
    requires
        0 <= rs <= i <= s.len(),
        forall|j: int| rs <= j < i && s[j] == d.delimiter ==> !pq(s, d.quotechar, q0, a, j),
    ensures
        offs_upto(s, d, q0, a, rs, i).len() == count_byte(s.subrange(rs, i), d.delimiter) + 1,
    decreases i - rs,
{
    if i > rs {
        lemma_offs_count(s, d, q0, a, rs, i - 1);
        assert(s.subrange(rs, i).drop_last() =~= s.subrange(rs, i - 1));
        assert(s.subrange(rs, i).last() == s[i - 1]);
        if s[i - 1] == d.delimiter {
            assert(struct_delim(s, d, q0, a, i - 1));
        }
    } else {
        assert(s.subrange(rs, rs) =~= Seq::<u8>::empty());
    }
}

/// Field-count law: in a record whose span holds no quoted delimiter,
/// the number of fields is the number of delimiter bytes in the record
/// slice plus one.
pub proof fn lemma_field_count(s: Seq<u8>, d: Dialect, q0: bool, a: int, rs: int, t: int)
    requires
        0 <= rs <= t <= s.len(),
        forall|j: int| rs <= j < t && s[j] == d.delimiter ==> !pq(s, d.quotechar, q0, a, j),
    ensures
        record_offsets(s, d, q0, a, rs, t).len() - 1 == count_byte(s.subrange(rs, t), d.delimiter)
            + 1,
{
    lemma_offs_count(s, d, q0, a, rs, t);
}

/// Corresponding positions of two scans that read equal byte windows
/// from the same incoming state classify identically; stepping over the
/// whole remaining input, the first structural terminator falls at the
/// same relative position.
pub proof fn lemma_term_from_agree(
    s1: Seq<u8>,
    s2: Seq<u8>,
    d: Dialect,
    q0: bool,
    a1: int,
    a2: int,
    i: int,
)
    requires
        0 <= a1 <= s1.len(),
        0 <= a2 <= s2.len(),
        s1.len() - a1 == s2.len() - a2,
        forall|j: int| 0 <= j < s1.len() - a1 ==> s1[a1 + j] == #[trigger] s2[a2 + j],
        0 <= i <= s1.len() - a1,
    ensures
        term_from(s1, d, q0, a1, a1 + i) - a1 == term_from(s2, d, q0, a2, a2 + i) - a2,
    decreases s1.len() - a1 - i,
{
    let k = s1.len() - a1;
    if i < k {
        lemma_pq_agree(s1, s2, d.quotechar, q0, a1, a2, k, i);
        assert(s1[a1 + i] == s2[a2 + i]);
        assert(struct_term(s1, d, q0, a1, a1 + i) == struct_term(s2, d, q0, a2, a2 + i));
        if !struct_term(s1, d, q0, a1, a1 + i) {
            lemma_term_from_agree(s1, s2, d, q0, a1, a2, i + 1);
        }
    }
}

/// Under the same window agreement, the offset tables accumulated over
/// corresponding spans are equal.
pub proof fn lemma_offs_agree(
    s1: Seq<u8>,
    s2: Seq<u8>,
    d: Dialect,
    q0: bool,
    a1: int,
    a2: int,
    rs: int,
    i: int,
)
    requires
        0 <= a1 <= s1.len(),
        0 <= a2 <= s2.len(),
        s1.len() - a1 == s2.len() - a2,
        forall|j: int| 0 <= j < s1.len() - a1 ==> s1[a1 + j] == #[trigger] s2[a2 + j],
        0 <= rs <= i <= s1.len() - a1,
    ensures
        offs_upto(s1, d, q0, a1, a1 + rs, a1 + i) == offs_upto(s2, d, q0, a2, a2 + rs, a2 + i),
    decreases i - rs,
{
    if i > rs {
        lemma_offs_agree(s1, s2, d, q0, a1, a2, rs, i - 1);
        lemma_pq_agree(s1, s2, d.quotechar, q0, a1, a2, s1.len() - a1, i - 1);
        assert(s1[a1 + (i - 1)] == s2[a2 + (i - 1)]);
        assert(struct_delim(s1, d, q0, a1, a1 + i - 1) == struct_delim(s2, d, q0, a2, a2 + i - 1));
    }
}

/// Under the same window agreement, blank-line skipping lands on the
/// same relative record start.
pub proof fn lemma_rec_start_agree(
    s1: Seq<u8>,
    s2: Seq<u8>,
    d: Dialect,
    q0: bool,
    a1: int,
    a2: int,
    i: int,
)
    requires
        0 <= a1 <= s1.len(),
        0 <= a2 <= s2.len(),
        s1.len() - a1 == s2.len() - a2,
        forall|j: int| 0 <= j < s1.len() - a1 ==> s1[a1 + j] == #[trigger] s2[a2 + j],
        0 <= i <= s1.len() - a1,
    ensures
        rec_start(s1, d, q0, a1, a1 + i) - a1 == rec_start(s2, d, q0, a2, a2 + i) - a2,
    decreases s1.len() - a1 - i + 1,
{
    let k = s1.len() - a1;
    if i < k {
        lemma_pq_agree(s1, s2, d.quotechar, q0, a1, a2, k, i);
        assert(s1[a1 + i] == s2[a2 + i]);
        assert(struct_term(s1, d, q0, a1, a1 + i) == struct_term(s2, d, q0, a2, a2 + i));
        if struct_term(s1, d, q0, a1, a1 + i) {
            if i + 1 < k {
                let i1 = i + 1;
                assert(s1[a1 + i1] == s2[a2 + i1]);
            }
            assert(twidth(s1, a1 + i) == twidth(s2, a2 + i));
            lemma_rec_start_agree(s1, s2, d, q0, a1, a2, i + twidth(s1, a1 + i));
        }
    }
}

/// Chunk-boundary invariance: everything the parser emits for the next
/// record — where the record starts, where it ends, its bytes and its
/// offset table — depends only on the bytes at and after the cursor,
/// the dialect, and the incoming quote state. Two scans whose remaining
/// inputs coincide behave identically, wherever their buffers place
/// chunk boundaries.
pub proof fn lemma_parse_depends_on_suffix(
    s1: Seq<u8>,
    s2: Seq<u8>,
    d: Dialect,
    q0: bool,
    a1: int,
    a2: int,
)
    requires
        0 <= a1 <= s1.len(),
        0 <= a2 <= s2.len(),
        s1.len() - a1 == s2.len() - a2,
        forall|j: int| 0 <= j < s1.len() - a1 ==> s1[a1 + j] == #[trigger] s2[a2 + j],
    ensures
        ({
            let r1 = rec_start(s1, d, q0, a1, a1);
            let r2 = rec_start(s2, d, q0, a2, a2);
            let t1 = term_from(s1, d, q0, a1, r1);
            let t2 = term_from(s2, d, q0, a2, r2);
            &&& r1 - a1 == r2 - a2
            &&& t1 - a1 == t2 - a2
            &&& s1.subrange(r1, t1) == s2.subrange(r2, t2)
            &&& record_offsets(s1, d, q0, a1, r1, t1) == record_offsets(s2, d, q0, a2, r2, t2)
            &&& (t1 < s1.len() ==> twidth(s1, t1) == twidth(s2, t2))
        }),
{
    let k = s1.len() - a1;
    lemma_rec_start_agree(s1, s2, d, q0, a1, a2, 0);
    let r1 = rec_start(s1, d, q0, a1, a1);
    let r2 = rec_start(s2, d, q0, a2, a2);
    lemma_rec_start_props_bounds(s1, d, q0, a1, a1);
    lemma_rec_start_props_bounds(s2, d, q0, a2, a2);
    lemma_term_from_agree(s1, s2, d, q0, a1, a2, r1 - a1);
    let t1 = term_from(s1, d, q0, a1, r1);
    let t2 = term_from(s2, d, q0, a2, r2);
    lemma_term_from_props(s1, d, q0, a1, r1);
    lemma_term_from_props(s2, d, q0, a2, r2);
    assert_seqs_equal!(s1.subrange(r1, t1) == s2.subrange(r2, t2), x => {
        let j = r1 - a1 + x;
        assert(s1[a1 + j] == s2[a2 + j]);
        assert(s1.subrange(r1, t1)[x] == s1[r1 + x]);
        assert(s2.subrange(r2, t2)[x] == s2[r2 + x]);
    });
    lemma_offs_agree(s1, s2, d, q0, a1, a2, r1 - a1, t1 - a1);
    if t1 < s1.len() {
        let j = t1 - a1;
        assert(s1[a1 + j] == s2[a2 + j]);
        if t1 + 1 < s1.len() {
            let j1 = t1 + 1 - a1;
            assert(s1[a1 + j1] == s2[a2 + j1]);
        }
    }
}

/// Record starts stay within the input.
proof fn lemma_rec_start_props_bounds(s: Seq<u8>, d: Dialect, q0: bool, a: int, i: int)
    requires
        0 <= i <= s.len(),
    ensures
        i <= rec_start(s, d, q0, a, i) <= s.len(),
    decreases s.len() - i + 1,
{
    if i < s.len() && struct_term(s, d, q0, a, i) {
        lemma_rec_start_props_bounds(s, d, q0, a, i + twidth(s, i));
    }
}

/// CRLF idempotence, one record at a time: take a scan whose next
/// record ends in a lone LF, and a second input carrying the same
/// record bytes but terminated by CRLF instead. Both scans emit the
/// same record with the same offset table, and each consumes exactly
/// through its terminator, so the remaining suffixes line up again and
/// `lemma_parse_depends_on_suffix` carries the equivalence to all later
/// records.
pub proof fn lemma_crlf_terminator_equivalence(
    s1: Seq<u8>,
    s2: Seq<u8>,
    d: Dialect,
    q0: bool,
    a1: int,
    a2: int,
)
    requires
        wf_dialect(d),
        0 <= a1 <= s1.len(),
        0 <= a2,
        a1 < term_from(s1, d, q0, a1, a1),
        term_from(s1, d, q0, a1, a1) < s1.len(),
        s1[term_from(s1, d, q0, a1, a1)] == lf(),
        a2 + (term_from(s1, d, q0, a1, a1) - a1) + 2 <= s2.len(),
        forall|j: int|
            0 <= j < term_from(s1, d, q0, a1, a1) - a1 ==> s1[a1 + j] == #[trigger] s2[a2 + j],
        s2[a2 + (term_from(s1, d, q0, a1, a1) - a1)] == cr(),
        s2[a2 + (term_from(s1, d, q0, a1, a1) - a1) + 1] == lf(),
    ensures
        ({
            let t1 = term_from(s1, d, q0, a1, a1);
            let t2 = a2 + (t1 - a1);
            &&& rec_start(s1, d, q0, a1, a1) == a1
            &&& rec_start(s2, d, q0, a2, a2) == a2
            &&& term_from(s2, d, q0, a2, a2) == t2
            &&& twidth(s1, t1) == 1
            &&& twidth(s2, t2) == 2
            &&& s2.subrange(a2, t2) == s1.subrange(a1, t1)
            &&& record_offsets(s2, d, q0, a2, a2, t2) == record_offsets(s1, d, q0, a1, a1, t1)
            &&& !pq(s1, d.quotechar, q0, a1, t1)
            &&& !pq(s2, d.quotechar, q0, a2, t2)
        }),
{
    let t1 = term_from(s1, d, q0, a1, a1);
    let k = t1 - a1;
    let t2 = a2 + k;
    lemma_term_from_props(s1, d, q0, a1, a1);
    // no structural terminator inside either window
    assert forall|j: int| a2 <= j < t2 implies !struct_term(s2, d, q0, a2, j) by {
        lemma_pq_agree(s1, s2, d.quotechar, q0, a1, a2, k, j - a2);
        assert(s1[a1 + (j - a2)] == s2[j]);
        assert(!struct_term(s1, d, q0, a1, a1 + (j - a2)));
    }
    // the CR at the end of the second window is structural
    lemma_pq_agree(s1, s2, d.quotechar, q0, a1, a2, k, k);
    assert(!pq(s1, d.quotechar, q0, a1, t1));
    assert(struct_term(s2, d, q0, a2, t2));
    lemma_term_from_exact(s2, d, q0, a2, a2, t2);
    // widths: a lone LF on one side, CR followed by LF on the other
    assert(twidth(s1, t1) == 1);
    assert(twidth(s2, t2) == 2);
    // same bytes, same offsets
    assert_seqs_equal!(s2.subrange(a2, t2) == s1.subrange(a1, t1), x => {
        assert(s1[a1 + x] == s2[a2 + x]);
        assert(s2.subrange(a2, t2)[x] == s2[a2 + x]);
        assert(s1.subrange(a1, t1)[x] == s1[a1 + x]);
    });
    lemma_offs_agree_window(s1, s2, d, q0, a1, a2, k, k);
    // neither scan starts on a blank line
    assert(!struct_term(s1, d, q0, a1, a1));
    assert(!struct_term(s2, d, q0, a2, a2));
}

/// Offset-table agreement over a bounded common window (the two inputs
/// may differ past it).
proof fn lemma_offs_agree_window(
    s1: Seq<u8>,
    s2: Seq<u8>,
    d: Dialect,
    q0: bool,
    a1: int,
    a2: int,
    k: int,
    i: int,
)
    requires
        0 <= a1,
        0 <= a2,
        a1 + k <= s1.len(),
        a2 + k <= s2.len(),
        forall|j: int| 0 <= j < k ==> s1[a1 + j] == #[trigger] s2[a2 + j],
        0 <= i <= k,
    ensures
        offs_upto(s1, d, q0, a1, a1, a1 + i) == offs_upto(s2, d, q0, a2, a2, a2 + i),
    decreases i,
{
    if i > 0 {
        lemma_offs_agree_window(s1, s2, d, q0, a1, a2, k, i - 1);
        lemma_pq_agree(s1, s2, d.quotechar, q0, a1, a2, k, i - 1);
        assert(s1[a1 + (i - 1)] == s2[a2 + (i - 1)]);
        assert(struct_delim(s1, d, q0, a1, a1 + i - 1) == struct_delim(s2, d, q0, a2, a2 + i - 1));
    }
}

/// An offset table rising strictly on the interior and weakly on the
/// last step is monotone between any two entries.
proof fn lemma_offs_chain(offs: Seq<int>, j: int, k: int)
    requires
        offs.len() >= 2,
        forall|x: int| 0 <= x < offs.len() - 2 ==> #[trigger] offs[x] < offs[x + 1],
        offs[offs.len() - 2] <= offs[offs.len() - 1],
        0 <= j <= k < offs.len(),
    ensures
        offs[j] <= offs[k],
    decreases k - j,
{
    if j < k {
        lemma_offs_chain(offs, j + 1, k);
        if j < offs.len() - 2 {
            assert(offs[j] < offs[j + 1]);
        }
    }
}

/// With a leading 0, every entry of such a table is nonnegative.
proof fn lemma_offs_entries_nonneg(offs: Seq<int>, j: int)
    requires
        offs.len() >= 2,
        offs[0] == 0,
        forall|x: int| 0 <= x < offs.len() - 2 ==> #[trigger] offs[x] < offs[x + 1],
        offs[offs.len() - 2] <= offs[offs.len() - 1],
        0 <= j < offs.len(),
    ensures
        offs[j] >= 0,
{
    lemma_offs_chain(offs, 0, j);
}

/// The offset table of a record with its last field and the delimiter
/// before it removed.
pub open spec fn sub_table(offs: Seq<int>) -> Seq<int> {
    Seq::new(
        (offs.len() - 1) as nat,
        |j: int|
            if j == offs.len() - 2 {
                offs[offs.len() - 2] - 1
            } else {
                offs[j]
            },
    )
}

/// The bytes of a record with its last field and the delimiter before
/// it removed.
pub open spec fn sub_data(data: Seq<u8>, offs: Seq<int>) -> Seq<u8> {
    data.subrange(0, offs[offs.len() - 2] - 1)
}

/// Inductive step of the round-trip law: the truncated table keeps the
/// strict rise of the interior entries.
proof fn lemma_sub_table_chain(offs: Seq<int>)
    requires
        offs.len() >= 3,
        forall|j: int| 0 <= j < offs.len() - 2 ==> #[trigger] offs[j] < offs[j + 1],
    ensures
        sub_table(offs).len() == offs.len() - 1,
        forall|j: int|
            0 <= j < sub_table(offs).len() - 2 ==> #[trigger] sub_table(offs)[j] < sub_table(
                offs,
            )[j + 1],
        sub_table(offs)[sub_table(offs).len() - 2] <= sub_table(offs)[sub_table(offs).len() - 1],
{
    let m = offs.len();
    let offs1 = sub_table(offs);
    assert forall|j: int| 0 <= j < offs1.len() - 2 implies #[trigger] offs1[j] < offs1[j + 1] by {
        assert(offs1[j] == offs[j]);
        if j + 1 < offs1.len() - 1 {
            assert(offs1[j + 1] == offs[j + 1]);
        } else {
            assert(offs1[j + 1] == offs[m - 2] - 1);
            assert(offs[j] < offs[j + 1]);
            assert(offs[j + 1] < offs[j + 2]);
        }
    }
    if m >= 4 {
        assert(offs1[m - 3] == offs[m - 3]);
        assert(offs[m - 3] < offs[m - 2]);
    }
}

/// Inductive step of the round-trip law: the truncated table still
/// opens at 0 and closes at the truncated record's length.
proof fn lemma_sub_table_ends(data: Seq<u8>, offs: Seq<int>, delim: u8)
    requires
        offs.len() >= 3,
        offs[0] == 0,
        forall|j: int| 0 <= j < offs.len() - 2 ==> #[trigger] offs[j] < offs[j + 1],
        offs[offs.len() - 2] <= offs[offs.len() - 1],
        offs[offs.len() - 1] == data.len(),
        forall|j: int| 0 < j < offs.len() - 1 ==> data[#[trigger] offs[j] - 1] == delim,
    ensures
        1 <= offs[offs.len() - 2] <= data.len(),
        sub_table(offs)[0] == 0,
        sub_table(offs)[sub_table(offs).len() - 1] == sub_data(data, offs).len(),
{
    let m = offs.len();
    lemma_offs_entries_nonneg(offs, m - 3);
    assert(offs[m - 3] < offs[m - 2]);
    lemma_offs_chain(offs, m - 2, m - 1);
}

/// All entries of a well-shaped offset table at once: nonnegative, and
/// strictly below the second-to-last entry on the interior.
proof fn lemma_offs_bounds(offs: Seq<int>)
    requires
        offs.len() >= 2,
        offs[0] == 0,
        forall|j: int| 0 <= j < offs.len() - 2 ==> #[trigger] offs[j] < offs[j + 1],
        offs[offs.len() - 2] <= offs[offs.len() - 1],
    ensures
        forall|j: int| 0 <= j < offs.len() ==> 0 <= #[trigger] offs[j],
        forall|j: int| 0 <= j < offs.len() - 2 ==> #[trigger] offs[j] < offs[offs.len() - 2],
{
    assert forall|j: int| 0 <= j < offs.len() implies 0 <= #[trigger] offs[j] by {
        lemma_offs_chain(offs, 0, j);
    }
    assert forall|j: int| 0 <= j < offs.len() - 2 implies #[trigger] offs[j] < offs[offs.len()
        - 2] by {
        lemma_offs_chain(offs, j + 1, offs.len() - 2);
    }
}

/// Inductive step of the round-trip law: interior entries of the
/// truncated table still sit one past a delimiter byte.
proof fn lemma_sub_table_delims(data: Seq<u8>, offs: Seq<int>, delim: u8)
    requires
        offs.len() >= 3,
        offs[0] == 0,
        forall|j: int| 0 <= j < offs.len() - 2 ==> #[trigger] offs[j] < offs[j + 1],
        offs[offs.len() - 2] <= offs[offs.len() - 1],
        offs[offs.len() - 1] == data.len(),
        forall|j: int| 0 < j < offs.len() - 1 ==> data[#[trigger] offs[j] - 1] == delim,
    ensures
        forall|j: int|
            0 < j < sub_table(offs).len() - 1 ==> sub_data(data, offs)[#[trigger] sub_table(
                offs,
            )[j] - 1] == delim,
{
    let m = offs.len();
    let offs1 = sub_table(offs);
    let data1 = sub_data(data, offs);
    lemma_offs_bounds(offs);
    assert forall|j: int| 0 < j < offs1.len() - 1 implies data1[#[trigger] offs1[j] - 1]
        == delim by {
        assert(offs1[j] == offs[j]);
        assert(data[offs[j] - 1] == delim);
        assert(offs[j - 1] < offs[j]);
        assert(offs[j] < offs[m - 2]);
        assert(data1[offs[j] - 1] == data[offs[j] - 1]);
    }
}

/// Inductive step of the round-trip law: dropping the last field and
/// its delimiter leaves a record and an offset table of the same shape.
proof fn lemma_join_sub_table(data: Seq<u8>, offs: Seq<int>, delim: u8)
    requires
        offs.len() >= 3,
        offs[0] == 0,
        forall|j: int| 0 <= j < offs.len() - 2 ==> #[trigger] offs[j] < offs[j + 1],
        offs[offs.len() - 2] <= offs[offs.len() - 1],
        offs[offs.len() - 1] == data.len(),
        forall|j: int| 0 < j < offs.len() - 1 ==> data[#[trigger] offs[j] - 1] == delim,
    ensures
        1 <= offs[offs.len() - 2] <= data.len(),
        sub_table(offs).len() == offs.len() - 1,
        sub_table(offs)[0] == 0,
        forall|j: int|
            0 <= j < sub_table(offs).len() - 2 ==> #[trigger] sub_table(offs)[j] < sub_table(
                offs,
            )[j + 1],
        sub_table(offs)[sub_table(offs).len() - 2] <= sub_table(offs)[sub_table(offs).len() - 1],
        sub_table(offs)[sub_table(offs).len() - 1] == sub_data(data, offs).len(),
        forall|j: int|
            0 < j < sub_table(offs).len() - 1 ==> sub_data(data, offs)[#[trigger] sub_table(
                offs,
            )[j] - 1] == delim,
{
    lemma_sub_table_chain(offs);
    lemma_sub_table_ends(data, offs, delim);
    lemma_sub_table_delims(data, offs, delim);
}

/// Inductive step of the round-trip law: the fields over the truncated
/// table are the fields over the full one, minus the last.
#[verifier::rlimit(100)]
proof fn lemma_join_sub_fields(data: Seq<u8>, offs: Seq<int>, delim: u8)
    requires
        offs.len() >= 3,
        offs[0] == 0,
        forall|j: int| 0 <= j < offs.len() - 2 ==> #[trigger] offs[j] < offs[j + 1],
        offs[offs.len() - 2] <= offs[offs.len() - 1],
        offs[offs.len() - 1] == data.len(),
        forall|j: int| 0 < j < offs.len() - 1 ==> data[#[trigger] offs[j] - 1] == delim,
    ensures
        fields_of(data, offs).drop_last() == fields_of(sub_data(data, offs), sub_table(offs)),
{
    let m = offs.len();
    let cut = offs[m - 2];
    lemma_join_sub_table(data, offs, delim);
    let data1 = sub_data(data, offs);
    let offs1 = sub_table(offs);
    let fields = fields_of(data, offs);
    let sub = fields_of(data1, offs1);
    assert forall|i: int| 0 <= i < m - 2 implies fields.drop_last()[i] == #[trigger] sub[i] by {
        assert(fields.drop_last()[i] == fields[i]);
        assert(offs1[i] == offs[i]);
        lemma_offs_entries_nonneg(offs, i);
        if i + 1 < m - 2 {
            assert(offs1[i + 1] == offs[i + 1]);
            lemma_offs_chain(offs, i + 1, m - 2);
            assert_seqs_equal!(
                data.subrange(offs[i], offs[i+1] - 1)
                    == data1.subrange(offs[i], offs[i+1] - 1));
        } else {
            assert(offs1[i + 1] == cut - 1);
            assert_seqs_equal!(
                data.subrange(offs[i], cut - 1)
                    == data1.subrange(offs[i], cut - 1));
        }
    }
    assert(fields.drop_last() =~= sub);
}

/// Round-trip law over an offset table: when every interior offset sits
/// one past a delimiter byte, joining the fields with single delimiters
/// reconstructs the record bytes exactly.
#[verifier::rlimit(100)]
pub proof fn lemma_join_fields(data: Seq<u8>, offs: Seq<int>, delim: u8)
    requires
        offs.len() >= 2,
        offs[0] == 0,
        forall|j: int| 0 <= j < offs.len() - 2 ==> #[trigger] offs[j] < offs[j + 1],
        offs[offs.len() - 2] <= offs[offs.len() - 1],
        offs[offs.len() - 1] == data.len(),
        forall|j: int| 0 < j < offs.len() - 1 ==> data[#[trigger] offs[j] - 1] == delim,
    ensures
        join_with(fields_of(data, offs), delim) == data,
    decreases offs.len(),
{
    let fields = fields_of(data, offs);
    let m = offs.len();
    if m == 2 {
        assert(fields.len() == 1);
        assert(join_with(fields, delim) == fields[0]);
        assert_seqs_equal!(fields[0] == data);
    } else {
        let cut = offs[m - 2];
        let data1 = sub_data(data, offs);
        let offs1 = sub_table(offs);
        lemma_join_sub_table(data, offs, delim);
        lemma_join_sub_fields(data, offs, delim);
        lemma_join_fields(data1, offs1, delim);
        let sub = fields_of(data1, offs1);
        assert(join_with(fields, delim) == join_with(sub, delim).push(delim) + fields.last());
        assert(join_with(sub, delim) == data1);
        assert(data[cut - 1] == delim);
        assert_seqs_equal!(data1.push(delim) + fields.last() == data, x => {
            assert(fields.last() == data.subrange(cut, data.len() as int));
            if x >= cut {
                assert(fields.last()[x - cut] == data[x]);
            }
        });
    }
}

/// Round trip for the scanner's own records: concatenating the raw
/// fields of the record spanning `[rs, t)` with single delimiters
/// reconstructs the record bytes (terminator normalization excluded,
/// since record bytes never include the terminator).
#[verifier::rlimit(100)]
pub proof fn lemma_record_round_trip(s: Seq<u8>, d: Dialect, q0: bool, a: int, rs: int, t: int)
    requires
        0 <= rs <= t <= s.len(),
    ensures
        join_with(
            fields_of(s.subrange(rs, t), record_offsets(s, d, q0, a, rs, t)),
            d.delimiter,
        ) == s.subrange(rs, t),
{
    let data = s.subrange(rs, t);
    let ro = record_offsets(s, d, q0, a, rs, t);
    let offs = offs_upto(s, d, q0, a, rs, t);
    lemma_offs_shape(s, d, q0, a, rs, t);
    crate::scan::lemma_record_offsets_shape(s, d, q0, a, rs, t);
    assert forall|j: int| 0 < j < ro.len() - 1 implies data[#[trigger] ro[j] - 1]
        == d.delimiter by {
        assert(ro[j] == offs[j]);
        assert(struct_delim(s, d, q0, a, rs + offs[j] - 1));
        assert(offs[j - 1] < offs[j]);
        assert(offs[j - 1] >= 0);
        let x = ro[j] - 1;
        assert(data[x] == s[rs + x]);
    }
    lemma_join_fields(data, ro, d.delimiter);
}

/// The whole sequence of records a lenient scan yields from position
/// `a` with incoming state `q0` (the quote parity at `a`): blank lines
/// are skipped, every terminated record is emitted, and a final
/// unterminated record collects the rest of the input. Each element is
/// the record's bytes paired with its offset table.
pub open spec fn record_stream(s: Seq<u8>, d: Dialect, q0: bool, a: int) -> Seq<(Seq<u8>, Seq<int>)>
    decreases s.len() - a + 1,
{
    if a < 0 || a >= s.len() {
        Seq::empty()
    } else {
        let t0 = term_from(s, d, q0, a, a);
        let t = if t0 < a {
            a
        } else {
            t0
        };
        if t >= s.len() {
            seq![(s.subrange(a, s.len() as int), record_offsets(s, d, q0, a, a, s.len() as int))]
        } else if t == a {
            record_stream(s, d, false, a + twidth(s, a))
        } else {
            seq![(s.subrange(a, t), record_offsets(s, d, q0, a, a, t))] + record_stream(
                s,
                d,
                false,
                t + twidth(s, t),
            )
        }
    }
}

/// The terminator written in place of the one at `t` when LF
/// terminators are normalized to CRLF: a lone LF and a CRLF both become
/// CRLF; a bare CR stays a bare CR.
pub open spec fn expanded_terminator(s: Seq<u8>, t: int) -> Seq<u8> {
    if s[t] == cr() && twidth(s, t) == 1 {
        seq![cr()]
    } else {
        seq![cr(), lf()]
    }
}

/// The input from position `a` on, with every structural LF terminator
/// replaced by CRLF (CRLF and bare-CR terminators kept; quoted
/// terminator bytes are field content and stay untouched).
pub open spec fn crlf_expanded(s: Seq<u8>, d: Dialect, q0: bool, a: int) -> Seq<u8>
    decreases s.len() - a + 1,
{
    if a < 0 || a >= s.len() {
        Seq::empty()
    } else {
        let t0 = term_from(s, d, q0, a, a);
        let t = if t0 < a {
            a
        } else {
            t0
        };
        if t >= s.len() {
            s.subrange(a, s.len() as int)
        } else {
            s.subrange(a, t) + expanded_terminator(s, t) + crlf_expanded(
                s,
                d,
                false,
                t + twidth(s, t),
            )
        }
    }
}

/// Stream-level suffix invariance: two scans whose remaining inputs
/// coincide yield the same record sequence, wherever the bytes sit.
pub proof fn lemma_record_stream_suffix(
    s1: Seq<u8>,
    s2: Seq<u8>,
    d: Dialect,
    q0: bool,
    a1: int,
    a2: int,
)
    requires
        0 <= a1 <= s1.len(),
        0 <= a2 <= s2.len(),
        s1.len() - a1 == s2.len() - a2,
        forall|j: int| 0 <= j < s1.len() - a1 ==> s1[a1 + j] == #[trigger] s2[a2 + j],
    ensures
        record_stream(s1, d, q0, a1) == record_stream(s2, d, q0, a2),
    decreases s1.len() - a1 + 1,
{
    let k = s1.len() - a1;
    if k == 0 {
        return ;
    }
    lemma_term_from_agree(s1, s2, d, q0, a1, a2, 0);
    let t1 = term_from(s1, d, q0, a1, a1);
    let t2 = term_from(s2, d, q0, a2, a2);
    lemma_term_from_props(s1, d, q0, a1, a1);
    if t1 >= s1.len() {
        assert_seqs_equal!(s1.subrange(a1, s1.len() as int) == s2.subrange(a2, s2.len() as int), x => {
            assert(s1[a1 + x] == s2[a2 + x]);
        });
        lemma_offs_agree(s1, s2, d, q0, a1, a2, 0, k);
    } else {
        let j0 = t1 - a1;
        assert(s1[a1 + j0] == s2[a2 + j0]);
        let w = twidth(s1, t1);
        if t1 + 1 < s1.len() {
            let j1 = t1 + 1 - a1;
            assert(s1[a1 + j1] == s2[a2 + j1]);
        }
        assert(twidth(s2, t2) == w);
        assert forall|j: int|
            0 <= j < s1.len() - (t1 + w) implies s1[t1 + w + j] == #[trigger] s2[t2 + w + j] by {
            let jj = (t1 + w - a1) + j;
            assert(s1[a1 + jj] == s2[a2 + jj]);
        }
        lemma_record_stream_suffix(s1, s2, d, false, t1 + w, t2 + w);
        if t1 > a1 {
            assert_seqs_equal!(s1.subrange(a1, t1) == s2.subrange(a2, t2), x => {
                assert(s1[a1 + x] == s2[a2 + x]);
            });
            lemma_offs_agree(s1, s2, d, q0, a1, a2, 0, t1 - a1);
        }
    }
}

/// A nonempty expansion never opens with a line feed: it opens either
/// with the first input byte of its segment or with the carriage
/// return of a rewritten terminator.
proof fn lemma_expanded_first_byte(s: Seq<u8>, d: Dialect, q0: bool, a: int)
    requires
        0 <= a <= s.len(),
        crlf_expanded(s, d, q0, a).len() > 0,
    ensures
        crlf_expanded(s, d, q0, a)[0] == s[a] || crlf_expanded(s, d, q0, a)[0] == cr(),
{
    let t = term_from(s, d, q0, a, a);
    lemma_term_from_props(s, d, q0, a, a);
    if t < s.len() && t == a {
        assert(crlf_expanded(s, d, q0, a)[0] == expanded_terminator(s, t)[0]);
    }
}

/// CRLF idempotence for whole streams: normalizing every structural LF
/// terminator to CRLF leaves the record sequence unchanged — the same
/// record bytes with the same offset tables, in the same order.
pub proof fn lemma_crlf_stream_idempotence(s: Seq<u8>, d: Dialect, q0: bool, a: int)
    requires
        wf_dialect(d),
        0 <= a <= s.len(),
    ensures
        record_stream(crlf_expanded(s, d, q0, a), d, q0, 0) == record_stream(s, d, q0, a),
    decreases s.len() - a + 1,
{
    if a >= s.len() {
        return ;
    }
    let t = term_from(s, d, q0, a, a);
    lemma_term_from_props(s, d, q0, a, a);
    let e = crlf_expanded(s, d, q0, a);
    if t >= s.len() {
        // no terminator: the expansion is the untouched suffix
        assert forall|j: int| 0 <= j < s.len() - a implies e[0 + j] == #[trigger] s[a + j] by {
            assert(e[j] == s.subrange(a, s.len() as int)[j]);
        }
        lemma_record_stream_suffix(e, s, d, q0, 0, a);
        return ;
    }
    let k = t - a;
    let w = twidth(s, t);
    let seg = s.subrange(a, t);
    let rep = expanded_terminator(s, t);
    let rest = crlf_expanded(s, d, false, t + w);
    assert(e == seg + rep + rest);
    assert(e.len() == k + rep.len() + rest.len());
    // the segment reads back out of the expansion
    assert forall|j: int| 0 <= j < k implies e[j] == #[trigger] s[a + j] by {
        assert(e[j] == seg[j]);
    }
    assert(e[k] == rep[0]);
    assert(e[k] == cr());
    // parity agreement across the common segment
    assert forall|i: int| 0 <= i <= k implies #[trigger] pq(e, d.quotechar, q0, 0, i) == pq(
        s,
        d.quotechar,
        q0,
        a,
        a + i,
    ) by {
        lemma_pq_agree(e, s, d.quotechar, q0, 0, a, k, i);
    }
    // the rewritten terminator is the first structural terminator of
    // the expansion
    assert forall|j: int| 0 <= j < k implies !struct_term(e, d, q0, 0, j) by {
        assert(!struct_term(s, d, q0, a, a + j));
        assert(e[j] == s[a + j]);
    }
    assert(struct_term(e, d, q0, 0, k));
    lemma_term_from_exact(e, d, q0, 0, 0, k);
    // its width matches the bytes that follow
    if rep.len() == 2 {
        assert(e[k + 1] == rep[1]);
        assert(twidth(e, k) == 2);
    } else {
        // a kept bare CR: what follows is the next expansion, which
        // never opens with LF; here it cannot even start with an input
        // LF, because the bare CR had none after it
        assert(s[t] == cr() && w == 1);
        if k + 1 < e.len() {
            assert(e[k + 1] == rest[0]);
            lemma_expanded_first_byte(s, d, false, t + 1);
            if rest[0] == s[t + 1] {
                assert(s[t + 1] != lf());
            }
            assert(e[k + 1] != lf());
        }
        assert(twidth(e, k) == 1);
    }
    assert(twidth(e, k) == rep.len());
    // past the terminator, the expansion is exactly the expansion of
    // the rest of the input
    assert forall|j: int|
        0 <= j < rest.len() implies e[(k + rep.len()) + j] == #[trigger] rest[0 + j] by {
        assert(e[(k + rep.len()) + j] == rest[j]);
    }
    lemma_record_stream_suffix(e, rest, d, false, k + rep.len(), 0);
    lemma_crlf_stream_idempotence(s, d, false, t + w);
    if t == a {
        // a blank line on both sides: both scans skip their terminator
        assert(record_stream(s, d, q0, a) == record_stream(s, d, false, t + w));
        assert(record_stream(e, d, q0, 0) == record_stream(e, d, false, twidth(e, 0)));
    } else {
        // the same record is emitted on both sides
        assert_seqs_equal!(e.subrange(0, k) == s.subrange(a, t), x => {
            assert(e[x] == s[a + x]);
        });
        lemma_offs_agree_window(e, s, d, q0, 0, a, k, k);
        assert(record_offsets(e, d, q0, 0, 0, k) == record_offsets(s, d, q0, a, a, t));
        assert(record_stream(e, d, q0, 0) == seq![
            (e.subrange(0, k), record_offsets(e, d, q0, 0, 0, k)),
        ] + record_stream(e, d, false, k + rep.len()));
        assert(record_stream(s, d, q0, a) == seq![
            (s.subrange(a, t), record_offsets(s, d, q0, a, a, t)),
        ] + record_stream(s, d, false, t + w));
    }
}

/// Re-anchoring congruence: two scan configurations whose parity
/// functions agree from `b` on find the same first terminator.
proof fn lemma_term_from_cong(
    s: Seq<u8>,
    d: Dialect,
    q01: bool,
    a1: int,
    q02: bool,
    a2: int,
    b: int,
    i: int,
)
    requires
        a1 <= b,
        a2 <= b,
        b <= i <= s.len(),
        forall|x: int|
            b <= x <= s.len() ==> #[trigger] pq(s, d.quotechar, q01, a1, x) == pq(
                s,
                d.quotechar,
                q02,
                a2,
                x,
            ),
    ensures
        term_from(s, d, q01, a1, i) == term_from(s, d, q02, a2, i),
    decreases s.len() - i,
{
    if i < s.len() {
        assert(pq(s, d.quotechar, q01, a1, i) == pq(s, d.quotechar, q02, a2, i));
        if !struct_term(s, d, q01, a1, i) {
            lemma_term_from_cong(s, d, q01, a1, q02, a2, b, i + 1);
        }
    }
}

/// Re-anchoring congruence for blank-line skipping.
proof fn lemma_rec_start_cong(
    s: Seq<u8>,
    d: Dialect,
    q01: bool,
    a1: int,
    q02: bool,
    a2: int,
    b: int,
    i: int,
)
    requires
        a1 <= b,
        a2 <= b,
        b <= i <= s.len(),
        forall|x: int|
            b <= x <= s.len() ==> #[trigger] pq(s, d.quotechar, q01, a1, x) == pq(
                s,
                d.quotechar,
                q02,
                a2,
                x,
            ),
    ensures
        rec_start(s, d, q01, a1, i) == rec_start(s, d, q02, a2, i),
    decreases s.len() - i + 1,
{
    if i < s.len() {
        assert(pq(s, d.quotechar, q01, a1, i) == pq(s, d.quotechar, q02, a2, i));
        if struct_term(s, d, q01, a1, i) {
            lemma_rec_start_cong(s, d, q01, a1, q02, a2, b, i + twidth(s, i));
        }
    }
}

/// Re-anchoring congruence for the offset table.
proof fn lemma_offs_cong(
    s: Seq<u8>,
    d: Dialect,
    q01: bool,
    a1: int,
    q02: bool,
    a2: int,
    b: int,
    rs: int,
    i: int,
)
    requires
        a1 <= b,
        a2 <= b,
        b <= rs <= i <= s.len(),
        forall|x: int|
            b <= x <= s.len() ==> #[trigger] pq(s, d.quotechar, q01, a1, x) == pq(
                s,
                d.quotechar,
                q02,
                a2,
                x,
            ),
    ensures
        offs_upto(s, d, q01, a1, rs, i) == offs_upto(s, d, q02, a2, rs, i),
    decreases i - rs,
{
    if i > rs {
        lemma_offs_cong(s, d, q01, a1, q02, a2, b, rs, i - 1);
        assert(pq(s, d.quotechar, q01, a1, i - 1) == pq(s, d.quotechar, q02, a2, i - 1));
        assert(struct_delim(s, d, q01, a1, i - 1) == struct_delim(s, d, q02, a2, i - 1));
    }
}

/// `record_stream` is what repeated calls of the scanner yield: its
/// head is exactly the record that a single scan from `a` with state
/// `q0` emits — the bytes from `rec_start` to `term_from` with their
/// offset table, as in the contract of `Parser::read_line` — and its
/// tail is the stream that continues past the terminator with the
/// inside-quotes state cleared.
pub proof fn lemma_record_stream_head(s: Seq<u8>, d: Dialect, q0: bool, a: int)
    requires
        wf_dialect(d),
        0 <= a <= s.len(),
    ensures
        ({
            let rs = rec_start(s, d, q0, a, a);
            let t = term_from(s, d, q0, a, rs);
            let tail = if t < s.len() {
                record_stream(s, d, false, t + twidth(s, t))
            } else {
                Seq::<(Seq<u8>, Seq<int>)>::empty()
            };
            let head = seq![(s.subrange(rs, t), record_offsets(s, d, q0, a, rs, t))];
            &&& (rs >= s.len() ==> record_stream(s, d, q0, a) == Seq::<(
                Seq<u8>,
                Seq<int>,
            )>::empty())
            &&& (rs < s.len() ==> record_stream(s, d, q0, a) == head + tail)
        }),
    decreases s.len() - a + 1,
{
    if a >= s.len() {
        return ;
    }
    let t0 = term_from(s, d, q0, a, a);
    lemma_term_from_props(s, d, q0, a, a);
    if t0 >= s.len() {
        // no terminator at all: one final record, starting right at `a`
        assert(!struct_term(s, d, q0, a, a));
        assert(rec_start(s, d, q0, a, a) == a);
        assert(record_stream(s, d, q0, a) =~= seq![
            (s.subrange(a, s.len() as int), record_offsets(s, d, q0, a, a, s.len() as int)),
        ]);
    } else if t0 == a {
        // a blank line: the stream skips it, and so does `rec_start`
        let w = twidth(s, a);
        assert(!pq(s, d.quotechar, q0, a, a));
        assert forall|x: int|
            a + w <= x <= s.len() implies #[trigger] pq(s, d.quotechar, q0, a, x) == pq(
            s,
            d.quotechar,
            false,
            a + w,
            x,
        ) by {
            lemma_pq_compose(s, d.quotechar, q0, a, a + w, x);
            lemma_pq_no_quotes(s, d.quotechar, q0, a, a, a + w);
        }
        lemma_record_stream_head(s, d, false, a + w);
        lemma_rec_start_cong(s, d, q0, a, false, a + w, a + w, a + w);
        assert(rec_start(s, d, q0, a, a) == rec_start(s, d, q0, a, a + w));
        let rs = rec_start(s, d, false, a + w, a + w);
        lemma_rec_start_props_bounds(s, d, false, a + w, a + w);
        if rs < s.len() {
            lemma_term_from_cong(s, d, q0, a, false, a + w, a + w, rs);
            let t = term_from(s, d, false, a + w, rs);
            lemma_term_from_props(s, d, false, a + w, rs);
            lemma_offs_cong(s, d, q0, a, false, a + w, a + w, rs, t);
        }
    } else {
        // a record starts right at `a` and the stream emits it
        assert(!struct_term(s, d, q0, a, a));
        assert(rec_start(s, d, q0, a, a) == a);
    }
}

} // verus!
