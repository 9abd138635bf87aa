//! The record view: a flat byte buffer holding one record (terminator
//! stripped) and the offset table that carves it into fields. Field `i`
//! spans `bytes[offsets[i] .. offsets[i+1]]`, minus one trailing byte for
//! every field but the last — the offset table keeps each delimiter
//! inside the span that precedes it. Fields are raw: enclosing quotes and
//! doubled quote escapes are preserved, and `decoded` strips and
//! collapses them on demand.

use vstd::prelude::*;
use vstd::utf8::{decode_utf8, valid_utf8};

verus! {

/// Doubled quotes collapsed to single ones, scanning left to right.
pub open spec fn unescape(s: Seq<u8>, qt: u8) -> Seq<u8>
    decreases s.len(),
{
    if s.len() == 0 {
        Seq::empty()
    } else if s.len() >= 2 && s[0] == qt && s[1] == qt {
        seq![qt] + unescape(s.skip(2), qt)
    } else {
        seq![s[0]] + unescape(s.skip(1), qt)
    }
}

/// The caller-visible decoding of a raw field: when the field is
/// enclosed in quotes, the quotes go and doubled quotes inside collapse;
/// any other field is passed through untouched.
pub open spec fn decode_field(raw: Seq<u8>, qt: u8) -> Seq<u8> {
    if raw.len() > 1 && raw[0] == qt && raw[raw.len() - 1] == qt {
        unescape(raw.subrange(1, raw.len() - 1), qt)
    } else {
        raw
    }
}

/// Relies on String::from_utf8: it returns Ok exactly on valid UTF-8
/// input, and the resulting string decodes those bytes.
#[verifier::external_body]
pub(crate) fn bytes_to_string(v: &Vec<u8>) -> (r: Option<String>)
    ensures
        r is Some <==> valid_utf8(v@),
        r matches Some(s) ==> s@ == decode_utf8(v@),
{
    match String::from_utf8(v.clone()) {
        Ok(s) => Some(s),
        Err(_) => None,
    }
}

/// A copy of `v[from..to]`.
pub(crate) fn bytes_range(v: &Vec<u8>, from: usize, to: usize) -> (r: Vec<u8>)
    requires
        from <= to,
        to as int <= v@.len(),
    ensures
        r@ == v@.subrange(from as int, to as int),
{
    let mut out: Vec<u8> = Vec::new();
    let mut i: usize = from;
    while i < to
        invariant
            from <= i <= to,
            to as int <= v@.len(),
            out@.len() == i - from,
            forall|j: int| 0 <= j < i - from ==> out@[j] == v@[from + j],
        decreases to - i,
    {
        out.push(v[i]);
        i = i + 1;
    }
    proof {
        assert(out@ =~= v@.subrange(from as int, to as int));
    }
    out
}

/// Doubled quotes collapsed, executably.
pub(crate) fn unescape_bytes(v: &Vec<u8>, qt: u8) -> (r: Vec<u8>)
    ensures
        r@ == unescape(v@, qt),
{
    let mut out: Vec<u8> = Vec::new();
    let mut i: usize = 0;
    proof {
        assert(v@.skip(0) =~= v@);
        assert(out@ + unescape(v@, qt) =~= unescape(v@, qt));
    }
    while i < v.len()
        invariant
            i <= v@.len(),
            unescape(v@, qt) == out@ + unescape(v@.skip(i as int), qt),
        decreases v@.len() - i,
    {
        let ghost pre = out@;
        if v[i] == qt && i + 1 < v.len() && v[i + 1] == qt {
            out.push(qt);
            proof {
                assert(v@.skip(i as int).skip(2) =~= v@.skip(i as int + 2));
                assert(pre + unescape(v@.skip(i as int), qt) =~= out@ + unescape(
                    v@.skip(i as int + 2),
                    qt,
                ));
            }
            i = i + 2;
        } else {
            out.push(v[i]);
            proof {
                assert(v@.skip(i as int).skip(1) =~= v@.skip(i as int + 1));
                assert(pre + unescape(v@.skip(i as int), qt) =~= out@ + unescape(
                    v@.skip(i as int + 1),
                    qt,
                ));
            }
            i = i + 1;
        }
    }
    proof {
        assert(v@.skip(v@.len() as int) =~= Seq::<u8>::empty());
        assert(out@ + unescape(v@.skip(v@.len() as int), qt) =~= out@);
    }
    out
}

/// Byte-for-byte equality of two byte vectors.
pub(crate) fn bytes_equal(a: &Vec<u8>, b: &Vec<u8>) -> (r: bool)
    ensures
        r == (a@ == b@),
{
    if a.len() != b.len() {
        proof {
            assert(a@.len() != b@.len());
        }
        return false;
    }
    let mut i: usize = 0;
    while i < a.len()
        invariant
            a@.len() == b@.len(),
            i <= a@.len(),
            forall|j: int| 0 <= j < i as int ==> a@[j] == b@[j],
        decreases a@.len() - i,
    {
        if a[i] != b[i] {
            return false;
        }
        i = i + 1;
    }
    proof {
        assert(a@ =~= b@);
    }
    true
}

/// One record: owned bytes, the offset table, and the quote byte of the
/// dialect the record was scanned with (used by the decoding
/// accessors).
pub struct Record {
    data: Vec<u8>,
    offsets: Vec<usize>,
    quote: u8,
}

impl Record {
    /// The record's raw bytes, terminator excluded.
    pub closed spec fn bytes(&self) -> Seq<u8> {
        self.data@
    }

    /// Entry `j` of the offset table.
    pub closed spec fn off(&self, j: int) -> int {
        self.offsets@[j] as int
    }

    /// Number of entries in the offset table (one more than the number
    /// of fields).
    pub closed spec fn num_offsets(&self) -> int {
        self.offsets@.len() as int
    }

    /// Number of fields.
    pub open spec fn num_fields(&self) -> int {
        self.num_offsets() - 1
    }

    /// The quote byte the decoding accessors strip and collapse.
    pub closed spec fn quote_byte(&self) -> u8 {
        self.quote
    }

    /// Offset-table well-formedness: it opens at 0, strictly increases
    /// while delimiters are pending, and closes exactly at the record
    /// length.
    pub closed spec fn wf(&self) -> bool {
        &&& self.offsets@.len() >= 2
        &&& self.offsets@[0] == 0
        &&& forall|j: int|
            0 <= j < self.offsets@.len() - 2 ==> (#[trigger] self.offsets@[j] as int)
                < self.offsets@[j + 1] as int
        &&& self.offsets@[self.offsets@.len() - 2] as int <= self.offsets@[self.offsets@.len()
            - 1] as int
        &&& self.offsets@[self.offsets@.len() - 1] as int == self.data@.len()
    }

    /// The raw bytes of field `i`: its span in the offset table, minus
    /// the trailing delimiter kept inline for every field but the
    /// last.
    pub open spec fn field_spec(&self, i: int) -> Seq<u8> {
        self.bytes().subrange(
            self.off(i),
            self.off(i + 1) - (if i + 1 < self.num_fields() {
                1int
            } else {
                0int
            }),
        )
    }

    pub fn new(data: Vec<u8>, offsets: Vec<usize>, quote: u8) -> (r: Record)
        requires
            offsets@.len() >= 2,
            offsets@[0] == 0,
            forall|j: int|
                0 <= j < offsets@.len() - 2 ==> (#[trigger] offsets@[j] as int) < offsets@[j
                    + 1] as int,
            offsets@[offsets@.len() - 2] as int <= offsets@[offsets@.len() - 1] as int,
            offsets@[offsets@.len() - 1] as int == data@.len(),
        ensures
            r.wf(),
            r.bytes() == data@,
            r.num_offsets() == offsets@.len(),
            forall|j: int| 0 <= j < offsets@.len() ==> r.off(j) == #[trigger] offsets@[j] as int,
            r.quote_byte() == quote,
    {
        Record { data, offsets, quote }
    }

    /// The number of fields.
    pub fn len(&self) -> (r: usize)
        requires
            self.wf(),
        ensures
            r as int == self.num_fields(),
    {
        self.offsets.len() - 1
    }

    /// The raw bytes of field `i`, enclosing quotes and escapes
    /// preserved.
    pub fn field(&self, i: usize) -> (r: Vec<u8>)
        requires
            self.wf(),
            (i as int) < self.num_fields(),
        ensures
            r@ == self.field_spec(i as int),
    {
        proof {
            self.lemma_off_monotonic(i as int + 1, self.num_offsets() - 1);
            assert(self.off(i as int) <= self.off(i as int + 1));
            assert(self.off(i as int + 1) <= self.bytes().len());
        }
        let noff = self.offsets.len();
        let start = self.offsets[i];
        let mut end = self.offsets[i + 1];
        if i + 2 < noff {
            end = end - 1;
        }
        bytes_range(&self.data, start, end)
    }

    /// The decoded content of field `i`: outer quotes stripped and
    /// doubled quotes collapsed when the field is quoted, then read as
    /// UTF-8. `None` reports invalid UTF-8.
    pub fn decoded(&self, i: usize) -> (r: Option<String>)
        requires
            self.wf(),
            (i as int) < self.num_fields(),
        ensures
            r is Some <==> valid_utf8(decode_field(self.field_spec(i as int), self.quote_byte())),
            r matches Some(s) ==> s@ == decode_utf8(
                decode_field(self.field_spec(i as int), self.quote_byte()),
            ),
    {
        let f = self.field(i);
        if f.len() > 1 && f[0] == self.quote && f[f.len() - 1] == self.quote {
            let inner = bytes_range(&f, 1, f.len() - 1);
            let collapsed = unescape_bytes(&inner, self.quote);
            bytes_to_string(&collapsed)
        } else {
            bytes_to_string(&f)
        }
    }

    /// Equality against an ordered sequence of reference byte-strings:
    /// same field count, and every raw field — enclosing quotes and
    /// escapes intact — byte-for-byte equal to its reference.
    pub fn eq_fields(&self, expected: &Vec<Vec<u8>>) -> (r: bool)
        requires
            self.wf(),
        ensures
            r == (self.num_fields() == expected@.len() && (forall|i: int|
                0 <= i < self.num_fields() ==> #[trigger] self.field_spec(i) == expected@[i]@)),
    {
        let k = self.len();
        if k != expected.len() {
            return false;
        }
        let mut i: usize = 0;
        while i < k
            invariant
                self.wf(),
                k as int == self.num_fields(),
                k as int == expected@.len(),
                i <= k,
                forall|j: int| 0 <= j < i as int ==> #[trigger] self.field_spec(j) == expected@[j]@,
            decreases k - i,
        {
            let f = self.field(i);
            if !bytes_equal(&f, &expected[i]) {
                return false;
            }
            i = i + 1;
        }
        true
    }

    /// Whether the decoded fields are exactly the given strings, in
    /// order: same field count, every field valid UTF-8 after
    /// decoding, and character-for-character equal.
    pub fn eq_decoded_fields(&self, expected: &Vec<String>) -> (r: bool)
        requires
            self.wf(),
        ensures
            r == (self.num_fields() == expected@.len() && (forall|i: int|
                0 <= i < self.num_fields() ==> valid_utf8(
                    decode_field(#[trigger] self.field_spec(i), self.quote_byte()),
                ) && decode_utf8(decode_field(self.field_spec(i), self.quote_byte()))
                    == expected@[i]@)),
    {
        let k = self.len();
        if k != expected.len() {
            return false;
        }
        let mut i: usize = 0;
        while i < k
            invariant
                self.wf(),
                k as int == self.num_fields(),
                k as int == expected@.len(),
                i <= k,
                forall|j: int|
                    0 <= j < i as int ==> valid_utf8(
                        decode_field(#[trigger] self.field_spec(j), self.quote_byte()),
                    ) && decode_utf8(decode_field(self.field_spec(j), self.quote_byte()))
                        == expected@[j]@,
            decreases k - i,
        {
            match self.decoded(i) {
                None => {
                    return false;
                },
                Some(s) => {
                    if !s.eq(&expected[i]) {
                        return false;
                    }
                },
            }
            i = i + 1;
        }
        true
    }

    /// The first `k` fields rendered for human inspection: each between
    /// quote characters, comma-separated. Not a CSV re-serialization.
    pub open spec fn rendered_upto(&self, k: int) -> Seq<u8>
        decreases k,
    {
        if k <= 0 {
            Seq::empty()
        } else {
            self.rendered_upto(k - 1) + (if k == 1 {
                Seq::<u8>::empty()
            } else {
                seq![44u8, 32u8]
            }) + seq![34u8] + self.field_spec(k - 1) + seq![34u8]
        }
    }

    /// The whole record rendered for human inspection, as a string;
    /// `None` reports invalid UTF-8 in some field.
    pub fn render(&self) -> (r: Option<String>)
        requires
            self.wf(),
        ensures
            r is Some <==> valid_utf8(self.rendered_upto(self.num_fields())),
            r matches Some(s) ==> s@ == decode_utf8(self.rendered_upto(self.num_fields())),
    {
        let k = self.len();
        let mut out: Vec<u8> = Vec::new();
        let mut i: usize = 0;
        proof {
            assert(out@ =~= self.rendered_upto(0));
        }
        while i < k
            invariant
                self.wf(),
                k as int == self.num_fields(),
                i <= k,
                out@ == self.rendered_upto(i as int),
            decreases k - i,
        {
            if i != 0 {
                out.push(44u8);
                out.push(32u8);
            }
            out.push(34u8);
            let f = self.field(i);
            let ghost mid = out@;
            let mut j: usize = 0;
            while j < f.len()
                invariant
                    j <= f@.len(),
                    out@ == mid + f@.subrange(0, j as int),
                decreases f@.len() - j,
            {
                proof {
                    assert((mid + f@.subrange(0, j as int)).push(f@[j as int]) =~= mid
                        + f@.subrange(0, j as int + 1));
                }
                out.push(f[j]);
                j = j + 1;
            }
            out.push(34u8);
            proof {
                assert(f@.subrange(0, f@.len() as int) =~= f@);
                assert(out@ =~= self.rendered_upto(i as int + 1));
            }
            i = i + 1;
        }
        bytes_to_string(&out)
    }

    /// An iterator over the raw field byte slices, in order.
    pub fn iter(&self) -> (it: RecordIterator<'_>)
        requires
            self.wf(),
        ensures
            it.target() == *self,
            it.cur() == 0,
    {
        RecordIterator::new(self)
    }

    /// Offsets are monotone between any two entries.
    proof fn lemma_off_monotonic(&self, j: int, k: int)
        requires
            self.wf(),
            0 <= j <= k < self.num_offsets(),
        ensures
            self.off(j) <= self.off(k),
        decreases k - j,
    {
        if j < k {
            self.lemma_off_monotonic(j + 1, k);
        }
    }
}

/// Forward iteration state over a record's fields.
pub struct RecordIterator<'a> {
    record: &'a Record,
    current_field: usize,
}

impl<'a> RecordIterator<'a> {
    /// The record being iterated.
    pub closed spec fn target(&self) -> Record {
        *self.record
    }

    /// Index of the next field to yield.
    pub closed spec fn cur(&self) -> int {
        self.current_field as int
    }

    pub fn new(record: &'a Record) -> (it: RecordIterator<'a>)
        ensures
            it.target() == *record,
            it.cur() == 0,
    {
        RecordIterator { record, current_field: 0 }
    }

    /// The next raw field, or `None` once all fields have been
    /// yielded.
    pub fn next(&mut self) -> (r: Option<Vec<u8>>)
        requires
            old(self).target().wf(),
            old(self).cur() >= 0,
        ensures
            final(self).target() == old(self).target(),
            old(self).cur() < old(self).target().num_fields() ==> final(self).cur() == old(
                self,
            ).cur() + 1 && (r matches Some(v) && v@ == old(self).target().field_spec(
                old(self).cur(),
            )),
            old(self).cur() >= old(self).target().num_fields() ==> r is None && final(self).cur()
                == old(self).cur(),
    {
        if self.current_field >= self.record.len() {
            return None;
        }
        let f = self.record.field(self.current_field);
        self.current_field = self.current_field + 1;
        Some(f)
    }
}

} // verus!
