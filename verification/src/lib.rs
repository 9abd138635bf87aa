//! A CSV scanner in the style of RFC 4180, built around a branch-sparse
//! structural kernel: input is examined in 64-byte chunks, each chunk is
//! classified into 64-bit masks of structurally significant bytes
//! (delimiter, quote, carriage return, line feed), and a prefix-parity
//! quote mask separates field separators inside quoted regions from real
//! ones. Records come out as a flat byte buffer plus a monotonically
//! increasing field-offset table.
//!
//! The scanner commits to the following dialect decisions, which callers
//! should rely on:
//! - LF, bare CR, and CRLF all terminate a record; CRLF is consumed as a
//!   single two-byte terminator, also when it straddles a chunk boundary.
//! - Blank lines (a terminator with no record bytes accumulated) are
//!   skipped, never surfaced as empty records.
//! - A quote run left open at end of input is ordinary field content
//!   under a lenient dialect (the final record is synthesized from
//!   whatever accumulated); a strict dialect refuses it with
//!   [`ScanError::UnterminatedQuote`].
//! - Fields are returned raw, with enclosing quotes and doubled quote
//!   escapes intact; decoding accessors strip and collapse them on demand.

use vstd::prelude::*;

pub mod aligned_buffer;
pub mod kernel;
pub mod laws;
pub mod record;
pub mod scan;

use crate::aligned_buffer::AlignedBuffer;
use crate::kernel::{
    bit64, bits_parity, eq_mask, first_bit, lemma_all_ones_bits, lemma_bit64_and, lemma_bit64_not,
    lemma_bit64_or, low_mask_64, prefix_region,
};
use crate::record::{bytes_range, bytes_to_string, decode_field, unescape, unescape_bytes, Record};
use vstd::utf8::{decode_utf8, valid_utf8};
use crate::scan::{
    cr, is_term_byte, lemma_pq_agree, lemma_pq_compose, lemma_pq_no_quotes,
    lemma_pq_xor, lemma_record_offsets_shape, lemma_term_from_exact, lf, offs_upto, pq, rec_start,
    record_offsets, struct_delim, struct_term, term_from, twidth,
};

verus! {

/// Immutable per-parser configuration: the structural bytes and the
/// strictness switches reserved for post-scan policy.
#[derive(Clone, Copy)]
pub struct Dialect {
    pub delimiter: u8,
    pub quotechar: u8,
    pub skipinitialspace: bool,
    pub strict: bool,
}

/// A dialect is scannable when its four structural byte classes are
/// pairwise distinct: the delimiter and the quote must differ from each
/// other and from the two line-terminator bytes.
pub open spec fn wf_dialect(d: Dialect) -> bool {
    &&& d.delimiter != d.quotechar
    &&& d.delimiter != 10u8
    &&& d.delimiter != 13u8
    &&& d.quotechar != 10u8
    &&& d.quotechar != 13u8
}

/// The conventional dialect: comma-delimited, double-quoted, lenient.
pub fn default_dialect() -> (d: Dialect)
    ensures
        d.delimiter == 44u8,
        d.quotechar == 34u8,
        !d.skipinitialspace,
        !d.strict,
        wf_dialect(d),
{
    Dialect { delimiter: 44u8, quotechar: 34u8, skipinitialspace: false, strict: false }
}

/// Errors the scanner itself can raise. Read failures belong to the
/// caller that drains the input source, and the whole input is resident,
/// so no record can outgrow a buffer; what remains is the strict-mode
/// complaint about a quote run still open when the input ends.
#[derive(Clone, Copy, Debug, PartialEq, Eq, Structural)]
pub enum ScanError {
    UnterminatedQuote,
}

/// Capacity of a field scratch buffer; a single field longer than this
/// cannot be materialized eagerly.
pub const MAX_FIELD_SIZE: usize = 131072;

/// A scratch area holding the bytes of one field, for callers that
/// materialize decoded fields eagerly instead of borrowing record
/// views. The window `[start_offset, end_offset)` is the current field
/// content; stripping outer quotes narrows the window.
pub struct FieldBuffer {
    buf: Vec<u8>,
    end_offset: usize,
    start_offset: usize,
    dialect: Dialect,
}

impl FieldBuffer {
    /// The bytes currently held.
    pub closed spec fn contents(&self) -> Seq<u8> {
        self.buf@.subrange(self.start_offset as int, self.end_offset as int)
    }

    /// The dialect the buffer decodes with.
    pub closed spec fn dia(&self) -> Dialect {
        self.dialect
    }

    /// The window is well-placed and within capacity.
    pub closed spec fn wf(&self) -> bool {
        &&& self.start_offset <= self.end_offset
        &&& self.end_offset == self.buf@.len()
        &&& self.end_offset <= MAX_FIELD_SIZE
    }

    pub fn new(dialect: Dialect) -> (fb: FieldBuffer)
        ensures
            fb.wf(),
            fb.contents() == Seq::<u8>::empty(),
            fb.dia() == dialect,
    {
        let fb = FieldBuffer { buf: Vec::new(), end_offset: 0, start_offset: 0, dialect };
        proof {
            assert(fb.contents() =~= Seq::<u8>::empty());
        }
        fb
    }

    /// Empties the window so the next field can accumulate.
    pub fn clear(&mut self)
        ensures
            final(self).wf(),
            final(self).contents() == Seq::<u8>::empty(),
            final(self).dia() == old(self).dia(),
    {
        self.buf = Vec::new();
        self.end_offset = 0;
        self.start_offset = 0;
        proof {
            assert(self.contents() =~= Seq::<u8>::empty());
        }
    }

    /// Where the window starts; 0 until outer quotes are stripped.
    pub closed spec fn start_offset(&self) -> int {
        self.start_offset as int
    }

    /// Appends `n_bytes` bytes of `data` to the field; the caller keeps
    /// the field within capacity.
    pub fn append(&mut self, data: &[u8], n_bytes: usize)
        requires
            old(self).wf(),
            data@.len() == n_bytes,
            old(self).start_offset() + old(self).contents().len() + n_bytes < MAX_FIELD_SIZE,
        ensures
            final(self).wf(),
            final(self).contents() == old(self).contents() + data@,
            final(self).dia() == old(self).dia(),
            final(self).start_offset() == old(self).start_offset(),
    {
        let mut i: usize = 0;
        while i < n_bytes
            invariant
                self.start_offset == old(self).start_offset,
                self.end_offset == self.buf@.len(),
                self.end_offset <= MAX_FIELD_SIZE,
                i <= n_bytes,
                data@.len() == n_bytes,
                old(self).wf(),
                old(self).start_offset() + old(self).contents().len() + n_bytes < MAX_FIELD_SIZE,
                self.buf@ == old(self).buf@ + data@.subrange(0, i as int),
                self.dialect == old(self).dialect,
            decreases n_bytes - i,
        {
            self.buf.push(data[i]);
            self.end_offset = self.end_offset + 1;
            proof {
                assert(self.buf@ =~= old(self).buf@ + data@.subrange(0, i as int + 1));
            }
            i = i + 1;
        }
        proof {
            assert(data@.subrange(0, n_bytes as int) =~= data@);
            assert(self.contents() =~= old(self).contents() + data@);
        }
    }

    /// Doubled quote characters collapsed to single ones.
    fn escape_quotes(&self, data: &Vec<u8>) -> (r: Vec<u8>)
        ensures
            r@ == unescape(data@, self.dia().quotechar),
    {
        unescape_bytes(data, self.dialect.quotechar)
    }

    /// The field bytes read as UTF-8; `None` reports invalid UTF-8.
    pub fn to_string(&self) -> (r: Option<String>)
        requires
            self.wf(),
        ensures
            r is Some <==> valid_utf8(self.contents()),
            r matches Some(s) ==> s@ == decode_utf8(self.contents()),
    {
        let raw = bytes_range(&self.buf, self.start_offset, self.end_offset);
        bytes_to_string(&raw)
    }

    /// The field decoded as a CSV field: when it is enclosed in quote
    /// characters the quotes are stripped (narrowing the window) and
    /// doubled quotes collapse; then the bytes are read as UTF-8.
    pub fn to_escaped_string(&mut self) -> (r: Option<String>)
        requires
            old(self).wf(),
        ensures
            final(self).wf(),
            final(self).dia() == old(self).dia(),
            final(self).contents() == (if old(self).contents().len() > 1 && old(
                self,
            ).contents()[0] == old(self).dia().quotechar && old(self).contents().last() == old(
                self,
            ).dia().quotechar {
                old(self).contents().subrange(1, old(self).contents().len() - 1)
            } else {
                old(self).contents()
            }),
            r is Some <==> valid_utf8(decode_field(old(self).contents(), old(self).dia().quotechar)),
            r matches Some(s) ==> s@ == decode_utf8(
                decode_field(old(self).contents(), old(self).dia().quotechar),
            ),
    {
        let len = self.end_offset - self.start_offset;
        if len > 1 && self.buf[self.start_offset] == self.dialect.quotechar && self.buf[self.end_offset
            - 1] == self.dialect.quotechar {
            self.start_offset = self.start_offset + 1;
            self.end_offset = self.end_offset - 1;
            self.buf.pop();
            let inner = bytes_range(&self.buf, self.start_offset, self.end_offset);
            proof {
                assert(inner@ =~= old(self).contents().subrange(
                    1,
                    old(self).contents().len() - 1,
                ));
            }
            let collapsed = self.escape_quotes(&inner);
            bytes_to_string(&collapsed)
        } else {
            self.to_string()
        }
    }
}

/// The parity of the low `k` bits of an equality mask is the quote
/// parity of the corresponding byte prefix.
proof fn lemma_bits_parity_matches(q: u64, cs: Seq<u8>, b: u8, k: int)
    requires
        cs.len() == 64,
        0 <= k <= 64,
        forall|j: u64| j < 64 ==> (#[trigger] bit64(q, j) == (cs[j as int] == b)),
    ensures
        bits_parity(q, k) == pq(cs, b, false, 0, k),
    decreases k,
{
    if k > 0 {
        lemma_bits_parity_matches(q, cs, b, k - 1);
        assert(bit64(q, (k - 1) as u64) == (cs[k - 1] == b));
    }
}

/// A power of two together with all bits below it fills positions
/// `0..=y`.
proof fn lemma_single_bit_fill(ml: u64, y: u64, j: u64)
    requires
        y < 64,
        j < 64,
        ml == 1u64 << y,
    ensures
        bit64(ml | ((ml - 1) as u64), j) == (j <= y),
{
    assert((((1u64 << y) | ((((1u64 << y) - 1)) as u64)) >> j) & 1u64 == 1u64 <==> j <= y)
        by (bit_vector)
        requires
            y < 64 && j < 64,
    ;
}

/// The streaming parser: a dialect, the inside-quotes bit threaded
/// across chunk boundaries, and the chunked buffer over the input
/// bytes.
pub struct Parser {
    pub dialect: Dialect,
    pub inside_quotes: bool,
    pub buffer: AlignedBuffer,
}

impl Parser {
    /// All parser invariants: a scannable dialect over a well-formed
    /// buffer.
    pub open spec fn wf(&self) -> bool {
        &&& wf_dialect(self.dialect)
        &&& self.buffer.wf()
    }

    pub fn new(dialect: Dialect, input: Vec<u8>) -> (p: Parser)
        requires
            wf_dialect(dialect),
        ensures
            p.wf(),
            p.dialect == dialect,
            !p.inside_quotes,
            p.buffer.data() == input@,
            p.buffer.pos() == 0,
    {
        Parser { dialect, inside_quotes: false, buffer: AlignedBuffer::new(input) }
    }

    /// Mask with a set bit for every valid byte position of a chunk:
    /// classifier candidates at or past position `valid_bytes` are
    /// cleared with it.
    pub fn mask_invalid_bytes(&self, valid_bytes: usize) -> (m: u64)
        requires
            1 <= valid_bytes,
        ensures
            forall|j: u64| j < 64 ==> (#[trigger] bit64(m, j) == ((j as int) < valid_bytes as int)),
    {
        if valid_bytes >= 64 {
            proof {
                assert forall|j: u64| j < 64 implies #[trigger] bit64(
                    0xffff_ffff_ffff_ffffu64,
                    j,
                ) == ((j as int) < valid_bytes as int) by {
                    lemma_all_ones_bits(j);
                }
            }
            return 0xffff_ffff_ffff_ffffu64;
        }
        let y: u64 = (valid_bytes - 1) as u64;
        let ml: u64 = 1u64 << y;
        proof {
            assert((1u64 << y) >= 1 && !(1u64 << y) <= 0xffff_ffff_ffff_fffeu64 && ((1u64 << y) & (
            !(1u64 << y) + 1) as u64) == (1u64 << y)) by (bit_vector)
                requires
                    y < 64,
            ;
        }
        let mask: u64 = ml & (!ml + 1);
        let m: u64 = mask | (mask - 1);
        proof {
            assert forall|j: u64| j < 64 implies #[trigger] bit64(m, j) == ((j as int)
                < valid_bytes as int) by {
                lemma_single_bit_fill(ml, y, j);
            }
        }
        m
    }

    /// The structural classifier. Given a 64-byte chunk whose first
    /// `valid_bytes` bytes are meaningful and the incoming
    /// inside-quotes state, it returns
    /// - the mask of structural delimiters, clipped to the valid bytes
    ///   before the first structural terminator,
    /// - the position of the first structural terminator among the
    ///   valid bytes, or 64 when there is none,
    /// - the terminator width (2 for CRLF visible within the valid
    ///   bytes, 1 otherwise), and
    /// - the quote parity of the bytes before the terminator, with
    ///   which the caller updates the inside-quotes state.
    pub fn chunk_delimiter_offsets(&self, chunk: &[u8], valid_bytes: usize) -> (r: (
        u64,
        usize,
        usize,
        bool,
    ))
        requires
            chunk@.len() == 64,
            1 <= valid_bytes <= 64,
            wf_dialect(self.dialect),
        ensures
            ({
                let cs = chunk@;
                let qt = self.dialect.quotechar;
                let dl = self.dialect.delimiter;
                let q0 = self.inside_quotes;
                let ft = r.1 as int;
                let e = if ft < valid_bytes as int {
                    ft
                } else {
                    valid_bytes as int
                };
                &&& (r.1 < valid_bytes || r.1 == 64)
                &&& ft < valid_bytes as int ==> is_term_byte(cs[ft]) && !pq(cs, qt, q0, 0, ft)
                &&& forall|j: int| 0 <= j < e ==> !(is_term_byte(cs[j]) && !pq(cs, qt, q0, 0, j))
                &&& forall|p: u64|
                    p < 64 ==> (#[trigger] bit64(r.0, p) == ((p as int) < e && cs[p as int] == dl
                        && !pq(cs, qt, q0, 0, p as int)))
                &&& ft < valid_bytes as int ==> r.2 as int == (if cs[ft] == cr() && ft + 1
                    < valid_bytes as int && cs[ft + 1] == lf() {
                    2int
                } else {
                    1int
                })
                &&& 1 <= r.2 <= 2
                &&& r.3 == pq(cs, qt, false, 0, e)
            }),
    {
        let ghost cs = chunk@;
        let ghost qt = self.dialect.quotechar;
        let ghost dl = self.dialect.delimiter;
        let ghost q0 = self.inside_quotes;
        let d = eq_mask(chunk, self.dialect.delimiter);
        let q = eq_mask(chunk, self.dialect.quotechar);
        let nl = eq_mask(chunk, 10u8);
        let crm = eq_mask(chunk, 13u8);
        let region = prefix_region(q, self.inside_quotes);
        proof {
            assert forall|p: u64| p < 64 implies #[trigger] bit64(region, p) == pq(
                cs,
                qt,
                q0,
                0,
                p as int + 1,
            ) by {
                lemma_bits_parity_matches(q, cs, qt, p as int + 1);
                lemma_pq_xor(cs, qt, q0, 0, p as int + 1);
            }
        }
        let valid = self.mask_invalid_bytes(valid_bytes);
        let terms = (nl | crm) & !region & valid;
        proof {
            assert forall|p: u64| p < 64 implies #[trigger] bit64(terms, p) == ((p as int)
                < valid_bytes as int && is_term_byte(cs[p as int]) && !pq(
                cs,
                qt,
                q0,
                0,
                p as int,
            )) by {
                lemma_bit64_or(nl, crm, p);
                lemma_bit64_not(region, p);
                lemma_bit64_and(nl | crm, !region, p);
                lemma_bit64_and((nl | crm) & !region, valid, p);
                if is_term_byte(cs[p as int]) {
                    assert(cs[p as int] != qt);
                    assert(pq(cs, qt, q0, 0, p as int + 1) == pq(cs, qt, q0, 0, p as int));
                }
            }
        }
        let ft = first_bit(terms);
        let e = if ft < valid_bytes {
            ft
        } else {
            valid_bytes
        };
        proof {
            assert forall|j: int| 0 <= j < e as int implies !(is_term_byte(cs[j]) && !pq(
                cs,
                qt,
                q0,
                0,
                j,
            )) by {
                assert(!bit64(terms, j as u64));
            }
        }
        let clip = low_mask_64(e);
        let dmask = d & !region & clip;
        proof {
            assert forall|p: u64| p < 64 implies #[trigger] bit64(dmask, p) == ((p as int)
                < e as int && cs[p as int] == dl && !pq(cs, qt, q0, 0, p as int)) by {
                lemma_bit64_not(region, p);
                lemma_bit64_and(d, !region, p);
                lemma_bit64_and(d & !region, clip, p);
                if cs[p as int] == dl {
                    assert(cs[p as int] != qt);
                    assert(pq(cs, qt, q0, 0, p as int + 1) == pq(cs, qt, q0, 0, p as int));
                }
            }
        }
        let qpar = if e == 0 {
            false
        } else {
            let inside_at_end = (region >> ((e - 1) as u64)) & 1u64 == 1u64;
            proof {
                assert(bit64(region, (e - 1) as u64) == pq(cs, qt, q0, 0, e as int));
                lemma_pq_xor(cs, qt, q0, 0, e as int);
            }
            inside_at_end != self.inside_quotes
        };
        let width: usize = if ft < valid_bytes {
            if chunk[ft] == 13u8 && ft + 1 < valid_bytes && chunk[ft + 1] == 10u8 {
                2
            } else {
                1
            }
        } else {
            1
        };
        (dmask, ft, width, qpar)
    }

    /// The next record (`Ok(Some)`), end of stream (`Ok(None)`), or a
    /// strict-mode error. The record's bytes are the input from the
    /// record start to its terminator (exclusive); the offset table is
    /// the accumulated structural delimiter table closed with the
    /// record length; blank lines are skipped; the inside-quotes state
    /// afterwards is the quote parity of everything consumed so far. A
    /// strict dialect refuses a quote run still open when the input
    /// ends — exactly when the scan runs to the end of input with the
    /// inside-quotes state set — where a lenient one returns the run as
    /// ordinary field content.
    #[verifier::loop_isolation(false)]
    #[verifier::rlimit(100)]
    pub fn read_line(&mut self) -> (r: Result<Option<Record>, ScanError>)
        requires
            old(self).wf(),
        ensures
            final(self).wf(),
            final(self).dialect == old(self).dialect,
            final(self).buffer.data() == old(self).buffer.data(),
            ({
                let s = old(self).buffer.data();
                let dia = old(self).dialect;
                let qt = dia.quotechar;
                let q0 = old(self).inside_quotes;
                let a0 = old(self).buffer.pos();
                let rstart = rec_start(s, dia, q0, a0, a0);
                let t = term_from(s, dia, q0, a0, rstart);
                let errc = dia.strict && t == s.len() && pq(s, qt, q0, a0, s.len() as int);
                &&& final(self).inside_quotes == pq(s, qt, q0, a0, final(self).buffer.pos())
                &&& (r is Err <==> errc)
                &&& (match r {
                    Err(e) => e == ScanError::UnterminatedQuote && final(self).buffer.pos()
                        == s.len(),
                    Ok(o) => {
                        &&& (o is Some <==> rstart < s.len())
                        &&& (o is None ==> final(self).buffer.pos() == s.len())
                        &&& (match o {
                            Some(rec) => {
                                &&& rec.wf()
                                &&& rec.num_fields() >= 1
                                &&& rec.bytes() == s.subrange(rstart, t)
                                &&& rec.quote_byte() == qt
                                &&& rec.num_offsets() == record_offsets(
                                    s,
                                    dia,
                                    q0,
                                    a0,
                                    rstart,
                                    t,
                                ).len()
                                &&& (forall|j: int|
                                    0 <= j < rec.num_offsets() ==> #[trigger] rec.off(j)
                                        == record_offsets(s, dia, q0, a0, rstart, t)[j])
                                &&& rec.off(0) == 0
                                &&& (forall|j: int|
                                    0 < j < rec.num_offsets() ==> #[trigger] rec.off(j - 1)
                                        <= rec.off(j))
                                &&& rec.off(rec.num_offsets() - 1) == rec.bytes().len()
                                &&& final(self).buffer.pos() == (if t < s.len() {
                                    t + twidth(s, t)
                                } else {
                                    t
                                })
                            },
                            None => true,
                        })
                    },
                })
            }),
    {
        let ghost s = old(self).buffer.data();
        let ghost dia = old(self).dialect;
        let ghost qt = dia.quotechar;
        let ghost q0a = old(self).inside_quotes;
        let ghost a0 = old(self).buffer.pos();
        proof {
            self.buffer.lemma_len_bound();
        }
        let mut offsets: Vec<usize> = Vec::new();
        offsets.push(0);
        let mut rs: usize = self.buffer.position();
        loop
            invariant
                self.wf(),
                self.dialect == dia,
                self.inside_quotes == pq(s, qt, q0a, a0, self.buffer.pos()),
                self.buffer.data() == s,
                a0 <= rs as int <= self.buffer.pos() <= s.len(),
                rec_start(s, dia, q0a, a0, a0) == rec_start(s, dia, q0a, a0, rs as int),
                forall|j: int| rs as int <= j < self.buffer.pos() ==> !struct_term(s, dia, q0a, a0, j),
                offsets@.len() == offs_upto(s, dia, q0a, a0, rs as int, self.buffer.pos()).len(),
                forall|j: int|
                    0 <= j < offsets@.len() ==> #[trigger] offsets@[j] as int == offs_upto(
                        s,
                        dia,
                        q0a,
                        a0,
                        rs as int,
                        self.buffer.pos(),
                    )[j],
            decreases s.len() - self.buffer.pos(),
        {
            let pos = self.buffer.position();
            let (chunk, n) = self.buffer.get_chunk();
            if n == 0 {
                // end of the valid region: the scan ran out of input, so
                // close out, report end of stream, or — under a strict
                // dialect with a quote run still open — refuse
                proof {
                    if pos > rs {
                        assert(!struct_term(s, dia, q0a, a0, rs as int));
                        assert(rec_start(s, dia, q0a, a0, rs as int) == rs as int);
                        lemma_term_from_exact(s, dia, q0a, a0, rs as int, s.len() as int);
                    }
                }
                if self.dialect.strict && self.inside_quotes {
                    return Err(ScanError::UnterminatedQuote);
                }
                if pos == rs {
                    return Ok(None);
                }
                let ghost t_abs = s.len() as int;
                let ghost ro = record_offsets(s, dia, q0a, a0, rs as int, t_abs);
                proof {
                    assert(self.buffer.pos() == s.len());
                    assert(!struct_term(s, dia, q0a, a0, rs as int));
                    assert(rec_start(s, dia, q0a, a0, rs as int) == rs as int);
                    lemma_term_from_exact(s, dia, q0a, a0, rs as int, t_abs);
                    lemma_record_offsets_shape(s, dia, q0a, a0, rs as int, t_abs);
                }
                offsets.push(pos - rs);
                proof {
                    assert(offsets@.len() == ro.len());
                    assert forall|j: int|
                        0 <= j < offsets@.len() implies (#[trigger] offsets@[j] as int) == ro[j] by {}
                    assert forall|j: int| 0 <= j < offsets@.len() - 2 implies (
                    #[trigger] offsets@[j] as int) < offsets@[j + 1] as int by {
                        assert(ro[j] < ro[j + 1]);
                    }
                    assert(offsets@[offsets@.len() - 2] as int <= offsets@[offsets@.len()
                        - 1] as int);
                    assert(offsets@[offsets@.len() - 1] as int == t_abs - rs as int);
                }
                let data = self.buffer.line_slice(rs, pos);
                let rec = Record::new(data, offsets, self.dialect.quotechar);
                proof {
                    assert forall|j: int| 0 <= j < rec.num_offsets() implies #[trigger] rec.off(j)
                        == ro[j] by {
                        assert(rec.off(j) == offsets@[j] as int);
                    }
                }
                return Ok(Some(rec));
            }
            let ghost qcur = self.inside_quotes;
            let (dmask, ft, width, qpar) = self.chunk_delimiter_offsets(&chunk, n);
            let ghost cs = chunk@;
            let e = if ft < n {
                ft
            } else {
                n
            };
            proof {
                lemma_chunk_bridge(s, cs, qt, q0a, a0, pos as int, n as int, qcur);
                lemma_pq_xor(cs, qt, qcur, 0, e as int);
                // the delimiter mask, read as positions in the input
                assert forall|pp: u64| pp < 64 implies #[trigger] bit64(dmask, pp) == ((pp as int)
                    < e as int && struct_delim(s, dia, q0a, a0, pos as int + pp as int)) by {
                    if (pp as int) < e as int {
                        assert(cs[pp as int] == s[pos as int + pp as int]);
                        assert(pq(cs, qt, qcur, 0, pp as int) == pq(
                            s,
                            qt,
                            q0a,
                            a0,
                            pos as int + pp as int,
                        ));
                    }
                }
                // no structural terminator among the bytes being consumed
                assert forall|j: int| pos as int <= j < pos as int + e as int implies !struct_term(
                    s,
                    dia,
                    q0a,
                    a0,
                    j,
                ) by {
                    assert(cs[j - pos as int] == s[j]);
                    assert(pq(cs, qt, qcur, 0, j - pos as int) == pq(s, qt, q0a, a0, j));
                }
            }
            let base = pos - rs;
            let mut p: usize = 0;
            while p < e
                invariant
                    p <= e,
                    e <= n <= 64,
                    1 <= n,
                    pos as int + n as int <= s.len(),
                    rs <= pos,
                    base == pos - rs,
                    offsets@.len() == offs_upto(
                        s,
                        dia,
                        q0a,
                        a0,
                        rs as int,
                        pos as int + p as int,
                    ).len(),
                    forall|j: int|
                        0 <= j < offsets@.len() ==> #[trigger] offsets@[j] as int == offs_upto(
                            s,
                            dia,
                            q0a,
                            a0,
                            rs as int,
                            pos as int + p as int,
                        )[j],
                    forall|pp: u64|
                        pp < 64 ==> #[trigger] bit64(dmask, pp) == ((pp as int) < e as int
                            && struct_delim(s, dia, q0a, a0, pos as int + pp as int)),
                decreases e - p,
            {
                let set = (dmask >> (p as u64)) & 1u64 == 1u64;
                proof {
                    assert(set == bit64(dmask, p as u64));
                }
                if set {
                    proof {
                        assert(struct_delim(s, dia, q0a, a0, pos as int + p as int));
                        assert(pos as int + p as int + 1 <= s.len());
                        assert(offs_upto(s, dia, q0a, a0, rs as int, pos as int + p as int + 1)
                            == offs_upto(s, dia, q0a, a0, rs as int, pos as int + p as int).push(
                            pos as int + p as int + 1 - rs as int,
                        ));
                    }
                    offsets.push(base + p + 1);
                } else {
                    proof {
                        assert(!struct_delim(s, dia, q0a, a0, pos as int + p as int));
                        assert(offs_upto(s, dia, q0a, a0, rs as int, pos as int + p as int + 1)
                            == offs_upto(s, dia, q0a, a0, rs as int, pos as int + p as int));
                    }
                }
                p = p + 1;
            }
            // a bare CR closing a full chunk may be the first half of a
            // CRLF that continues in the next chunk: hold it back and
            // re-examine it with one byte of look-ahead
            let defer = n == 64 && ft == 63 && chunk[63] == 13u8;
            if ft < n && !defer {
                let ghost t_abs = pos as int + ft as int;
                proof {
                    // the classifier's width is the true terminator width
                    assert(cs[ft as int] == s[t_abs]);
                    if ft + 1 < n {
                        assert(cs[ft as int + 1] == s[t_abs + 1]);
                    }
                    assert(width as int == twidth(s, t_abs));
                    lemma_term_from_exact(s, dia, q0a, a0, rs as int, t_abs);
                    lemma_record_offsets_shape(s, dia, q0a, a0, rs as int, t_abs);
                    lemma_pq_no_quotes(s, qt, q0a, a0, t_abs, t_abs + width as int);
                }
                let ell = base + ft;
                self.inside_quotes = self.inside_quotes ^ qpar;
                self.buffer.consume(ft + width);
                if ell == 0 {
                    // a blank line: skip its terminator and restart
                    rs = self.buffer.position();
                    continue;
                }
                let ghost ro = record_offsets(s, dia, q0a, a0, rs as int, t_abs);
                proof {
                    assert(!struct_term(s, dia, q0a, a0, rs as int));
                    assert(rec_start(s, dia, q0a, a0, rs as int) == rs as int);
                }
                offsets.push(ell);
                proof {
                    assert(offsets@.len() == ro.len());
                    assert forall|j: int|
                        0 <= j < offsets@.len() implies (#[trigger] offsets@[j] as int) == ro[j] by {}
                    assert forall|j: int| 0 <= j < offsets@.len() - 2 implies (
                    #[trigger] offsets@[j] as int) < offsets@[j + 1] as int by {
                        assert(ro[j] < ro[j + 1]);
                    }
                    assert(offsets@[offsets@.len() - 2] as int <= offsets@[offsets@.len()
                        - 1] as int);
                    assert(offsets@[offsets@.len() - 1] as int == t_abs - rs as int);
                }
                let data = self.buffer.line_slice(rs, rs + ell);
                let rec = Record::new(data, offsets, self.dialect.quotechar);
                proof {
                    assert forall|j: int| 0 <= j < rec.num_offsets() implies #[trigger] rec.off(j)
                        == ro[j] by {
                        assert(rec.off(j) == offsets@[j] as int);
                    }
                }
                return Ok(Some(rec));
            }
            // no terminator among the consumable bytes: take them into
            // the growing record and go on
            self.inside_quotes = self.inside_quotes ^ qpar;
            self.buffer.consume(e);
        }
    }
}

/// Reading a chunk out of the input relates the chunk-local quote
/// parity to the global one: corresponding positions agree as long as
/// the chunk mirrors the input.
proof fn lemma_chunk_bridge(
    s: Seq<u8>,
    cs: Seq<u8>,
    qt: u8,
    q0a: bool,
    a0: int,
    pos: int,
    n: int,
    qcur: bool,
)
    requires
        0 <= a0 <= pos,
        0 <= n <= 64,
        pos + n <= s.len(),
        cs.len() == 64,
        forall|j: int| 0 <= j < n ==> cs[j] == s[pos + j],
        qcur == pq(s, qt, q0a, a0, pos),
    ensures
        forall|i: int|
            0 <= i <= n ==> #[trigger] pq(cs, qt, qcur, 0, i) == pq(s, qt, q0a, a0, pos + i),
{
    assert forall|i: int| 0 <= i <= n implies #[trigger] pq(cs, qt, qcur, 0, i) == pq(
        s,
        qt,
        q0a,
        a0,
        pos + i,
    ) by {
        lemma_pq_compose(s, qt, q0a, a0, pos, pos + i);
        lemma_pq_agree(cs, s, qt, qcur, 0, pos, n, i);
    }
}

} // verus!
