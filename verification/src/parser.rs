//! The top-level KLV parser: a cursor over an immutable byte buffer that
//! reads 16-byte keys, BER lengths and value payloads in a loop, emitting an
//! ordered sequence of records and, on malformed or truncated input, a typed
//! error beside the records already emitted.

use vstd::prelude::*;
use vstd::slice::{slice_subrange, slice_to_vec};

use crate::ber::{spec_decode_length, MAX_LENGTH_OCTETS};
use crate::error::KlvError;

verus! {

/// A Universal Label key is always exactly this many bytes.
pub const KEY_LENGTH: usize = 16;

/// The mathematical model of one KLV record.
#[verifier::ext_equal]
pub struct KlvModel {
    pub key: Seq<u8>,
    pub length: nat,
    pub value: Seq<u8>,
}

impl KlvModel {
    /// The key has its fixed width and the value has exactly the declared
    /// length.
    pub open spec fn wf(self) -> bool {
        &&& self.key.len() == KEY_LENGTH
        &&& self.value.len() == self.length
    }
}

/// One Key-Length-Value record: a 16-byte Universal Label, the declared
/// length, and the value payload, which holds exactly `length` bytes.
#[derive(Debug)]
pub struct Klv {
    pub key: [u8; KEY_LENGTH],
    pub length: usize,
    pub value: Vec<u8>,
}

impl View for Klv {
    type V = KlvModel;

    open spec fn view(&self) -> KlvModel {
        KlvModel { key: self.key@, length: self.length as nat, value: self.value@ }
    }
}

impl Klv {
    pub open spec fn wf(self) -> bool {
        self@.wf()
    }
}

/// The views of a sequence of records.
pub open spec fn klv_views(records: Seq<Klv>) -> Seq<KlvModel> {
    records.map_values(|k: Klv| k@)
}

/// What reading one KLV record from the front of `s` yields: on success, the
/// record and the total bytes it occupies (16 for the key, the width of the
/// length field, and the value itself).
pub open spec fn spec_read_klv(s: Seq<u8>) -> Result<(KlvModel, nat), KlvError> {
    if s.len() < KEY_LENGTH {
        Err(KlvError::UnexpectedEndOfInput)
    } else {
        match spec_decode_length(s.skip(KEY_LENGTH as int)) {
            Err(e) => Err(e),
            Ok((len, w)) => {
                if s.len() < KEY_LENGTH + w + len {
                    Err(KlvError::TruncatedPayload)
                } else {
                    Ok(
                        (
                            KlvModel {
                                key: s.take(KEY_LENGTH as int),
                                length: len,
                                value: s.subrange(
                                    (KEY_LENGTH + w) as int,
                                    (KEY_LENGTH + w + len) as int,
                                ),
                            },
                            (KEY_LENGTH + w + len) as nat,
                        ),
                    )
                }
            },
        }
    }
}

/// The mathematical model of a whole parse pass: the records in stream
/// order, the bytes they account for, and the error that stopped the pass,
/// if any.
#[verifier::ext_equal]
pub struct ParseModel {
    pub records: Seq<KlvModel>,
    pub consumed: nat,
    pub error: Option<KlvError>,
}

/// What parsing the whole of `s` yields: records are read from the front
/// until the buffer is exhausted (no error) or a read fails (the error is
/// surfaced beside the records already emitted).
pub open spec fn spec_parse(s: Seq<u8>) -> ParseModel
    decreases s.len(),
{
    if s.len() == 0 {
        ParseModel { records: Seq::empty(), consumed: 0, error: None }
    } else {
        match spec_read_klv(s) {
            Err(e) => ParseModel { records: Seq::empty(), consumed: 0, error: Some(e) },
            Ok((k, n)) => {
                let rest = spec_parse(s.skip(n as int));
                ParseModel {
                    records: seq![k] + rest.records,
                    consumed: n + rest.consumed,
                    error: rest.error,
                }
            },
        }
    }
}

/// On success, one record accounts for more than the 16 key bytes and at
/// most the whole suffix, its fields are the corresponding slices of the
/// buffer, and its byte count is 16 plus the length-field width plus the
/// value length.
pub proof fn lemma_spec_read_klv_ok(s: Seq<u8>)
    requires
        spec_read_klv(s) is Ok,
    ensures
        ({
            let (k, n) = spec_read_klv(s)->Ok_0;
            let w = spec_decode_length(s.skip(KEY_LENGTH as int))->Ok_0.1;
            &&& k.wf()
            &&& spec_decode_length(s.skip(KEY_LENGTH as int)) is Ok
            &&& k.length == spec_decode_length(s.skip(KEY_LENGTH as int))->Ok_0.0
            &&& k.key == s.take(KEY_LENGTH as int)
            &&& n == KEY_LENGTH + w + k.value.len()
            &&& KEY_LENGTH < n <= s.len()
        }),
{
    crate::ber::lemma_spec_decode_length_ok(s.skip(KEY_LENGTH as int));
}

/// Tracks a read position into an immutable byte buffer; the only mutable
/// state of a parse pass. The position never moves past the end.
#[derive(Debug)]
pub struct Parser<'a> {
    pub input: &'a [u8],
    pub cursor: usize,
}

impl<'a> Parser<'a> {
    /// The cursor lies within the buffer bounds.
    pub open spec fn wf(self) -> bool {
        self.cursor <= self.input@.len()
    }

    /// The unread suffix of the buffer.
    pub open spec fn suffix(self) -> Seq<u8> {
        self.input@.skip(self.cursor as int)
    }

    pub fn new(input: &'a [u8]) -> (p: Parser<'a>)
        ensures
            p.input@ == input@,
            p.cursor == 0,
            p.wf(),
    {
        Parser { input, cursor: 0 }
    }

    /// Whether any unread bytes remain.
    pub fn has_next(&self) -> (r: bool)
        ensures
            r == (self.cursor < self.input@.len()),
    {
        self.cursor < self.input.len()
    }

    /// The count of unread bytes.
    pub fn remaining(&self) -> (r: usize)
        requires
            self.wf(),
        ensures
            r == self.input@.len() - self.cursor,
    {
        self.input.len() - self.cursor
    }

    /// Move the cursor forward by `bytes`, which must not pass the end of
    /// the buffer.
    pub fn increment_cursor(&mut self, bytes: usize)
        requires
            old(self).cursor + bytes <= old(self).input@.len(),
        ensures
            final(self).input == old(self).input,
            final(self).cursor == old(self).cursor + bytes,
            final(self).wf(),
    {
        let n = self.input.len();
        assert(self.cursor + bytes <= n);
        self.cursor = self.cursor + bytes;
    }

    /// Read the fixed 16-byte key at the cursor, or fail without moving when
    /// fewer than 16 bytes remain.
    pub fn get_key(&mut self) -> (r: Result<[u8; KEY_LENGTH], KlvError>)
        requires
            old(self).wf(),
        ensures
            final(self).input == old(self).input,
            final(self).wf(),
            old(self).suffix().len() >= KEY_LENGTH ==> {
                &&& r is Ok
                &&& r->Ok_0@ == old(self).suffix().take(KEY_LENGTH as int)
                &&& final(self).cursor == old(self).cursor + KEY_LENGTH
            },
            old(self).suffix().len() < KEY_LENGTH ==> {
                &&& r is Err
                &&& r->Err_0 == KlvError::UnexpectedEndOfInput
                &&& *final(self) == *old(self)
            },
    {
        let n = self.input.len();
        if n - self.cursor >= KEY_LENGTH {
            let start = self.cursor;
            let mut key: [u8; KEY_LENGTH] = [0; KEY_LENGTH];
            let mut i: usize = 0;
            while i < KEY_LENGTH
                invariant
                    *self == *old(self),
                    n == self.input@.len(),
                    start == self.cursor,
                    start + KEY_LENGTH <= n,
                    i <= KEY_LENGTH,
                    forall|j: int| 0 <= j < i ==> key@[j] == self.input@[start + j],
                decreases KEY_LENGTH - i,
            {
                key[i] = self.input[start + i];
                i = i + 1;
            }
            self.increment_cursor(KEY_LENGTH);
            proof {
                assert(key@ =~= old(self).suffix().take(KEY_LENGTH as int));
            }
            Ok(key)
        } else {
            Err(KlvError::UnexpectedEndOfInput)
        }
    }

    /// Decode the BER length field at the cursor and move past it; on an
    /// error the cursor does not move.
    pub fn get_length(&mut self) -> (r: Result<u64, KlvError>)
        requires
            old(self).wf(),
        ensures
            final(self).input == old(self).input,
            final(self).wf(),
            match r {
                Ok(v) => {
                    &&& spec_decode_length(old(self).suffix()) is Ok
                    &&& v as nat == spec_decode_length(old(self).suffix())->Ok_0.0
                    &&& final(self).cursor == old(self).cursor + spec_decode_length(
                        old(self).suffix(),
                    )->Ok_0.1
                },
                Err(e) => {
                    &&& spec_decode_length(old(self).suffix()) is Err
                    &&& spec_decode_length(old(self).suffix())->Err_0 == e
                    &&& *final(self) == *old(self)
                },
            },
    {
        match crate::ber::decode_length(self.input, self.cursor) {
            Ok((value, consumed)) => {
                self.increment_cursor(consumed);
                Ok(value)
            },
            Err(e) => Err(e),
        }
    }

    /// Copy exactly `length` bytes at the cursor as the value payload, or
    /// fail without moving when fewer remain.
    pub fn get_value(&mut self, length: usize) -> (r: Result<Vec<u8>, KlvError>)
        requires
            old(self).wf(),
        ensures
            final(self).input == old(self).input,
            final(self).wf(),
            old(self).cursor + length <= old(self).input@.len() ==> {
                &&& r is Ok
                &&& r->Ok_0@ == old(self).suffix().take(length as int)
                &&& final(self).cursor == old(self).cursor + length
            },
            old(self).cursor + length > old(self).input@.len() ==> {
                &&& r is Err
                &&& r->Err_0 == KlvError::TruncatedPayload
                &&& *final(self) == *old(self)
            },
    {
        let n = self.input.len();
        if length <= n - self.cursor {
            let start = self.cursor;
            let sub = slice_subrange(self.input, start, start + length);
            let v = slice_to_vec(sub);
            self.increment_cursor(length);
            proof {
                assert(v@ =~= old(self).suffix().take(length as int));
            }
            Ok(v)
        } else {
            Err(KlvError::TruncatedPayload)
        }
    }

    /// Read one whole KLV record at the cursor: key, BER length, value. On
    /// success the cursor has moved past the record; on an error the error
    /// is exactly what `spec_read_klv` assigns to the unread suffix.
    pub fn read_next(&mut self) -> (r: Result<Klv, KlvError>)
        requires
            old(self).wf(),
        ensures
            final(self).input == old(self).input,
            final(self).wf(),
            match r {
                Ok(klv) => {
                    &&& spec_read_klv(old(self).suffix()) is Ok
                    &&& klv@ == spec_read_klv(old(self).suffix())->Ok_0.0
                    &&& klv.wf()
                    &&& final(self).cursor == old(self).cursor + spec_read_klv(
                        old(self).suffix(),
                    )->Ok_0.1
                },
                Err(e) => {
                    &&& spec_read_klv(old(self).suffix()) is Err
                    &&& spec_read_klv(old(self).suffix())->Err_0 == e
                },
            },
    {
        let ghost s = self.suffix();
        let key = match self.get_key() {
            Ok(k) => k,
            Err(e) => {
                return Err(e);
            },
        };
        let ghost mid = *self;
        proof {
            assert(mid.suffix() =~= s.skip(KEY_LENGTH as int));
        }
        let length_u64 = match self.get_length() {
            Ok(l) => l,
            Err(e) => {
                return Err(e);
            },
        };
        let ghost w = spec_decode_length(s.skip(KEY_LENGTH as int))->Ok_0.1;
        let rem = self.remaining();
        if length_u64 > rem as u64 {
            return Err(KlvError::TruncatedPayload);
        }
        let length = length_u64 as usize;
        let ghost before_value = *self;
        let value = match self.get_value(length) {
            Ok(v) => v,
            Err(e) => {
                return Err(e);
            },
        };
        proof {
            assert(before_value.suffix().take(length as int) =~= s.subrange(
                (KEY_LENGTH + w) as int,
                (KEY_LENGTH + w + length) as int,
            ));
        }
        let klv = Klv { key, length, value };
        proof {
            assert(klv@ =~= spec_read_klv(s)->Ok_0.0);
        }
        Ok(klv)
    }
}

/// Parse the whole buffer as a sequence of KLV records. The records are in
/// stream order; when a read fails, the error is returned beside every
/// record that was successfully emitted before it.
pub fn parse(bytes: &[u8]) -> (r: (Vec<Klv>, Option<KlvError>))
    ensures
        klv_views(r.0@) == spec_parse(bytes@).records,
        r.1 == spec_parse(bytes@).error,
        forall|i: int| 0 <= i < r.0@.len() ==> (#[trigger] r.0@[i]).wf(),
{
    let mut parser = Parser::new(bytes);
    let mut records: Vec<Klv> = Vec::new();
    let mut error: Option<KlvError> = None;
    proof {
        assert(parser.suffix() =~= bytes@);
        assert(klv_views(records@) =~= Seq::<KlvModel>::empty());
        assert(klv_views(records@) + spec_parse(bytes@).records =~= spec_parse(bytes@).records);
    }
    while error.is_none() && parser.has_next()
        invariant
            parser.wf(),
            parser.input@ == bytes@,
            forall|i: int| 0 <= i < records@.len() ==> (#[trigger] records@[i]).wf(),
            error is None ==> {
                &&& spec_parse(bytes@).records == klv_views(records@) + spec_parse(
                    parser.suffix(),
                ).records
                &&& spec_parse(bytes@).error == spec_parse(parser.suffix()).error
            },
            error is Some ==> {
                &&& spec_parse(bytes@).records == klv_views(records@)
                &&& spec_parse(bytes@).error == error
            },
        decreases (if error is Some { 0int } else { 1int }), parser.input@.len() - parser.cursor,
    {
        let ghost suf = parser.suffix();
        match parser.read_next() {
            Ok(klv) => {
                proof {
                    let (k, n) = spec_read_klv(suf)->Ok_0;
                    lemma_spec_read_klv_ok(suf);
                    assert(parser.suffix() =~= suf.skip(n as int));
                    assert(klv_views(records@.push(klv)) =~= klv_views(records@) + seq![klv@]);
                    assert((klv_views(records@) + seq![k]) + spec_parse(suf.skip(n as int)).records
                        =~= klv_views(records@) + (seq![k] + spec_parse(suf.skip(n as int)).records));
                }
                records.push(klv);
            },
            Err(e) => {
                proof {
                    assert(klv_views(records@) + spec_parse(suf).records =~= klv_views(records@));
                }
                error = Some(e);
            },
        }
    }
    proof {
        if error is None {
            assert(parser.suffix() =~= Seq::<u8>::empty());
            assert(klv_views(records@) + spec_parse(parser.suffix()).records =~= klv_views(
                records@,
            ));
        }
    }
    (records, error)
}

/// The byte encoding of one record: the 16-byte key, the shortest BER
/// encoding of the length, then the value.
pub open spec fn spec_encode_klv(k: KlvModel) -> Seq<u8> {
    k.key + crate::ber::spec_encode_length(k.length) + k.value
}

/// Encode one record to bytes: 16-byte key, BER length, value.
pub fn encode_klv(klv: &Klv) -> (out: Vec<u8>)
    ensures
        out@ == spec_encode_klv(klv@),
{
    let mut out: Vec<u8> = Vec::new();
    let mut i: usize = 0;
    while i < KEY_LENGTH
        invariant
            i <= KEY_LENGTH,
            out@ == klv.key@.take(i as int),
        decreases KEY_LENGTH - i,
    {
        let ghost before = out@;
        out.push(klv.key[i]);
        i = i + 1;
        proof {
            assert(before.push(klv.key@[i - 1]) =~= klv.key@.take(i as int));
        }
    }
    proof {
        assert(out@ =~= klv.key@);
    }
    let mut length_bytes = crate::ber::encode_length(klv.length as u64);
    let ghost with_key = out@;
    out.append(&mut length_bytes);
    let mut j: usize = 0;
    let ghost with_length = out@;
    let value_len = klv.value.len();
    while j < value_len
        invariant
            j <= value_len,
            value_len == klv.value@.len(),
            with_length == klv.key@ + crate::ber::spec_encode_length(klv@.length),
            out@ == with_length + klv.value@.take(j as int),
        decreases value_len - j,
    {
        let ghost before = out@;
        out.push(klv.value[j]);
        j = j + 1;
        proof {
            assert(before.push(klv.value@[j - 1]) =~= with_length + klv.value@.take(j as int));
        }
    }
    proof {
        assert(out@ =~= spec_encode_klv(klv@));
    }
    out
}

/// Round trip: encoding any well-formed record and parsing the result
/// yields exactly that one record and no error, consuming every byte.
pub proof fn lemma_klv_round_trip(k: KlvModel)
    requires
        k.wf(),
        k.length < crate::ber::pow256(MAX_LENGTH_OCTETS as nat),
    ensures
        ({
            let m = spec_parse(spec_encode_klv(k));
            &&& m.records == seq![k]
            &&& m.error is None
            &&& m.consumed == spec_encode_klv(k).len()
        }),
{
    let enc_len = crate::ber::spec_encode_length(k.length);
    let s = spec_encode_klv(k);
    crate::ber::lemma_decode_encode_length(k.length, k.value);
    let w = enc_len.len();
    assert(s.skip(KEY_LENGTH as int) =~= enc_len + k.value);
    assert(s.take(KEY_LENGTH as int) =~= k.key);
    assert(s.len() == KEY_LENGTH + w + k.length);
    assert(s.subrange((KEY_LENGTH + w) as int, (KEY_LENGTH + w + k.length) as int) =~= k.value);
    let (k2, n2) = spec_read_klv(s)->Ok_0;
    assert(k2 =~= k);
    assert(s.skip(n2 as int) =~= Seq::<u8>::empty());
    let rest = spec_parse(s.skip(n2 as int));
    assert(rest.records == Seq::<KlvModel>::empty());
    assert(rest.error is None);
    assert(rest.consumed == 0);
    assert(seq![k2] + rest.records =~= seq![k]);
}

/// The total bytes each successive record of a parse of `s` occupies, in
/// stream order: 16 key bytes, the length-field width, and the value.
pub open spec fn spec_record_sizes(s: Seq<u8>) -> Seq<nat>
    decreases s.len(),
{
    if s.len() == 0 {
        Seq::empty()
    } else {
        match spec_read_klv(s) {
            Err(_) => Seq::empty(),
            Ok((k, n)) => seq![n] + spec_record_sizes(s.skip(n as int)),
        }
    }
}

/// The sum of a sequence of byte counts.
pub open spec fn size_sum(sizes: Seq<nat>) -> nat
    decreases sizes.len(),
{
    if sizes.len() == 0 {
        0
    } else {
        sizes[0] + size_sum(sizes.skip(1))
    }
}

/// Every parse pass accounts for each byte of the buffer exactly once.
/// There is one size per emitted record, and each is the record's 16 key
/// bytes, a length field of one to nine bytes, and its value. The sum of
/// the per-record sizes is exactly what the pass consumed; when no error is
/// reported that sum is the whole buffer, and when one is, the bytes from
/// the reported position to the end make up the difference, so no byte is
/// double-counted or skipped.
pub proof fn lemma_byte_accounting(s: Seq<u8>)
    ensures
        ({
            let m = spec_parse(s);
            let sizes = spec_record_sizes(s);
            &&& sizes.len() == m.records.len()
            &&& size_sum(sizes) == m.consumed
            &&& m.consumed <= s.len()
            &&& (m.error is None ==> m.consumed == s.len())
            &&& (m.error is Some ==> m.consumed < s.len())
            &&& forall|i: int| 0 <= i < m.records.len() ==> (#[trigger] m.records[i]).wf()
            &&& forall|i: int|
                0 <= i < sizes.len() ==> KEY_LENGTH + 1 + m.records[i].value.len() <= #[trigger] sizes[i]
                    <= KEY_LENGTH + 1 + MAX_LENGTH_OCTETS + m.records[i].value.len()
        }),
    decreases s.len(),
{
    let m = spec_parse(s);
    let sizes = spec_record_sizes(s);
    if s.len() > 0 && spec_read_klv(s) is Ok {
        let (k, n) = spec_read_klv(s)->Ok_0;
        lemma_spec_read_klv_ok(s);
        crate::ber::lemma_spec_decode_length_ok(s.skip(KEY_LENGTH as int));
        let rest = s.skip(n as int);
        lemma_byte_accounting(rest);
        assert(sizes.skip(1) =~= spec_record_sizes(rest));
        assert(m.records.skip(1) =~= spec_parse(rest).records);
        assert forall|i: int| 0 <= i < m.records.len() implies (#[trigger] m.records[i]).wf() by {
            if i > 0 {
                assert(m.records[i] == spec_parse(rest).records[i - 1]);
            }
        }
        assert forall|i: int| 0 <= i < sizes.len() implies KEY_LENGTH + 1
            + m.records[i].value.len() <= #[trigger] sizes[i] <= KEY_LENGTH + 1 + MAX_LENGTH_OCTETS
            + m.records[i].value.len() by {
            if i > 0 {
                assert(sizes[i] == spec_record_sizes(rest)[i - 1]);
                assert(m.records[i] == spec_parse(rest).records[i - 1]);
            }
        }
    }
}

/// Whether a 16-byte key begins with the fixed Object-Identifier marker and
/// the fixed length marker of a Universal Label. A non-conforming key is
/// reported, not rejected: callers decide whether to accept it.
pub fn is_valid_universal_label(key: &[u8; KEY_LENGTH]) -> (r: bool)
    ensures
        r == (key@[0] == 0x06 && key@[1] == 0x0e),
{
    key[0] == 0x06 && key[1] == 0x0e
}

/// `s` read as a base-256 integer, least significant byte first.
pub open spec fn le_value(s: Seq<u8>) -> nat
    decreases s.len(),
{
    if s.len() == 0 {
        0
    } else {
        s[0] as nat + 256 * le_value(s.skip(1))
    }
}

/// Convert the first `len(bytes)` bytes (which must number two to four) to
/// one integer, least significant byte first.
pub fn u8s_to_u32(bytes: &[u8]) -> (r: u32)
    requires
        2 <= bytes@.len() <= 4,
    ensures
        r as nat == le_value(bytes@),
{
    let size = bytes.len();
    if size == 2 {
        assert(bytes@.take(2) =~= bytes@);
        two_u8s_to_u32(bytes)
    } else if size == 3 {
        assert(bytes@.take(3) =~= bytes@);
        three_u8s_to_u32(bytes)
    } else {
        assert(bytes@.take(4) =~= bytes@);
        four_u8s_to_u32(bytes)
    }
}

/// Takes the first two bytes from the slice and converts them to one
/// integer, least significant byte first.
pub fn two_u8s_to_u32(bytes: &[u8]) -> (r: u32)
    requires
        bytes@.len() >= 2,
    ensures
        r == bytes@[0] + 256 * bytes@[1],
        r as nat == le_value(bytes@.take(2)),
{
    proof {
        lemma_le_value_take(bytes@, 2);
    }
    bytes[0] as u32 + 256 * bytes[1] as u32
}

/// Takes the first three bytes from the slice and converts them to one
/// integer, least significant byte first.
pub fn three_u8s_to_u32(bytes: &[u8]) -> (r: u32)
    requires
        bytes@.len() >= 3,
    ensures
        r == bytes@[0] + 256 * bytes@[1] + 65536 * bytes@[2],
        r as nat == le_value(bytes@.take(3)),
{
    proof {
        lemma_le_value_take(bytes@, 3);
    }
    bytes[0] as u32 + 256 * bytes[1] as u32 + 65536 * bytes[2] as u32
}

/// Takes the first four bytes from the slice and converts them to one
/// integer, least significant byte first.
pub fn four_u8s_to_u32(bytes: &[u8]) -> (r: u32)
    requires
        bytes@.len() >= 4,
    ensures
        r == bytes@[0] + 256 * bytes@[1] + 65536 * bytes@[2] + 16777216 * bytes@[3],
        r as nat == le_value(bytes@.take(4)),
{
    proof {
        lemma_le_value_take(bytes@, 4);
    }
    bytes[0] as u32 + 256 * bytes[1] as u32 + 65536 * bytes[2] as u32 + 16777216 * bytes[3] as u32
}

/// The little-endian value of a prefix of up to four bytes, in closed form.
proof fn lemma_le_value_take(s: Seq<u8>, k: int)
    requires
        2 <= k <= 4,
        k <= s.len(),
    ensures
        k == 2 ==> le_value(s.take(2)) == s[0] + 256 * s[1],
        k == 3 ==> le_value(s.take(3)) == s[0] + 256 * s[1] + 65536 * s[2],
        k == 4 ==> le_value(s.take(4)) == s[0] + 256 * s[1] + 65536 * s[2] + 16777216 * s[3],
{
    reveal_with_fuel(le_value, 6);
    let t = s.take(k);
    assert(t.skip(1) =~= s.subrange(1, k));
    if k >= 3 {
        assert(s.subrange(1, k).skip(1) =~= s.subrange(2, k));
    }
    if k >= 4 {
        assert(s.subrange(2, k).skip(1) =~= s.subrange(3, k));
    }
    assert(s.subrange(k - 1, k).skip(1) =~= Seq::<u8>::empty());
}

} // verus!
