//! The local-set decoder: the value payload of one KLV record read as a
//! sequence of Tag-Length-Value elements, whose tags use BER-OID
//! continuation-bit encoding and whose lengths use BER short/long form. A
//! TLV's own value may itself be a local set; recursing into it is the
//! caller's choice and is bounded by an explicit depth counter.

use vstd::prelude::*;
use vstd::slice::{slice_subrange, slice_to_vec};

use crate::ber::{spec_decode_length, spec_decode_tag, MAX_TAG_BYTES};
use crate::error::KlvError;

verus! {

/// Default bound on how deep nested local sets may be decoded.
pub const DEFAULT_MAX_NESTING: u32 = 8;

/// The mathematical model of one TLV element.
#[verifier::ext_equal]
pub struct TlvModel {
    pub tag: nat,
    pub length: nat,
    pub value: Seq<u8>,
}

impl TlvModel {
    /// The value holds exactly the declared length.
    pub open spec fn wf(self) -> bool {
        self.value.len() == self.length
    }
}

/// One Tag-Length-Value element of a local set: a variable-width tag, the
/// declared length, and the value payload, which holds exactly `length`
/// bytes.
#[derive(Debug)]
pub struct Tlv {
    pub tag: u64,
    pub length: usize,
    pub value: Vec<u8>,
}

impl View for Tlv {
    type V = TlvModel;

    open spec fn view(&self) -> TlvModel {
        TlvModel { tag: self.tag as nat, length: self.length as nat, value: self.value@ }
    }
}

impl Tlv {
    pub open spec fn wf(self) -> bool {
        self@.wf()
    }
}

/// The views of a sequence of TLV elements.
pub open spec fn tlv_views(records: Seq<Tlv>) -> Seq<TlvModel> {
    records.map_values(|t: Tlv| t@)
}

/// What reading one TLV element from the front of `s` yields: on success,
/// the element and the total bytes it occupies (tag width, length-field
/// width, and the value itself).
pub open spec fn spec_read_tlv(s: Seq<u8>) -> Result<(TlvModel, nat), KlvError> {
    match spec_decode_tag(s) {
        Err(e) => Err(e),
        Ok((tag, tw)) => match spec_decode_length(s.skip(tw as int)) {
            Err(e) => Err(e),
            Ok((len, lw)) => {
                if s.len() < tw + lw + len {
                    Err(KlvError::TruncatedPayload)
                } else {
                    Ok(
                        (
                            TlvModel {
                                tag: tag,
                                length: len,
                                value: s.subrange((tw + lw) as int, (tw + lw + len) as int),
                            },
                            (tw + lw + len) as nat,
                        ),
                    )
                }
            },
        },
    }
}

/// The mathematical model of decoding one local-set payload: the elements
/// in stream order, the bytes they account for, and the error that stopped
/// the pass, if any.
#[verifier::ext_equal]
pub struct LocalSetModel {
    pub records: Seq<TlvModel>,
    pub consumed: nat,
    pub error: Option<KlvError>,
}

/// What decoding the whole payload `s` yields: TLV elements are read from
/// the front until the payload is exhausted (no error) or a read fails (the
/// error is surfaced beside the elements already emitted).
pub open spec fn spec_decode_local_set(s: Seq<u8>) -> LocalSetModel
    decreases s.len(),
{
    if s.len() == 0 {
        LocalSetModel { records: Seq::empty(), consumed: 0, error: None }
    } else {
        match spec_read_tlv(s) {
            Err(e) => LocalSetModel { records: Seq::empty(), consumed: 0, error: Some(e) },
            Ok((t, n)) => {
                let rest = spec_decode_local_set(s.skip(n as int));
                LocalSetModel {
                    records: seq![t] + rest.records,
                    consumed: n + rest.consumed,
                    error: rest.error,
                }
            },
        }
    }
}

/// On success, one TLV element accounts for at least two bytes (tag and
/// length field) and at most the whole suffix, and its byte count is the
/// tag width plus the length-field width plus the value length.
pub proof fn lemma_spec_read_tlv_ok(s: Seq<u8>)
    requires
        spec_read_tlv(s) is Ok,
    ensures
        ({
            let (t, n) = spec_read_tlv(s)->Ok_0;
            let tw = spec_decode_tag(s)->Ok_0.1;
            let lw = spec_decode_length(s.skip(tw as int))->Ok_0.1;
            &&& t.wf()
            &&& spec_decode_tag(s) is Ok
            &&& t.tag == spec_decode_tag(s)->Ok_0.0
            &&& 1 <= tw <= MAX_TAG_BYTES
            &&& spec_decode_length(s.skip(tw as int)) is Ok
            &&& t.length == spec_decode_length(s.skip(tw as int))->Ok_0.0
            &&& n == tw + lw + t.value.len()
            &&& 2 <= n <= s.len()
        }),
{
    let tw = spec_decode_tag(s)->Ok_0.1;
    crate::ber::lemma_spec_decode_tag_ok(s);
    crate::ber::lemma_spec_decode_length_ok(s.skip(tw as int));
}

/// The total bytes each successive TLV element of a local-set decode of `s`
/// occupies, in stream order: tag width, length-field width, and the value.
pub open spec fn spec_tlv_sizes(s: Seq<u8>) -> Seq<nat>
    decreases s.len(),
{
    if s.len() == 0 {
        Seq::empty()
    } else {
        match spec_read_tlv(s) {
            Err(_) => Seq::empty(),
            Ok((t, n)) => seq![n] + spec_tlv_sizes(s.skip(n as int)),
        }
    }
}

/// Every local-set decode accounts for each byte of the payload exactly
/// once. There is one size per emitted element, and each is the element's
/// tag (one to five bytes), a length field of one to nine bytes, and its
/// value. The sum of the per-element sizes is exactly what the decode
/// consumed; when no error is reported that sum is the whole payload, and
/// when one is, the bytes from the reported position to the end make up the
/// difference, so no byte is double-counted or skipped.
pub proof fn lemma_local_set_byte_accounting(s: Seq<u8>)
    ensures
        ({
            let m = spec_decode_local_set(s);
            let sizes = spec_tlv_sizes(s);
            &&& sizes.len() == m.records.len()
            &&& crate::parser::size_sum(sizes) == m.consumed
            &&& m.consumed <= s.len()
            &&& (m.error is None ==> m.consumed == s.len())
            &&& (m.error is Some ==> m.consumed < s.len())
            &&& forall|i: int| 0 <= i < m.records.len() ==> (#[trigger] m.records[i]).wf()
            &&& forall|i: int|
                0 <= i < sizes.len() ==> 2 + m.records[i].value.len() <= #[trigger] sizes[i]
                    <= MAX_TAG_BYTES + 9 + m.records[i].value.len()
        }),
    decreases s.len(),
{
    let m = spec_decode_local_set(s);
    let sizes = spec_tlv_sizes(s);
    if s.len() > 0 && spec_read_tlv(s) is Ok {
        let (t, n) = spec_read_tlv(s)->Ok_0;
        lemma_spec_read_tlv_ok(s);
        let tw = spec_decode_tag(s)->Ok_0.1;
        crate::ber::lemma_spec_decode_length_ok(s.skip(tw as int));
        let rest = s.skip(n as int);
        lemma_local_set_byte_accounting(rest);
        assert(sizes.skip(1) =~= spec_tlv_sizes(rest));
        assert(m.records.skip(1) =~= spec_decode_local_set(rest).records);
        assert forall|i: int| 0 <= i < m.records.len() implies (#[trigger] m.records[i]).wf() by {
            if i > 0 {
                assert(m.records[i] == spec_decode_local_set(rest).records[i - 1]);
            }
        }
        assert forall|i: int| 0 <= i < sizes.len() implies 2 + m.records[i].value.len()
            <= #[trigger] sizes[i] <= MAX_TAG_BYTES + 9 + m.records[i].value.len() by {
            if i > 0 {
                assert(sizes[i] == spec_tlv_sizes(rest)[i - 1]);
                assert(m.records[i] == spec_decode_local_set(rest).records[i - 1]);
            }
        }
    }
}

/// Read one TLV element starting at `pos`: BER-OID tag, BER length, value.
pub fn read_tlv(bytes: &[u8], pos: usize) -> (r: Result<(Tlv, usize), KlvError>)
    requires
        pos <= bytes@.len(),
    ensures
        match r {
            Ok(p) => {
                &&& spec_read_tlv(bytes@.skip(pos as int)) is Ok
                &&& p.0@ == spec_read_tlv(bytes@.skip(pos as int))->Ok_0.0
                &&& p.0.wf()
                &&& p.1 as nat == spec_read_tlv(bytes@.skip(pos as int))->Ok_0.1
                &&& pos + p.1 <= bytes@.len()
            },
            Err(e) => {
                &&& spec_read_tlv(bytes@.skip(pos as int)) is Err
                &&& spec_read_tlv(bytes@.skip(pos as int))->Err_0 == e
            },
        },
{
    let ghost s = bytes@.skip(pos as int);
    let n = bytes.len();
    let (tag, tag_width) = match crate::ber::decode_tag(bytes, pos) {
        Ok(p) => p,
        Err(e) => {
            return Err(e);
        },
    };
    proof {
        assert(bytes@.skip((pos + tag_width) as int) =~= s.skip(tag_width as int));
    }
    assert(pos + tag_width <= n);
    let after_tag = pos + tag_width;
    let (length_u64, length_width) = match crate::ber::decode_length(bytes, after_tag) {
        Ok(p) => p,
        Err(e) => {
            return Err(e);
        },
    };
    assert(after_tag + length_width <= n);
    let after_length = after_tag + length_width;
    let rem = n - after_length;
    if length_u64 > rem as u64 {
        return Err(KlvError::TruncatedPayload);
    }
    let length = length_u64 as usize;
    let sub = slice_subrange(bytes, after_length, after_length + length);
    let value = slice_to_vec(sub);
    proof {
        let tw = tag_width as int;
        let lw = length_width as int;
        assert(value@ =~= s.subrange(tw + lw, tw + lw + length));
    }
    let tlv = Tlv { tag, length, value };
    proof {
        assert(tlv@ =~= spec_read_tlv(s)->Ok_0.0);
    }
    Ok((tlv, tag_width + length_width + length))
}

/// Decode one local-set payload as a sequence of TLV elements. The elements
/// are in stream order; when a read fails, the error is returned beside the
/// elements already emitted. `depth` is the number of nesting levels the
/// caller is still willing to enter: at zero nothing is decoded and
/// `MaxNestingExceeded` is returned. A caller that chooses to treat an
/// element's value as a nested local set calls this again on that value
/// with `depth - 1`.
pub fn decode_local_set(bytes: &[u8], depth: u32) -> (r: (Vec<Tlv>, Option<KlvError>))
    ensures
        depth == 0 ==> {
            &&& r.0@.len() == 0
            &&& r.1 == Some(KlvError::MaxNestingExceeded)
        },
        depth >= 1 ==> {
            &&& tlv_views(r.0@) == spec_decode_local_set(bytes@).records
            &&& r.1 == spec_decode_local_set(bytes@).error
        },
        forall|i: int| 0 <= i < r.0@.len() ==> (#[trigger] r.0@[i]).wf(),
{
    if depth == 0 {
        return (Vec::new(), Some(KlvError::MaxNestingExceeded));
    }
    let n = bytes.len();
    let mut pos: usize = 0;
    let mut records: Vec<Tlv> = Vec::new();
    let mut error: Option<KlvError> = None;
    proof {
        assert(bytes@.skip(0) =~= bytes@);
        assert(tlv_views(records@) =~= Seq::<TlvModel>::empty());
        assert(tlv_views(records@) + spec_decode_local_set(bytes@).records =~= spec_decode_local_set(
            bytes@,
        ).records);
    }
    while error.is_none() && pos < n
        invariant
            n == bytes@.len(),
            pos <= n,
            forall|i: int| 0 <= i < records@.len() ==> (#[trigger] records@[i]).wf(),
            error is None ==> {
                &&& spec_decode_local_set(bytes@).records == tlv_views(records@)
                    + spec_decode_local_set(bytes@.skip(pos as int)).records
                &&& spec_decode_local_set(bytes@).error == spec_decode_local_set(
                    bytes@.skip(pos as int),
                ).error
            },
            error is Some ==> {
                &&& spec_decode_local_set(bytes@).records == tlv_views(records@)
                &&& spec_decode_local_set(bytes@).error == error
            },
        decreases (if error is Some { 0int } else { 1int }), n - pos,
    {
        let ghost suf = bytes@.skip(pos as int);
        match read_tlv(bytes, pos) {
            Ok((tlv, consumed)) => {
                proof {
                    let (t, m) = spec_read_tlv(suf)->Ok_0;
                    lemma_spec_read_tlv_ok(suf);
                    assert(bytes@.skip((pos + consumed) as int) =~= suf.skip(m as int));
                    assert(tlv_views(records@.push(tlv)) =~= tlv_views(records@) + seq![tlv@]);
                    assert((tlv_views(records@) + seq![t]) + spec_decode_local_set(
                        suf.skip(m as int),
                    ).records =~= tlv_views(records@) + (seq![t] + spec_decode_local_set(
                        suf.skip(m as int),
                    ).records));
                }
                records.push(tlv);
                pos = pos + consumed;
            },
            Err(e) => {
                proof {
                    assert(tlv_views(records@) + spec_decode_local_set(suf).records =~= tlv_views(
                        records@,
                    ));
                }
                error = Some(e);
            },
        }
    }
    proof {
        if error is None {
            assert(bytes@.skip(pos as int) =~= Seq::<u8>::empty());
            assert(tlv_views(records@) + spec_decode_local_set(bytes@.skip(pos as int)).records
                =~= tlv_views(records@));
        }
    }
    (records, error)
}

} // verus!
