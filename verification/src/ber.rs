//! BER length decoding (short and long form) and BER-OID tag decoding
//! (continuation-bit, base-128), the two variable-width integer codes used by
//! KLV streams, together with their mathematical models.

use vstd::prelude::*;

use crate::error::KlvError;

verus! {

/// Maximum number of extension octets a long-form BER length may declare.
pub const MAX_LENGTH_OCTETS: usize = 8;

/// Maximum number of bytes a BER-OID tag may occupy before it is rejected.
pub const MAX_TAG_BYTES: usize = 5;

/// `s` read as a base-256 integer, most significant byte first.
pub open spec fn be_value(s: Seq<u8>) -> nat
    decreases s.len(),
{
    if s.len() == 0 {
        0
    } else {
        be_value(s.drop_last()) * 256 + s.last() as nat
    }
}

/// 256 to the power `n`.
pub open spec fn pow256(n: nat) -> nat
    decreases n,
{
    if n == 0 {
        1
    } else {
        256 * pow256((n - 1) as nat)
    }
}

/// The low seven bits of each byte of `s`, assembled most significant group
/// first: the value a BER-OID tag encodes, ignoring the continuation bits.
pub open spec fn tag_value(s: Seq<u8>) -> nat
    decreases s.len(),
{
    if s.len() == 0 {
        0
    } else {
        tag_value(s.drop_last()) * 128 + (s.last() % 128) as nat
    }
}

/// 128 to the power `n`.
pub open spec fn pow128(n: nat) -> nat
    decreases n,
{
    if n == 0 {
        1
    } else {
        128 * pow128((n - 1) as nat)
    }
}

/// What BER length decoding yields on the byte suffix `s`: on success, the
/// decoded length and the number of bytes consumed.
pub open spec fn spec_decode_length(s: Seq<u8>) -> Result<(nat, nat), KlvError> {
    if s.len() == 0 {
        Err(KlvError::UnexpectedEndOfInput)
    } else if s[0] < 128 {
        Ok((s[0] as nat, 1))
    } else {
        let octet_count = (s[0] - 128) as nat;
        if octet_count < 1 || octet_count > MAX_LENGTH_OCTETS {
            Err(KlvError::InvalidLengthEncoding)
        } else if s.len() < 1 + octet_count {
            Err(KlvError::UnexpectedEndOfInput)
        } else {
            Ok((be_value(s.subrange(1, 1 + octet_count as int)), 1 + octet_count))
        }
    }
}

/// What BER-OID tag decoding yields on `s` when the first `i` bytes have
/// already been seen to carry a set continuation bit.
pub open spec fn spec_decode_tag_from(s: Seq<u8>, i: nat) -> Result<(nat, nat), KlvError>
    decreases MAX_TAG_BYTES - i,
{
    if i >= MAX_TAG_BYTES {
        Err(KlvError::InvalidTagEncoding)
    } else if i >= s.len() {
        Err(KlvError::UnexpectedEndOfInput)
    } else if s[i as int] < 128 {
        Ok((tag_value(s.take(i as int + 1)), i + 1))
    } else {
        spec_decode_tag_from(s, i + 1)
    }
}

/// What BER-OID tag decoding yields on the byte suffix `s`: on success, the
/// decoded tag and the number of bytes consumed.
pub open spec fn spec_decode_tag(s: Seq<u8>) -> Result<(nat, nat), KlvError> {
    spec_decode_tag_from(s, 0)
}

/// A successfully decoded length field occupies one to nine bytes of the
/// suffix it was decoded from.
pub proof fn lemma_spec_decode_length_ok(s: Seq<u8>)
    requires
        spec_decode_length(s) is Ok,
    ensures
        ({
            let (len, w) = spec_decode_length(s)->Ok_0;
            &&& 1 <= w <= 1 + MAX_LENGTH_OCTETS
            &&& w <= s.len()
        }),
{
}

/// Every single-byte buffer whose byte is below 128 decodes as a short-form
/// length: the byte itself, with one byte consumed.
pub proof fn lemma_short_form_length(b: u8)
    requires
        b < 128,
    ensures
        spec_decode_length(seq![b]) == Ok::<(nat, nat), KlvError>((b as nat, 1)),
{
    assert(seq![b][0] == b);
}

proof fn lemma_spec_decode_tag_from_ok(s: Seq<u8>, i: nat)
    requires
        spec_decode_tag_from(s, i) is Ok,
    ensures
        ({
            let (t, w) = spec_decode_tag_from(s, i)->Ok_0;
            &&& i < w <= MAX_TAG_BYTES
            &&& w <= s.len()
        }),
    decreases MAX_TAG_BYTES - i,
{
    if i < MAX_TAG_BYTES && i < s.len() && s[i as int] >= 128 {
        lemma_spec_decode_tag_from_ok(s, i + 1);
    }
}

/// A successfully decoded tag occupies one to `MAX_TAG_BYTES` bytes of the
/// suffix it was decoded from.
pub proof fn lemma_spec_decode_tag_ok(s: Seq<u8>)
    requires
        spec_decode_tag(s) is Ok,
    ensures
        ({
            let (t, w) = spec_decode_tag(s)->Ok_0;
            &&& 1 <= w <= MAX_TAG_BYTES
            &&& w <= s.len()
        }),
{
    lemma_spec_decode_tag_from_ok(s, 0);
}

pub proof fn lemma_pow256_pos(n: nat)
    ensures
        pow256(n) >= 1,
    decreases n,
{
    if n > 0 {
        lemma_pow256_pos((n - 1) as nat);
    }
}

pub proof fn lemma_pow256_le(i: nat, j: nat)
    requires
        i <= j,
    ensures
        pow256(i) <= pow256(j),
    decreases j,
{
    if i < j {
        lemma_pow256_le(i, (j - 1) as nat);
        lemma_pow256_pos((j - 1) as nat);
    }
}

pub proof fn lemma_pow128_pos(n: nat)
    ensures
        pow128(n) >= 1,
    decreases n,
{
    if n > 0 {
        lemma_pow128_pos((n - 1) as nat);
    }
}

pub proof fn lemma_pow128_le(i: nat, j: nat)
    requires
        i <= j,
    ensures
        pow128(i) <= pow128(j),
    decreases j,
{
    if i < j {
        lemma_pow128_le(i, (j - 1) as nat);
        lemma_pow128_pos((j - 1) as nat);
    }
}

proof fn lemma_be_value_step(s: Seq<u8>, i: int)
    requires
        0 <= i < s.len(),
    ensures
        be_value(s.take(i + 1)) == be_value(s.take(i)) * 256 + s[i],
{
    assert(s.take(i + 1).drop_last() =~= s.take(i));
    assert(s.take(i + 1).last() == s[i]);
}

proof fn lemma_tag_value_step(s: Seq<u8>, i: int)
    requires
        0 <= i < s.len(),
    ensures
        tag_value(s.take(i + 1)) == tag_value(s.take(i)) * 128 + (s[i] % 128),
{
    assert(s.take(i + 1).drop_last() =~= s.take(i));
    assert(s.take(i + 1).last() == s[i]);
}

/// The number of base-256 octets needed to write `n`; always at least one.
pub open spec fn spec_octets_for(n: nat) -> nat
    decreases n,
{
    if n < 256 {
        1
    } else {
        1 + spec_octets_for(n / 256)
    }
}

/// The big-endian base-256 digits of `n`, written in `c` octets.
pub open spec fn be_bytes(n: nat, c: nat) -> Seq<u8>
    decreases c,
{
    if c == 0 {
        Seq::empty()
    } else {
        be_bytes(n / 256, (c - 1) as nat).push((n % 256) as u8)
    }
}

/// The shortest BER encoding of length `n`: the byte itself in short form
/// when it fits, else a prefix byte declaring the octet count followed by
/// the big-endian octets.
pub open spec fn spec_encode_length(n: nat) -> Seq<u8> {
    if n < 128 {
        seq![n as u8]
    } else {
        seq![(128 + spec_octets_for(n)) as u8] + be_bytes(n, spec_octets_for(n))
    }
}

pub proof fn lemma_be_bytes_len(n: nat, c: nat)
    ensures
        be_bytes(n, c).len() == c,
    decreases c,
{
    if c > 0 {
        lemma_be_bytes_len(n / 256, (c - 1) as nat);
    }
}

/// Big-endian assembly inverts big-endian encoding: reading back the `c`
/// octets of `n` gives `n` again, provided `n` fits in `c` octets.
pub proof fn lemma_be_value_of_be_bytes(n: nat, c: nat)
    requires
        n < pow256(c),
    ensures
        be_value(be_bytes(n, c)) == n,
    decreases c,
{
    if c > 0 {
        let q = n / 256;
        let r = n % 256;
        vstd::arithmetic::div_mod::lemma_multiply_divide_lt(
            n as int,
            256,
            pow256((c - 1) as nat) as int,
        );
        lemma_be_value_of_be_bytes(q, (c - 1) as nat);
        vstd::arithmetic::div_mod::lemma_fundamental_div_mod(n as int, 256);
        let b = be_bytes(q, (c - 1) as nat);
        assert(b.push(r as u8).drop_last() =~= b);
        assert(b.push(r as u8).last() == r as u8);
    }
}

/// `n` fits in the octet count chosen for it.
pub proof fn lemma_octets_for_bound(n: nat)
    ensures
        n < pow256(spec_octets_for(n)),
        1 <= spec_octets_for(n),
    decreases n,
{
    if n < 256 {
        assert(pow256(1) == 256) by {
            reveal_with_fuel(pow256, 2);
        }
    } else {
        vstd::arithmetic::div_mod::lemma_div_is_strictly_smaller(n as int, 256);
        lemma_octets_for_bound(n / 256);
        vstd::arithmetic::div_mod::lemma_fundamental_div_mod(n as int, 256);
    }
}

/// The octet count chosen for `n` is minimal: `n` never takes more octets
/// than any count it fits in.
pub proof fn lemma_octets_for_le(n: nat, c: nat)
    requires
        n < pow256(c),
        c >= 1,
    ensures
        spec_octets_for(n) <= c,
    decreases n,
{
    if n >= 256 {
        if c == 1 {
            assert(pow256(1) == 256) by {
                reveal_with_fuel(pow256, 2);
            }
        }
        vstd::arithmetic::div_mod::lemma_div_is_strictly_smaller(n as int, 256);
        vstd::arithmetic::div_mod::lemma_multiply_divide_lt(
            n as int,
            256,
            pow256((c - 1) as nat) as int,
        );
        lemma_octets_for_le(n / 256, (c - 1) as nat);
    }
}

/// Decoding inverts encoding for the length field: the encoded length
/// followed by anything decodes to the value and the encoding's width.
pub proof fn lemma_decode_encode_length(n: nat, rest: Seq<u8>)
    requires
        n < pow256(MAX_LENGTH_OCTETS as nat),
    ensures
        ({
            let enc = spec_encode_length(n);
            &&& 1 <= enc.len() <= 1 + MAX_LENGTH_OCTETS
            &&& spec_decode_length(enc + rest) == Ok::<(nat, nat), KlvError>((n, enc.len()))
        }),
{
    let enc = spec_encode_length(n);
    let s = enc + rest;
    if n < 128 {
        assert(s[0] == n as u8);
    } else {
        let c = spec_octets_for(n);
        lemma_octets_for_bound(n);
        lemma_octets_for_le(n, MAX_LENGTH_OCTETS as nat);
        lemma_be_bytes_len(n, c);
        assert(enc.len() == 1 + c);
        assert(s[0] == (128 + c) as u8);
        assert(s.subrange(1, 1 + c as int) =~= be_bytes(n, c));
        lemma_be_value_of_be_bytes(n, c);
    }
}

/// Encode `n` as a BER length: short form when it fits in seven bits, else
/// the shortest long form.
pub fn encode_length(n: u64) -> (out: Vec<u8>)
    ensures
        out@ == spec_encode_length(n as nat),
{
    let mut out: Vec<u8> = Vec::new();
    if n < 128 {
        out.push(n as u8);
        proof {
            assert(out@ =~= spec_encode_length(n as nat));
        }
        return out;
    }
    let ghost cn = spec_octets_for(n as nat);
    let mut digits: Vec<u8> = Vec::new();
    let mut m = n;
    proof {
        assert(be_bytes(n as nat, cn) + digits@.reverse() =~= be_bytes(n as nat, cn));
    }
    while m >= 256
        invariant
            m >= 1,
            cn == digits@.len() + spec_octets_for(m as nat),
            be_bytes(n as nat, cn) == be_bytes(m as nat, spec_octets_for(m as nat))
                + digits@.reverse(),
        decreases m,
    {
        let d = (m % 256) as u8;
        let ghost old_digits = digits@;
        let ghost old_m = m as nat;
        digits.push(d);
        m = m / 256;
        proof {
            vstd::arithmetic::div_mod::lemma_div_is_strictly_smaller(old_m as int, 256);
            assert(old_digits.push(d).reverse() =~= seq![d] + old_digits.reverse());
            let q = be_bytes(m as nat, spec_octets_for(m as nat));
            assert(be_bytes(old_m, spec_octets_for(old_m)) == q.push(d));
            assert(q.push(d) =~= q + seq![d]);
            assert((q + seq![d]) + old_digits.reverse() =~= q + (seq![d] + old_digits.reverse()));
        }
    }
    let ghost old_digits = digits@;
    let ghost old_m = m as nat;
    digits.push(m as u8);
    proof {
        vstd::arithmetic::div_mod::lemma_basic_div(old_m as int, 256);
        vstd::arithmetic::div_mod::lemma_small_mod(old_m, 256);
        reveal_with_fuel(be_bytes, 3);
        assert(be_bytes(old_m, 1) == Seq::<u8>::empty().push(old_m as u8));
        assert(Seq::<u8>::empty().push(old_m as u8) =~= seq![old_m as u8]);
        assert(old_digits.push(old_m as u8).reverse() =~= seq![old_m as u8]
            + old_digits.reverse());
        assert(be_bytes(n as nat, cn) == old_digits.push(old_m as u8).reverse());
        assert(cn == digits@.len());
        assert(cn <= MAX_LENGTH_OCTETS) by {
            assert(pow256(8) == 0x10000000000000000) by {
                reveal_with_fuel(pow256, 9);
            }
            lemma_octets_for_le(n as nat, MAX_LENGTH_OCTETS as nat);
        }
    }
    let c = digits.len();
    let mut out2: Vec<u8> = Vec::new();
    out2.push(128 + c as u8);
    while digits.len() > 0
        invariant
            seq![(128 + cn) as u8] + be_bytes(n as nat, cn) == out2@ + digits@.reverse(),
        decreases digits@.len(),
    {
        let ghost before = digits@;
        let d = digits.pop().unwrap();
        out2.push(d);
        proof {
            assert(digits@ =~= before.drop_last());
            assert(before.reverse() =~= seq![d] + before.drop_last().reverse());
        }
    }
    proof {
        assert(digits@.reverse() =~= Seq::<u8>::empty());
        assert(out2@ + digits@.reverse() =~= out2@);
    }
    out2
}

/// Decode one BER length starting at `pos`. Short form (first byte below 128)
/// is the byte itself; long form reads the declared count of extension octets
/// and assembles them most significant byte first. On success the returned
/// pair is the length and the total bytes consumed.
///
/// Relies on nothing outside this crate; the contract ties the result to
/// `spec_decode_length` on the suffix of the buffer.
pub fn decode_length(bytes: &[u8], pos: usize) -> (r: Result<(u64, usize), KlvError>)
    requires
        pos <= bytes@.len(),
    ensures
        match r {
            Ok(p) => {
                &&& spec_decode_length(bytes@.skip(pos as int)) == Ok::<(nat, nat), KlvError>(
                    (p.0 as nat, p.1 as nat),
                )
                &&& pos + p.1 <= bytes@.len()
                &&& 1 <= p.1 <= 1 + MAX_LENGTH_OCTETS
            },
            Err(e) => spec_decode_length(bytes@.skip(pos as int)) == Err::<(nat, nat), KlvError>(
                e,
            ),
        },
{
    let ghost s = bytes@.skip(pos as int);
    let n = bytes.len();
    if pos >= n {
        return Err(KlvError::UnexpectedEndOfInput);
    }
    let b = bytes[pos];
    assert(s[0] == b);
    if b < 128 {
        return Ok((b as u64, 1));
    }
    let octet_count = (b - 128) as usize;
    if octet_count < 1 || octet_count > MAX_LENGTH_OCTETS {
        return Err(KlvError::InvalidLengthEncoding);
    }
    if n - pos < 1 + octet_count {
        return Err(KlvError::UnexpectedEndOfInput);
    }
    let ghost ext = s.subrange(1, 1 + octet_count as int);
    let mut acc: u64 = 0;
    let mut i: usize = 0;
    while i < octet_count
        invariant
            n == bytes@.len(),
            pos <= n,
            1 <= octet_count <= MAX_LENGTH_OCTETS,
            pos + 1 + octet_count <= n,
            s == bytes@.skip(pos as int),
            ext == s.subrange(1, 1 + octet_count as int),
            i <= octet_count,
            acc as nat == be_value(ext.take(i as int)),
            acc < pow256(i as nat),
        decreases octet_count - i,
    {
        let b_i = bytes[pos + 1 + i];
        assert(ext[i as int] == b_i);
        proof {
            lemma_pow256_le(i as nat, 7);
            assert(pow256(7) == 0x100000000000000) by {
                reveal_with_fuel(pow256, 8);
            }
            lemma_be_value_step(ext, i as int);
        }
        acc = acc * 256 + b_i as u64;
        i = i + 1;
    }
    assert(ext.take(octet_count as int) =~= ext);
    assert(spec_decode_length(s) == Ok::<(nat, nat), KlvError>(
        (acc as nat, (1 + octet_count) as nat),
    ));
    Ok((acc, 1 + octet_count))
}

/// Decode one BER-OID tag starting at `pos`. Each byte contributes its low
/// seven bits, most significant group first; a clear high bit marks the last
/// byte. Rejects tags wider than `MAX_TAG_BYTES`. On success the returned
/// pair is the tag and the number of bytes consumed.
pub fn decode_tag(bytes: &[u8], pos: usize) -> (r: Result<(u64, usize), KlvError>)
    requires
        pos <= bytes@.len(),
    ensures
        match r {
            Ok(p) => {
                &&& spec_decode_tag(bytes@.skip(pos as int)) == Ok::<(nat, nat), KlvError>(
                    (p.0 as nat, p.1 as nat),
                )
                &&& pos + p.1 <= bytes@.len()
                &&& 1 <= p.1 <= MAX_TAG_BYTES
            },
            Err(e) => spec_decode_tag(bytes@.skip(pos as int)) == Err::<(nat, nat), KlvError>(e),
        },
{
    let ghost s = bytes@.skip(pos as int);
    let n = bytes.len();
    let mut acc: u64 = 0;
    let mut i: usize = 0;
    while i < MAX_TAG_BYTES
        invariant
            n == bytes@.len(),
            pos <= n,
            s == bytes@.skip(pos as int),
            i <= MAX_TAG_BYTES,
            pos + i <= n,
            acc as nat == tag_value(s.take(i as int)),
            acc < pow128(i as nat),
            spec_decode_tag(s) == spec_decode_tag_from(s, i as nat),
        decreases MAX_TAG_BYTES - i,
    {
        if pos + i >= n {
            assert(s.len() == i);
            return Err(KlvError::UnexpectedEndOfInput);
        }
        let b = bytes[pos + i];
        assert(s[i as int] == b);
        proof {
            lemma_pow128_le(i as nat, 4);
            assert(pow128(5) == 0x800000000) by {
                reveal_with_fuel(pow128, 6);
            }
            assert(pow128(4) == 0x10000000) by {
                reveal_with_fuel(pow128, 5);
            }
            lemma_tag_value_step(s, i as int);
        }
        acc = acc * 128 + (b % 128) as u64;
        i = i + 1;
        if b < 128 {
            return Ok((acc, i));
        }
    }
    Err(KlvError::InvalidTagEncoding)
}

} // verus!

