//! Protobuf wire encoding of the messages exchanged with the devices.
//!
//! Varints are written and read by prost; the framing of each message
//! (keys, lengths, field order) is stated and proved here.
use vstd::prelude::*;
use vstd::slice::{slice_subrange, slice_to_vec};

verus! {

/// LEB128 encoding of `v`: seven bits per byte, low bits first, high bit set
/// on every byte but the last.
pub open spec fn leb_bytes(v: nat) -> Seq<u8>
    decreases v,
{
    if v < 128 {
        seq![v as u8]
    } else {
        seq![(v % 128 + 128) as u8] + leb_bytes(v / 128)
    }
}

/// What reading a varint at the start of `s` yields, `count` bytes having
/// been read before: its value and the number of bytes it takes. At most ten
/// bytes are read, and a tenth byte may only hold the top bit of a `u64`.
pub open spec fn leb_parse(s: Seq<u8>, count: nat) -> Option<(nat, nat)>
    decreases 10 - count,
{
    if count >= 10 || s.len() == 0 {
        None
    } else if s[0] < 128 {
        if count == 9 && s[0] >= 2 {
            None
        } else {
            Some((s[0] as nat, 1))
        }
    } else {
        match leb_parse(s.drop_first(), count + 1) {
            Some((v, n)) => Some((((s[0] - 128) + 128 * v) as nat, n + 1)),
            None => None,
        }
    }
}

/// A varint field: omitted when it holds zero, as proto3 does.
pub open spec fn uint_field(tag: nat, v: nat) -> Seq<u8> {
    if v == 0 {
        seq![]
    } else {
        leb_bytes(tag * 8) + leb_bytes(v)
    }
}

/// A length-delimited field.
pub open spec fn bytes_field(tag: nat, b: Seq<u8>) -> Seq<u8> {
    leb_bytes(tag * 8 + 2) + leb_bytes(b.len()) + b
}

/// The varints of `s`, one after another.
pub open spec fn packed(s: Seq<u32>) -> Seq<u8>
    decreases s.len(),
{
    if s.len() == 0 {
        seq![]
    } else {
        packed(s.drop_last()) + leb_bytes(s.last() as nat)
    }
}

/// The first-round message of key generation:
/// `{ index = 1, parties = 2, threshold = 3 }`, all `uint32`.
pub open spec fn keygen_init_bytes(index: nat, parties: nat, threshold: nat) -> Seq<u8> {
    uint_field(1, index) + uint_field(2, parties) + uint_field(3, threshold)
}

/// The first-round message of signing:
/// `{ repeated uint32 indices = 1 (packed), uint32 index = 2, bytes hash = 3 }`.
pub open spec fn sign_init_bytes(indices: Seq<u32>, index: nat, hash: Seq<u8>) -> Seq<u8> {
    (if indices.len() == 0 {
        seq![]
    } else {
        bytes_field(1, packed(indices))
    }) + uint_field(2, index) + (if hash.len() == 0 {
        seq![]
    } else {
        bytes_field(3, hash)
    })
}

/// The round envelope `{ repeated bytes message = 1 }` holding `ms` in order.
pub open spec fn envelope_bytes(ms: Seq<Seq<u8>>) -> Seq<u8>
    decreases ms.len(),
{
    if ms.len() == 0 {
        seq![]
    } else {
        envelope_bytes(ms.drop_last()) + bytes_field(1, ms.last())
    }
}

/// The key of field 1 with the length-delimited wire type.
pub open spec fn envelope_key() -> nat {
    10
}

/// What an envelope decodes to: a run of field-1 length-delimited records,
/// and nothing else.
pub open spec fn parse_envelope(s: Seq<u8>) -> Option<Seq<Seq<u8>>>
    decreases s.len(),
{
    if s.len() == 0 {
        Some(seq![])
    } else {
        match leb_parse(s, 0) {
            None => None,
            Some((key, k)) => {
                if key != envelope_key() || k == 0 {
                    None
                } else {
                    match leb_parse(s.skip(k as int), 0) {
                        None => None,
                        Some((len, m)) => {
                            if k + m + len > s.len() {
                                None
                            } else {
                                match parse_envelope(s.skip((k + m + len) as int)) {
                                    None => None,
                                    Some(rest) => Some(
                                        seq![s.subrange((k + m) as int, (k + m + len) as int)] + rest,
                                    ),
                                }
                            }
                        }
                    }
                }
            }
        }
    }
}

/// The values that a varint read after `count` bytes can still hold: a
/// `u64` in all.
pub open spec fn leb_bound(count: nat) -> nat
    decreases 9 - count,
{
    if count >= 9 {
        2
    } else {
        128 * leb_bound(count + 1)
    }
}

/// Reading back the LEB128 bytes of a value yields the value and their
/// length, whatever follows them.
pub proof fn lemma_leb_round_trip(v: nat, rest: Seq<u8>, count: nat)
    requires
        count <= 9,
        v < leb_bound(count),
    ensures
        leb_parse(leb_bytes(v) + rest, count) == Some((v, leb_bytes(v).len())),
    decreases v,
{
    let s = leb_bytes(v) + rest;
    if v >= 128 {
        assert(count < 9);
        assert(v / 128 < leb_bound(count + 1)) by (nonlinear_arith)
            requires
                v < 128 * leb_bound(count + 1),
        ;
        lemma_leb_round_trip(v / 128, rest, count + 1);
        assert(s.drop_first() =~= leb_bytes(v / 128) + rest);
        assert(v % 128 + 128 * (v / 128) == v) by (nonlinear_arith);
    }
}

/// `envelope_bytes` read from the front: the first record, then the rest.
proof fn lemma_envelope_front(ms: Seq<Seq<u8>>)
    requires
        ms.len() > 0,
    ensures
        envelope_bytes(ms) == bytes_field(1, ms[0]) + envelope_bytes(ms.drop_first()),
    decreases ms.len(),
{
    if ms.len() > 1 {
        lemma_envelope_front(ms.drop_last());
        assert(ms.drop_last().drop_first() =~= ms.drop_first().drop_last());
        assert(ms.drop_last()[0] == ms[0]);
        assert(ms.drop_first().last() == ms.last());
    } else {
        assert(ms.drop_last() =~= Seq::<Seq<u8>>::empty());
        assert(ms.drop_first() =~= Seq::<Seq<u8>>::empty());
    }
}

/// Decoding an encoded envelope gives back its messages, each no longer
/// than a `u64` can count.
pub proof fn law_envelope_round_trip(ms: Seq<Seq<u8>>)
    requires
        forall|i: int| 0 <= i < ms.len() ==> #[trigger] ms[i].len() <= u64::MAX,
    ensures
        parse_envelope(envelope_bytes(ms)) == Some(ms),
    decreases ms.len(),
{
    assert(leb_bound(0) == 0x1_0000_0000_0000_0000) by {
        reveal_with_fuel(leb_bound, 10);
    }
    if ms.len() == 0 {
    } else {
        let m = ms[0];
        let tail = ms.drop_first();
        lemma_envelope_front(ms);
        law_envelope_round_trip(tail);
        let rest = envelope_bytes(tail);
        let s = envelope_bytes(ms);
        let after_key = leb_bytes(m.len()) + m + rest;
        assert(s =~= leb_bytes(10) + after_key);
        lemma_leb_round_trip(10, after_key, 0);
        assert(leb_bytes(10) =~= seq![10u8]);
        assert(s.skip(1) =~= leb_bytes(m.len()) + (m + rest));
        lemma_leb_round_trip(m.len(), m + rest, 0);
        let k: int = leb_bytes(m.len()).len() as int;
        assert(s.subrange(1 + k, 1 + k + m.len() as int) =~= m);
        assert(s.skip(1 + k + m.len() as int) =~= rest);
        assert(seq![m] + tail =~= ms);
    }
}

/// Relies on prost::encoding::encode_varint: it appends the LEB128 bytes of
/// the value (at most ten, which a `u64` never exceeds) to a `Vec`.
#[verifier::external_body]
fn put_varint(v: u64, buf: &mut Vec<u8>)
    ensures
        final(buf)@ == old(buf)@ + leb_bytes(v as nat),
{
    prost::encoding::encode_varint(v, buf)
}

/// Relies on prost::encoding::decode_varint: reading a slice, it succeeds
/// exactly when the slice starts with a varint of at most ten bytes that fits
/// a `u64`, and advances past it. Returns the value and what is left.
#[verifier::external_body]
fn read_varint(buf: &[u8]) -> (r: Option<(u64, usize)>)
    ensures
        r is None <==> leb_parse(buf@, 0) is None,
        r matches Some((v, rest)) ==> rest <= buf@.len() && leb_parse(buf@, 0) == Some(
            (v as nat, (buf@.len() - rest) as nat),
        ),
{
    let mut rest: &[u8] = buf;
    match prost::encoding::decode_varint(&mut rest) {
        Ok(v) => Some((v, rest.len())),
        Err(_) => None,
    }
}

/// A varint takes at least one byte and no more than the input holds.
pub proof fn lemma_leb_parse_len(s: Seq<u8>, count: nat)
    ensures
        leb_parse(s, count) matches Some((v, n)) ==> 1 <= n <= s.len(),
    decreases 10 - count,
{
    if count < 10 && s.len() > 0 && s[0] >= 128 {
        lemma_leb_parse_len(s.drop_first(), count + 1);
    }
}

fn put_bytes_field(tag: u64, b: &[u8], out: &mut Vec<u8>)
    requires
        tag <= 1000,
    ensures
        final(out)@ == old(out)@ + bytes_field(tag as nat, b@),
{
    put_varint(tag * 8 + 2, out);
    put_varint(b.len() as u64, out);
    out.extend_from_slice(b);
}

fn put_uint_field(tag: u64, v: u32, out: &mut Vec<u8>)
    requires
        tag <= 1000,
    ensures
        final(out)@ == old(out)@ + uint_field(tag as nat, v as nat),
{
    if v != 0 {
        put_varint(tag * 8, out);
        put_varint(v as u64, out);
    }
    assert(final(out)@ =~= old(out)@ + uint_field(tag as nat, v as nat));
}

/// Encodes the first-round message of key generation.
pub fn encode_keygen_init(index: u32, parties: u32, threshold: u32) -> (r: Vec<u8>)
    ensures
        r@ == keygen_init_bytes(index as nat, parties as nat, threshold as nat),
{
    let mut out: Vec<u8> = Vec::new();
    put_uint_field(1, index, &mut out);
    put_uint_field(2, parties, &mut out);
    put_uint_field(3, threshold, &mut out);
    assert(out@ =~= keygen_init_bytes(index as nat, parties as nat, threshold as nat));
    out
}

/// Encodes the first-round message of signing.
pub fn encode_sign_init(indices: &Vec<u32>, index: u32, hash: &Vec<u8>) -> (r: Vec<u8>)
    ensures
        r@ == sign_init_bytes(indices@, index as nat, hash@),
{
    let mut list: Vec<u8> = Vec::new();
    for i in 0..indices.len()
        invariant
            list@ == packed(indices@.take(i as int)),
    {
        put_varint(indices[i] as u64, &mut list);
        assert(indices@.take(i + 1).drop_last() =~= indices@.take(i as int));
    }
    assert(indices@.take(indices.len() as int) =~= indices@);
    let mut out: Vec<u8> = Vec::new();
    if indices.len() > 0 {
        put_bytes_field(1, list.as_slice(), &mut out);
    }
    put_uint_field(2, index, &mut out);
    if hash.len() > 0 {
        put_bytes_field(3, hash.as_slice(), &mut out);
    }
    assert(out@ =~= sign_init_bytes(indices@, index as nat, hash@));
    out
}

/// Encodes a round envelope holding `ms` in order.
pub fn encode_envelope(ms: &Vec<Vec<u8>>) -> (r: Vec<u8>)
    ensures
        r@ == envelope_bytes(ms.deep_view()),
{
    let mut out: Vec<u8> = Vec::new();
    for i in 0..ms.len()
        invariant
            out@ == envelope_bytes(ms.deep_view().take(i as int)),
    {
        put_bytes_field(1, ms[i].as_slice(), &mut out);
        assert(ms.deep_view().take(i + 1).drop_last() =~= ms.deep_view().take(i as int));
    }
    assert(ms.deep_view().take(ms.len() as int) =~= ms.deep_view());
    out
}

/// Decodes a round envelope; `None` when `data` is not one.
pub fn decode_envelope(data: &[u8]) -> (r: Option<Vec<Vec<u8>>>)
    ensures
        match r {
            Some(v) => parse_envelope(data@) == Some(v.deep_view()),
            None => parse_envelope(data@) is None,
        },
{
    let mut out: Vec<Vec<u8>> = Vec::new();
    let mut pos: usize = 0;
    assert(data@.skip(0) =~= data@);
    proof {
        if let Some(rest) = parse_envelope(data@) {
            assert(out.deep_view() + rest =~= rest);
        }
    }
    while pos < data.len()
        invariant
            pos <= data@.len(),
            parse_envelope(data@) == match parse_envelope(data@.skip(pos as int)) {
                Some(rest) => Some(out.deep_view() + rest),
                None => None,
            },
        decreases data@.len() - pos,
    {
        let ghost s = data@.skip(pos as int);
        let (key, rest1) = match read_varint(slice_subrange(data, pos, data.len())) {
            Some(x) => x,
            None => {
                assert(data@.subrange(pos as int, data@.len() as int) =~= s);
                return None;
            },
        };
        assert(data@.subrange(pos as int, data@.len() as int) =~= s);
        proof {
            lemma_leb_parse_len(s, 0);
        }
        if key != 10 {
            return None;
        }
        let start1: usize = data.len() - rest1;
        assert(s.skip((start1 - pos) as int) =~= data@.skip(start1 as int));
        let (len, rest2) = match read_varint(slice_subrange(data, start1, data.len())) {
            Some(x) => x,
            None => {
                assert(data@.subrange(start1 as int, data@.len() as int) =~= data@.skip(start1 as int));
                return None;
            },
        };
        assert(data@.subrange(start1 as int, data@.len() as int) =~= data@.skip(start1 as int));
        proof {
            lemma_leb_parse_len(data@.skip(start1 as int), 0);
        }
        if len > rest2 as u64 {
            return None;
        }
        let start2: usize = data.len() - rest2;
        let end: usize = start2 + len as usize;
        let item: Vec<u8> = slice_to_vec(slice_subrange(data, start2, end));
        assert(s.skip((end - pos) as int) =~= data@.skip(end as int));
        assert(item@ =~= s.subrange((start2 - pos) as int, (end - pos) as int));
        let ghost old_out = out.deep_view();
        out.push(item);
        proof {
            assert(out.deep_view()[out.len() - 1] =~= item@);
            assert(out.deep_view() =~= old_out.push(item@));
            match parse_envelope(data@.skip(end as int)) {
                Some(rest) => {
                    assert(old_out + (seq![item@] + rest) =~= out.deep_view() + rest);
                },
                None => {},
            }
        }
        pos = end;
    }
    assert(data@.skip(pos as int) =~= Seq::<u8>::empty());
    assert(out.deep_view() + Seq::<Seq<u8>>::empty() =~= out.deep_view());
    Some(out)
}

} // verus!
