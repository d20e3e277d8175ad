//! The wire format of a sketch: each power sum as four bytes, most
//! significant first, then the count as two bytes, most significant first.
//! The table of inverses is not sent: the receiver builds it again.
use crate::arithmetic::field::modulus;
use crate::quack::QuackState;
use vstd::prelude::*;

verus! {

/// The four bytes of `v`, most significant first.
pub open spec fn be_bytes_u32(v: int) -> Seq<u8> {
    seq![
        ((v / 16777216) % 256) as u8,
        ((v / 65536) % 256) as u8,
        ((v / 256) % 256) as u8,
        (v % 256) as u8,
    ]
}

/// The two bytes of `v`, most significant first.
pub open spec fn be_bytes_u16(v: int) -> Seq<u8> {
    seq![((v / 256) % 256) as u8, (v % 256) as u8]
}

/// The number that four bytes stand for, most significant first.
pub open spec fn be_u32(bytes: Seq<u8>) -> int {
    bytes[0] * 16777216 + bytes[1] * 65536 + bytes[2] * 256 + bytes[3]
}

/// The number that two bytes stand for, most significant first.
pub open spec fn be_u16(bytes: Seq<u8>) -> int {
    bytes[0] * 256 + bytes[1]
}

/// The bytes of a sequence of power sums, four for each.
pub open spec fn sums_bytes(sums: Seq<int>) -> Seq<u8>
    decreases sums.len(),
{
    if sums.len() == 0 {
        Seq::empty()
    } else {
        sums_bytes(sums.drop_last()) + be_bytes_u32(sums.last())
    }
}

/// The bytes that a sketch is sent as: `4 * threshold + 2` of them.
pub open spec fn wire_bytes(s: QuackState) -> Seq<u8> {
    sums_bytes(s.power_sums) + be_bytes_u16(s.count)
}

/// The power sums that `bytes` hold, four bytes each, each reduced to a
/// field element.
pub open spec fn parse_sums(bytes: Seq<u8>) -> Seq<int> {
    Seq::new(bytes.len() / 4, |k: int| be_u32(bytes.subrange(4 * k, 4 * k + 4)) % modulus())
}

/// Whether `len` bytes can be a sketch: a whole number of power sums and a
/// count.
pub open spec fn is_wire_length(len: nat) -> bool {
    len >= 2 && (len - 2) % 4 == 0
}

/// The sketch that `bytes` stand for, if their number is that of a sketch.
pub open spec fn parse_wire(bytes: Seq<u8>) -> Option<QuackState> {
    if is_wire_length(bytes.len()) {
        Some(
            QuackState {
                power_sums: parse_sums(bytes.take(bytes.len() - 2)),
                count: be_u16(bytes.skip(bytes.len() - 2)),
            },
        )
    } else {
        None
    }
}

/// Four bytes made from a 32-bit number stand for that number.
pub proof fn lemma_be_u32_roundtrip(v: int)
    requires
        0 <= v < 0x1_0000_0000,
    ensures
        be_u32(be_bytes_u32(v)) == v,
{
    let b = be_bytes_u32(v);
    let q2 = v / 256;
    let q1 = v / 65536;
    let q0 = v / 16777216;
    assert(q1 == q2 / 256);
    assert(q0 == q1 / 256);
    assert(b[0] == q0 % 256 && b[1] == q1 % 256 && b[2] == q2 % 256 && b[3] == v % 256);
}

/// Two bytes made from a 16-bit number stand for that number.
pub proof fn lemma_be_u16_roundtrip(v: int)
    requires
        0 <= v < 65536,
    ensures
        be_u16(be_bytes_u16(v)) == v,
{
    let b = be_bytes_u16(v);
    assert(b[0] == (v / 256) % 256 && b[1] == v % 256);
}

/// The bytes of power sums are four for each, and each four are the bytes
/// of one power sum.
pub proof fn lemma_sums_bytes(sums: Seq<int>)
    ensures
        sums_bytes(sums).len() == 4 * sums.len(),
        forall|k: int|
            0 <= k < sums.len() ==> #[trigger] sums_bytes(sums).subrange(4 * k, 4 * k + 4)
                == be_bytes_u32(sums[k]),
    decreases sums.len(),
{
    if sums.len() > 0 {
        let rest = sums.drop_last();
        lemma_sums_bytes(rest);
        assert forall|k: int| 0 <= k < sums.len() implies #[trigger] sums_bytes(sums).subrange(
            4 * k,
            4 * k + 4,
        ) == be_bytes_u32(sums[k]) by {
            if k < rest.len() {
                assert(sums_bytes(sums).subrange(4 * k, 4 * k + 4) =~= sums_bytes(rest).subrange(
                    4 * k,
                    4 * k + 4,
                ));
            } else {
                assert(sums_bytes(sums).subrange(4 * k, 4 * k + 4) =~= be_bytes_u32(sums.last()));
            }
        }
    }
}

/// A sketch that is sent and received comes out as it went in: with the same
/// power sums and the same count.
pub proof fn lemma_wire_roundtrip(s: QuackState)
    requires
        s.wf(),
    ensures
        wire_bytes(s).len() == 4 * s.threshold() + 2,
        parse_wire(wire_bytes(s)) == Some(s),
{
    let bytes = wire_bytes(s);
    let body = sums_bytes(s.power_sums);
    lemma_sums_bytes(s.power_sums);
    assert(bytes.take(bytes.len() - 2) =~= body);
    assert(bytes.skip(bytes.len() - 2) =~= be_bytes_u16(s.count));
    assert forall|k: int| 0 <= k < s.power_sums.len() implies #[trigger] parse_sums(body)[k]
        == s.power_sums[k] by {
        assert(body.subrange(4 * k, 4 * k + 4) == be_bytes_u32(s.power_sums[k]));
        lemma_be_u32_roundtrip(s.power_sums[k]);
    }
    lemma_be_u16_roundtrip(s.count);
    assert(parse_sums(body) =~= s.power_sums);
}

} // verus!
