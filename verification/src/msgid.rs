//! Content-addressed message identity.
//!
//! The dissemination layer suppresses redundant redelivery by message
//! identifier. The identifier is a hash of the raw payload bytes alone, so
//! two payload-identical messages collapse to one identifier no matter
//! which peer sent them or when.
use vstd::prelude::*;
use crate::codec::spec_encode;
use crate::message::ChatMessageModel;

verus! {

/// Offset basis of the 64-bit FNV-1a hash.
pub const FNV_OFFSET: u64 = 0xcbf2_9ce4_8422_2325;

/// Prime of the 64-bit FNV-1a hash.
pub const FNV_PRIME: u64 = 0x100_0000_01b3;

/// One hash step: fold a byte in, then multiply by the prime modulo 2^64.
pub open spec fn fnv1a_step(h: u64, byte: u8) -> u64 {
    ((((h ^ byte as u64) as nat) * (FNV_PRIME as nat)) % 0x1_0000_0000_0000_0000) as u64
}

/// The 64-bit FNV-1a hash of a byte sequence.
pub open spec fn fnv1a(s: Seq<u8>) -> u64
    decreases s.len(),
{
    if s.len() == 0 {
        FNV_OFFSET
    } else {
        fnv1a_step(fnv1a(s.drop_last()), s.last())
    }
}

/// The identifier a message travels under: the content hash of its wire
/// bytes, independent of sender identity and arrival time.
pub open spec fn message_id_of(m: ChatMessageModel) -> u64 {
    fnv1a(spec_encode(m))
}

/// Computes the content hash of a raw payload.
pub fn payload_id(data: &[u8]) -> (r: u64)
    ensures
        r == fnv1a(data@),
{
    let mut h: u64 = FNV_OFFSET;
    let mut k: usize = 0;
    proof {
        assert(data@.subrange(0, 0) =~= Seq::<u8>::empty());
    }
    while k < data.len()
        invariant
            k <= data@.len(),
            h == fnv1a(data@.subrange(0, k as int)),
        decreases data@.len() - k,
    {
        let x: u64 = h ^ (data[k] as u64);
        let prod: u128 = (x as u128) * (FNV_PRIME as u128);
        h = (prod % 0x1_0000_0000_0000_0000u128) as u64;
        proof {
            let s1 = data@.subrange(0, k as int + 1);
            assert(s1.drop_last() =~= data@.subrange(0, k as int));
            assert(s1.last() == data@[k as int]);
        }
        k = k + 1;
    }
    proof {
        assert(data@.subrange(0, data@.len() as int) =~= data@);
    }
    h
}

/// Law (determinism): two messages with the same content, nickname and
/// timestamp get the same identifier, whichever session built them: the
/// identifier is a function of the three fields and nothing else.
pub proof fn lemma_id_deterministic(a: ChatMessageModel, b: ChatMessageModel)
    requires
        a.content == b.content,
        a.nickname == b.nickname,
        a.timestamp == b.timestamp,
    ensures
        message_id_of(a) == message_id_of(b),
{
    assert(a =~= b);
}

} // verus!
