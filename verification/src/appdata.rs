//! Obfuscation of the hidden application-data files (settings and ledger).
//!
//! This is obfuscation, not encryption — it deters casual viewing/tampering, nothing
//! more: each byte is XORed with a fixed key, repeated.

use vstd::prelude::*;

verus! {

/// Length of the obfuscation key.
pub const OBFS_KEY_LEN: usize = 36;

/// The repeating key, `px-amrcn-2026-ledger-obfuscation-key` as bytes.
pub open spec fn obfs_key() -> Seq<u8> {
    seq![0x70, 0x78, 0x2d, 0x61, 0x6d, 0x72, 0x63, 0x6e, 0x2d, 0x32, 0x30, 0x32, 0x36, 0x2d, 0x6c, 0x65, 0x64, 0x67, 0x65, 0x72, 0x2d, 0x6f, 0x62, 0x66, 0x75, 0x73, 0x63, 0x61, 0x74, 0x69, 0x6f, 0x6e, 0x2d, 0x6b, 0x65, 0x79]
}

/// `data` with byte `i` XORed with key byte `i mod len`.
pub open spec fn obfuscated(data: Seq<u8>) -> Seq<u8> {
    Seq::new(data.len(), |i: int| data[i] ^ obfs_key()[i % (OBFS_KEY_LEN as int)])
}

/// Reversible, non-cryptographic byte obfuscation so files aren't human-readable.
pub fn obfuscate(data: &mut Vec<u8>)
    ensures
        final(data)@ == obfuscated(old(data)@),
{
    let key: [u8; OBFS_KEY_LEN] = [0x70, 0x78, 0x2d, 0x61, 0x6d, 0x72, 0x63, 0x6e, 0x2d, 0x32, 0x30, 0x32, 0x36, 0x2d, 0x6c, 0x65, 0x64, 0x67, 0x65, 0x72, 0x2d, 0x6f, 0x62, 0x66, 0x75, 0x73, 0x63, 0x61, 0x74, 0x69, 0x6f, 0x6e, 0x2d, 0x6b, 0x65, 0x79];
    proof {
        assert(key@ =~= obfs_key());
    }
    let n = data.len();
    let mut i: usize = 0;
    while i < n
        invariant
            n == data@.len(),
            n == old(data)@.len(),
            key@ == obfs_key(),
            i <= n,
            forall|j: int| 0 <= j < i ==> data@[j] == old(data)@[j] ^ obfs_key()[j % (OBFS_KEY_LEN as int)],
            forall|j: int| i <= j < n ==> data@[j] == old(data)@[j],
        decreases n - i,
    {
        let k = key[i % OBFS_KEY_LEN];
        let b = data[i] ^ k;
        data.set(i, b);
        i = i + 1;
    }
    proof {
        assert(data@ =~= obfuscated(old(data)@));
    }
}

/// Obfuscating twice gives back the bytes it started from: what is written is read back.
pub proof fn law_obfuscation_round_trip(data: Seq<u8>)
    ensures
        obfuscated(obfuscated(data)) == data,
{
    assert forall|i: int| 0 <= i < data.len() implies obfuscated(obfuscated(data))[i] == data[i] by {
        let k = obfs_key()[i % (OBFS_KEY_LEN as int)];
        let b = data[i];
        assert((b ^ k) ^ k == b) by (bit_vector);
    }
    assert(obfuscated(obfuscated(data)) =~= data);
}

} // verus!
