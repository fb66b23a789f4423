//! Little-endian framing of unsigned integers for the on-disk envelope.

use vstd::prelude::*;
use vstd::bytes::{spec_u64_to_le_bytes, u64_from_le_bytes, u64_to_le_bytes};

verus! {

/// The eight little-endian bytes of a non-negative integer.
pub open spec fn enc_u64(x: int) -> Seq<u8> {
    spec_u64_to_le_bytes(x as u64)
}

/// The concatenated eight-byte frames of an integer sequence.
pub open spec fn enc_ints(s: Seq<int>) -> Seq<u8>
    decreases s.len(),
{
    if s.len() == 0 {
        Seq::<u8>::empty()
    } else {
        enc_ints(s.drop_last()) + enc_u64(s.last())
    }
}

/// The concatenated length-prefixed byte strings of a list.
pub open spec fn enc_bytes_list(ts: Seq<Seq<u8>>) -> Seq<u8>
    decreases ts.len(),
{
    if ts.len() == 0 {
        Seq::<u8>::empty()
    } else {
        enc_bytes_list(ts.drop_last()) + enc_u64(ts.last().len() as int) + ts.last()
    }
}

/// Appends one integer's eight-byte frame.
pub fn write_u64(out: &mut Vec<u8>, x: u64)
    ensures
        final(out)@ == old(out)@ + enc_u64(x as int),
{
    let mut b = u64_to_le_bytes(x);
    out.append(&mut b);
}

/// Reads one integer's eight-byte frame at `pos`.
pub fn read_u64(bytes: &[u8], pos: usize) -> (r: Option<(u64, usize)>)
    ensures
        match r {
            Some((x, np)) => pos + 8 <= bytes@.len() && np == pos + 8 && enc_u64(x as int)
                == bytes@.subrange(pos as int, pos + 8),
            None => pos + 8 > bytes@.len(),
        },
{
    if bytes.len() < 8 || pos > bytes.len() - 8 {
        return None;
    }
    let s = vstd::slice::slice_subrange(bytes, pos, pos + 8);
    let x = u64_from_le_bytes(s);
    proof {
        vstd::bytes::lemma_auto_spec_u64_to_from_le_bytes();
        assert(enc_u64(x as int) == spec_u64_to_le_bytes(x));
    }
    Some((x, pos + 8))
}

/// Reads an integer that must fit the machine word.
pub fn read_len(bytes: &[u8], pos: usize) -> (r: Option<(usize, usize)>)
    ensures
        match r {
            Some((x, np)) => pos + 8 <= bytes@.len() && np == pos + 8 && enc_u64(x as int)
                == bytes@.subrange(pos as int, pos + 8),
            None => true,
        },
{
    match read_u64(bytes, pos) {
        Some((x, np)) => {
            if x > usize::MAX as u64 {
                return None;
            }
            proof {
                assert(x as usize as int == x as int);
            }
            Some((x as usize, np))
        },
        None => None,
    }
}

} // verus!
