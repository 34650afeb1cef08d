//! Byte sequences: writing one into another, and addresses as the target
//! reads them.

use vstd::prelude::*;

verus! {

/// `bytes` with `data` written over it from `offset` on; what falls outside
/// `bytes` is dropped.
pub open spec fn write_at(bytes: Seq<u8>, offset: int, data: Seq<u8>) -> Seq<u8> {
    Seq::new(
        bytes.len(),
        |i: int|
            if offset <= i < offset + data.len() {
                data[i - offset]
            } else {
                bytes[i]
            },
    )
}

/// The four bytes of `value`, most significant first.
pub open spec fn be_bytes(value: u32) -> Seq<u8> {
    seq![
        (value / 0x100_0000) as u8,
        (value / 0x1_0000 % 0x100) as u8,
        (value / 0x100 % 0x100) as u8,
        (value % 0x100) as u8,
    ]
}

/// The four bytes of `value`, most significant first.
pub fn be_bytes_of(value: u32) -> (r: Vec<u8>)
    ensures
        r@ == be_bytes(value),
{
    let mut r: Vec<u8> = Vec::new();
    r.push((value / 0x100_0000) as u8);
    r.push((value / 0x1_0000 % 0x100) as u8);
    r.push((value / 0x100 % 0x100) as u8);
    r.push((value % 0x100) as u8);
    r
}

/// A copy of `bytes`.
pub fn copy_of(bytes: &[u8]) -> (r: Vec<u8>)
    ensures
        r@ == bytes@,
{
    let mut r: Vec<u8> = Vec::new();
    let mut i: usize = 0;
    while i < bytes.len()
        invariant
            i <= bytes@.len(),
            r@ == bytes@.take(i as int),
        decreases bytes@.len() - i,
    {
        r.push(bytes[i]);
        i += 1;
    }
    r
}

/// Writes `data` over `target` from `offset` on.
pub(crate) fn overwrite(target: &mut Vec<u8>, offset: usize, data: &[u8])
    requires
        offset + data@.len() <= old(target)@.len(),
    ensures
        final(target)@ == write_at(old(target)@, offset as int, data@),
{
    let len: usize = target.len();
    let mut i: usize = 0;
    while i < data.len()
        invariant
            i <= data@.len(),
            target@.len() == len,
            offset + data@.len() <= target@.len(),
            target@ == write_at(old(target)@, offset as int, data@.take(i as int)),
        decreases data@.len() - i,
    {
        target.set(offset + i, data[i]);
        i += 1;
    }
    assert(data@.take(data@.len() as int) == data@);
}

} // verus!
