//! The magic sequence that every unconnected packet holds.
use bytes::BytesMut;
use vstd::prelude::*;

use crate::buf::{advance, chunk, put_slice, Contents};
use crate::errors::CodecError;

verus! {

/// A sequence of bytes that is found in every unconnected packet.
pub const MAGIC: [u8; 16] = [
    0x00, 0xff, 0xff, 0x00, 0xfe, 0xfe, 0xfe, 0xfe, 0xfd, 0xfd, 0xfd, 0xfd, 0x12, 0x34, 0x56, 0x78,
];

/// Where `s` first differs from the magic sequence, looking from position `i` on; 16 where it
/// does not.
pub open spec fn magic_mismatch(s: Seq<u8>, i: int) -> int
    decreases 16 - i,
{
    if i >= 16 {
        16
    } else if s[i] != MAGIC[i] {
        i
    } else {
        magic_mismatch(s, i + 1)
    }
}

/// The verdict on the 16 bytes of `s` that start at `at`.
pub open spec fn check_magic(s: Seq<u8>, at: int) -> Result<(), CodecError> {
    let found = s.subrange(at, at + 16);
    let i = magic_mismatch(found, 0);
    if i == 16 {
        Ok(())
    } else {
        Err(CodecError::MagicNotMatched(i as usize, found[i]))
    }
}

/// Takes the magic sequence off the front of `buf`, if it stands there.
pub(crate) fn get_checked_magic(buf: &mut BytesMut) -> (r: Result<(), CodecError>)
    requires
        old(buf).seq().len() >= 16,
    ensures
        r == check_magic(old(buf).seq(), 0),
        r is Ok ==> final(buf).seq() == old(buf).seq().skip(16),
        r is Err ==> final(buf).seq() == old(buf).seq(),
{
    let ghost found = buf.seq().subrange(0, 16);
    let mut i: usize = 0;
    while i < 16
        invariant
            i <= 16,
            buf.seq() == old(buf).seq(),
            buf.seq().len() >= 16,
            found == buf.seq().subrange(0, 16),
            magic_mismatch(found, 0) == magic_mismatch(found, i as int),
        decreases 16 - i,
    {
        let byte: u8 = chunk(buf)[i];
        assert(byte == found[i as int]);
        if byte != MAGIC[i] {
            return Err(CodecError::MagicNotMatched(i, byte));
        }
        i = i + 1;
    }
    advance(buf, 16);
    Ok(())
}

/// Appends the magic sequence to `buf`.
pub(crate) fn put_magic(buf: &mut BytesMut)
    ensures
        final(buf).seq() == old(buf).seq() + MAGIC@,
{
    put_slice(buf, &MAGIC);
}

proof fn lemma_mismatch_of_magic(s: Seq<u8>, i: int)
    requires
        s == MAGIC@,
        0 <= i <= 16,
    ensures
        magic_mismatch(s, i) == 16,
    decreases 16 - i,
{
    if i < 16 {
        lemma_mismatch_of_magic(s, i + 1);
    }
}

/// The magic sequence passes its own check wherever it stands.
pub proof fn lemma_magic_accepted(s: Seq<u8>, at: int)
    requires
        0 <= at,
        at + 16 <= s.len(),
        s.subrange(at, at + 16) == MAGIC@,
    ensures
        check_magic(s, at) == Ok::<(), CodecError>(()),
{
    lemma_mismatch_of_magic(s.subrange(at, at + 16), 0);
}

proof fn lemma_no_mismatch(s: Seq<u8>, i: int)
    requires
        s.len() == 16,
        0 <= i <= 16,
        magic_mismatch(s, i) == 16,
    ensures
        forall|j: int| i <= j < 16 ==> s[j] == MAGIC[j],
    decreases 16 - i,
{
    if i < 16 {
        lemma_no_mismatch(s, i + 1);
    }
}

/// Only the magic sequence passes the check.
pub proof fn lemma_magic_only(s: Seq<u8>, at: int)
    requires
        0 <= at,
        at + 16 <= s.len(),
        check_magic(s, at) is Ok,
    ensures
        s.subrange(at, at + 16) == MAGIC@,
{
    lemma_no_mismatch(s.subrange(at, at + 16), 0);
    assert(s.subrange(at, at + 16) =~= MAGIC@);
}

} // verus!
