//! The image of the root task and its integrity.
//!
//! The image travels with the kernel, together with its hash. An image that does not
//! have the hash is refused.
use vstd::prelude::*;

use crate::boot::sha256;

verus! {

/// What a segment of the image is for.
#[derive(Clone, Copy, Debug, PartialEq, Eq, Structural)]
pub enum RtSegKind {
    Text,
    Ro,
    Rw,
}

/// A segment of the image.
#[derive(Clone, Copy, Debug, PartialEq, Eq, Structural)]
pub struct RtSegment {
    pub va: u64,
    pub memsz: u64,
    pub kind: RtSegKind,
}

/// The image of the root task, as it was built.
pub struct RootTask<'a> {
    pub image: &'a [u8],
    pub sha256: [u8; 32],
    pub base: u64,
    pub entry: u64,
    pub segments: &'a [RtSegment],
}

/// An image that has the hash it was built with.
pub struct VerifiedRootTask<'a> {
    pub image: &'a [u8],
    pub sha256: [u8; 32],
    pub base: u64,
    pub entry: u64,
    pub segments: &'a [RtSegment],
}

/// Why an image was refused.
#[derive(Clone, Copy, Debug, PartialEq, Eq, Structural)]
pub enum VerifyError {
    HashMismatch,
}

impl<'a> VerifiedRootTask<'a> {
    /// Whether this is the image `rt`, with its hash.
    pub open spec fn is(&self, rt: &RootTask) -> bool {
        &&& self.image@ == rt.image@
        &&& self.sha256@ == rt.sha256@
        &&& self.base == rt.base
        &&& self.entry == rt.entry
        &&& self.segments@ == rt.segments@
    }
}

/// Accepts an image whose hash is `hash`, if that is the hash it was built with.
pub fn accept_root_task<'a>(rt: &RootTask<'a>, hash: [u8; 32]) -> (r: Result<
    VerifiedRootTask<'a>,
    VerifyError,
>)
    ensures
        match r {
            Ok(v) => hash@ == rt.sha256@ && v.is(rt),
            Err(e) => hash@ != rt.sha256@ && e == VerifyError::HashMismatch,
        },
{
    let mut i: usize = 0;
    while i < 32
        invariant
            i <= 32,
            forall|j: int| 0 <= j < i ==> hash@[j] == rt.sha256@[j],
        decreases 32 - i,
    {
        if hash[i] != rt.sha256[i] {
            assert(hash@[i as int] != rt.sha256@[i as int]);
            return Err(VerifyError::HashMismatch);
        }
        i += 1;
    }
    assert(hash@ =~= rt.sha256@);
    Ok(
        VerifiedRootTask {
            image: rt.image,
            sha256: hash,
            base: rt.base,
            entry: rt.entry,
            segments: rt.segments,
        },
    )
}

/// Checks the integrity of the image of the root task.
pub fn verify_root_task<'a>(rt: &RootTask<'a>) -> (r: Result<VerifiedRootTask<'a>, VerifyError>)
    ensures
        match r {
            Ok(v) => sha256::sha256(rt.image@) == rt.sha256@ && v.is(rt),
            Err(e) => sha256::sha256(rt.image@) != rt.sha256@ && e == VerifyError::HashMismatch,
        },
{
    let hash = sha256::digest(rt.image);
    accept_root_task(rt, hash)
}

} // verus!
