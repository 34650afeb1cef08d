//! What holds of every application of patches.

use vstd::prelude::*;
use crate::patch::{
    PatchErrorView, ResolvedPatchView, applies_as, clash, covers, describes, in_bounds, offset_of,
    patched, sound,
};

verus! {

/// The outcome of an application is determined by the image, the patches
/// and their offsets.
pub proof fn lemma_application_is_determined(
    image: Seq<u8>,
    patches: Seq<ResolvedPatchView>,
    offsets: Seq<Option<usize>>,
    first: Result<Seq<u8>, PatchErrorView>,
    second: Result<Seq<u8>, PatchErrorView>,
)
    requires
        applies_as(image, patches, offsets, first),
        applies_as(image, patches, offsets, second),
    ensures
        first == second,
{
    let size = image.len() as int;
    match (first, second) {
        (Ok(a), Ok(b)) => {
            assert forall|p: int| 0 <= p < a.len() implies a[p] == b[p] by {
                if exists|i: int| 0 <= i < patches.len() && covers(patches, offsets, i, p) {
                    let i = choose|i: int| 0 <= i < patches.len() && covers(patches, offsets, i, p);
                    assert(a[p] == patches[i].bytes[p - offset_of(offsets, i).unwrap()]);
                    assert(b[p] == patches[i].bytes[p - offset_of(offsets, i).unwrap()]);
                } else {
                    assert(a[p] == image[p]);
                    assert(b[p] == image[p]);
                }
            }
            assert(a == b);
        },
        (Ok(_), Err(_)) => {
            let i = choose|i: int|
                {
                    &&& 0 <= i < patches.len()
                    &&& !#[trigger] sound(size, patches, offsets, i)
                    &&& forall|k: int| 0 <= k < i ==> #[trigger] sound(size, patches, offsets, k)
                    &&& describes(size, patches, offsets, i, second->Err_0)
                };
            assert(sound(size, patches, offsets, i));
        },
        (Err(_), Ok(_)) => {
            let i = choose|i: int|
                {
                    &&& 0 <= i < patches.len()
                    &&& !#[trigger] sound(size, patches, offsets, i)
                    &&& forall|k: int| 0 <= k < i ==> #[trigger] sound(size, patches, offsets, k)
                    &&& describes(size, patches, offsets, i, first->Err_0)
                };
            assert(sound(size, patches, offsets, i));
        },
        (Err(x), Err(y)) => {
            let i = choose|i: int|
                {
                    &&& 0 <= i < patches.len()
                    &&& !#[trigger] sound(size, patches, offsets, i)
                    &&& forall|k: int| 0 <= k < i ==> #[trigger] sound(size, patches, offsets, k)
                    &&& describes(size, patches, offsets, i, x)
                };
            let j = choose|j: int|
                {
                    &&& 0 <= j < patches.len()
                    &&& !#[trigger] sound(size, patches, offsets, j)
                    &&& forall|k: int| 0 <= k < j ==> #[trigger] sound(size, patches, offsets, k)
                    &&& describes(size, patches, offsets, j, y)
                };
            if i < j {
                assert(sound(size, patches, offsets, i));
            }
            if j < i {
                assert(sound(size, patches, offsets, j));
            }
            assert(i == j);
            if in_bounds(size, patches, offsets, i) {
                let a = choose|a: int|
                    {
                        &&& 0 <= a < i
                        &&& #[trigger] clash(patches, offsets, i, a)
                        &&& forall|k: int| 0 <= k < a ==> !#[trigger] clash(patches, offsets, i, k)
                        &&& x == (PatchErrorView::OverlappingPatch {
                            symbol_a: patches[a].source_symbol,
                            symbol_b: patches[i].source_symbol,
                        })
                    };
                let b = choose|b: int|
                    {
                        &&& 0 <= b < i
                        &&& #[trigger] clash(patches, offsets, i, b)
                        &&& forall|k: int| 0 <= k < b ==> !#[trigger] clash(patches, offsets, i, k)
                        &&& y == (PatchErrorView::OverlappingPatch {
                            symbol_a: patches[b].source_symbol,
                            symbol_b: patches[i].source_symbol,
                        })
                    };
                if a < b {
                    assert(!clash(patches, offsets, i, a));
                }
                if b < a {
                    assert(!clash(patches, offsets, i, b));
                }
                assert(a == b);
            }
        },
    }
}

/// A patch that does not lie within the image is never written: the
/// application fails. Where every patch before it is sound, the failure is
/// that this patch is out of bounds.
pub proof fn lemma_out_of_bounds_is_rejected(
    image: Seq<u8>,
    patches: Seq<ResolvedPatchView>,
    offsets: Seq<Option<usize>>,
    i: int,
    outcome: Result<Seq<u8>, PatchErrorView>,
)
    requires
        applies_as(image, patches, offsets, outcome),
        0 <= i < patches.len(),
        !in_bounds(image.len() as int, patches, offsets, i),
    ensures
        outcome is Err,
        (forall|k: int| 0 <= k < i ==> #[trigger] sound(image.len() as int, patches, offsets, k))
            ==> outcome == Err::<Seq<u8>, PatchErrorView>(
            PatchErrorView::OutOfBounds {
                symbol: patches[i].source_symbol,
                offset: offset_of(offsets, i),
                length: patches[i].bytes.len() as int,
            },
        ),
{
    let size = image.len() as int;
    assert(!sound(size, patches, offsets, i));
    if forall|k: int| 0 <= k < i ==> #[trigger] sound(size, patches, offsets, k) {
        let wanted = Err::<Seq<u8>, PatchErrorView>(
            PatchErrorView::OutOfBounds {
                symbol: patches[i].source_symbol,
                offset: offset_of(offsets, i),
                length: patches[i].bytes.len() as int,
            },
        );
        assert(applies_as(image, patches, offsets, wanted));
        lemma_application_is_determined(image, patches, offsets, outcome, wanted);
    }
}

/// Where every patch lies within the image and two of them claim the same
/// byte, the application fails with an overlap.
pub proof fn lemma_overlap_is_rejected(
    image: Seq<u8>,
    patches: Seq<ResolvedPatchView>,
    offsets: Seq<Option<usize>>,
    i: int,
    j: int,
    outcome: Result<Seq<u8>, PatchErrorView>,
)
    requires
        applies_as(image, patches, offsets, outcome),
        0 <= j < i < patches.len(),
        clash(patches, offsets, i, j),
        forall|k: int|
            0 <= k < patches.len() ==> #[trigger] in_bounds(image.len() as int, patches, offsets, k),
    ensures
        outcome is Err,
        outcome->Err_0 is OverlappingPatch,
{
    let size = image.len() as int;
    assert(!sound(size, patches, offsets, i));
    match outcome {
        Ok(_) => {
            assert(sound(size, patches, offsets, i));
        },
        Err(e) => {
            let first = choose|first: int|
                {
                    &&& 0 <= first < patches.len()
                    &&& !#[trigger] sound(size, patches, offsets, first)
                    &&& forall|k: int| 0 <= k < first ==> #[trigger] sound(size, patches, offsets, k)
                    &&& describes(size, patches, offsets, first, e)
                };
            assert(in_bounds(size, patches, offsets, first));
        },
    }
}

/// Patches that are applied to an image of zeros leave zero every byte that
/// none of them covers; each byte that one covers holds the byte of that
/// patch.
pub proof fn lemma_patches_on_zeros(
    image: Seq<u8>,
    patches: Seq<ResolvedPatchView>,
    offsets: Seq<Option<usize>>,
    result: Seq<u8>,
)
    requires
        forall|p: int| 0 <= p < image.len() ==> image[p] == 0,
        applies_as(image, patches, offsets, Ok(result)),
    ensures
        result.len() == image.len(),
        forall|p: int|
            0 <= p < result.len() && result[p] != 0 ==> exists|i: int|
                0 <= i < patches.len() && #[trigger] covers(patches, offsets, i, p),
        forall|i: int, p: int|
            0 <= i < patches.len() && #[trigger] covers(patches, offsets, i, p) ==> 0 <= p
                < result.len() && result[p] == patches[i].bytes[p - offset_of(offsets, i).unwrap()],
{
    assert(patched(image, patches, offsets, result));
    assert forall|p: int| 0 <= p < result.len() && result[p] != 0 implies exists|i: int|
        0 <= i < patches.len() && #[trigger] covers(patches, offsets, i, p) by {
        if forall|i: int| 0 <= i < patches.len() ==> !#[trigger] covers(patches, offsets, i, p) {
            assert(result[p] == image[p]);
        }
    }
}

} // verus!
