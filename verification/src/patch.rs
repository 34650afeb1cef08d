//! Patches: contiguous writes into the target image.

use vstd::prelude::*;
use crate::bytes::{copy_of, overwrite};
use crate::mapping::OutOfRange;

verus! {

/// The mathematical value of a `ResolvedPatch`.
pub struct ResolvedPatchView {
    pub target_address: u32,
    pub bytes: Seq<u8>,
    pub source_symbol: Seq<char>,
}

/// The final bytes of one symbol and the address of the target image at
/// which they belong. A patch is never empty.
#[derive(Debug, PartialEq, Eq)]
pub struct ResolvedPatch {
    target_address: u32,
    bytes: Vec<u8>,
    source_symbol: String,
}

impl View for ResolvedPatch {
    type V = ResolvedPatchView;

    closed spec fn view(&self) -> ResolvedPatchView {
        ResolvedPatchView {
            target_address: self.target_address,
            bytes: self.bytes@,
            source_symbol: self.source_symbol@,
        }
    }
}

/// The values of a list of patches, in order.
pub open spec fn patch_views(patches: Seq<ResolvedPatch>) -> Seq<ResolvedPatchView> {
    patches.map_values(|p: ResolvedPatch| p@)
}

impl ResolvedPatch {
    #[verifier::type_invariant]
    spec fn inv(&self) -> bool {
        self.bytes@.len() > 0
    }

    /// Makes a patch; there is none where `bytes` is empty.
    pub fn new(target_address: u32, bytes: Vec<u8>, source_symbol: String) -> (r: Option<
        ResolvedPatch,
    >)
        ensures
            match r {
                Some(p) => p@ == (ResolvedPatchView {
                    target_address,
                    bytes: bytes@,
                    source_symbol: source_symbol@,
                }) && bytes@.len() > 0,
                None => bytes@.len() == 0,
            },
    {
        if bytes.len() == 0 {
            None
        } else {
            Some(ResolvedPatch { target_address, bytes, source_symbol })
        }
    }

    /// The address of the target image at which the bytes belong.
    pub fn target_address(&self) -> (r: u32)
        ensures
            r == self@.target_address,
    {
        self.target_address
    }

    /// The bytes to write; there is at least one.
    pub fn bytes(&self) -> (r: &Vec<u8>)
        ensures
            r@ == self@.bytes,
            r@.len() > 0,
    {
        proof {
            use_type_invariant(self);
        }
        &self.bytes
    }

    /// The name of the symbol that the bytes are the code or data of.
    pub fn source_symbol(&self) -> (r: &String)
        ensures
            r@ == self@.source_symbol,
    {
        &self.source_symbol
    }
}

/// The binary image that is patched: a fixed number of bytes.
#[derive(Clone, Debug, PartialEq, Eq)]
pub struct TargetImage {
    pub bytes: Vec<u8>,
}

impl View for TargetImage {
    type V = Seq<u8>;

    open spec fn view(&self) -> Seq<u8> {
        self.bytes@
    }
}

/// Why a list of patches was not applied.
#[derive(Clone, Debug, PartialEq, Eq)]
pub enum PatchError {
    /// The address of the patch has no offset in the image (`offset` is
    /// `None`), or the patch does not end within the image.
    OutOfBounds { symbol: String, offset: Option<usize>, length: usize },
    /// Two patches claim the same byte; `symbol_a` is the earlier of them.
    OverlappingPatch { symbol_a: String, symbol_b: String },
}

/// The mathematical value of a `PatchError`.
pub enum PatchErrorView {
    OutOfBounds { symbol: Seq<char>, offset: Option<int>, length: int },
    OverlappingPatch { symbol_a: Seq<char>, symbol_b: Seq<char> },
}

impl View for PatchError {
    type V = PatchErrorView;

    open spec fn view(&self) -> PatchErrorView {
        match self {
            PatchError::OutOfBounds { symbol, offset, length } => PatchErrorView::OutOfBounds {
                symbol: symbol@,
                offset: match offset {
                    Some(o) => Some(*o as int),
                    None => None,
                },
                length: *length as int,
            },
            PatchError::OverlappingPatch { symbol_a, symbol_b } => PatchErrorView::OverlappingPatch {
                symbol_a: symbol_a@,
                symbol_b: symbol_b@,
            },
        }
    }
}

/// The offset of patch `i`: none where its address has none, or where
/// `offsets` does not reach that far.
pub open spec fn offset_of(offsets: Seq<Option<usize>>, i: int) -> Option<int> {
    if 0 <= i < offsets.len() {
        match offsets[i] {
            Some(o) => Some(o as int),
            None => None,
        }
    } else {
        None
    }
}

/// Whether patch `i` has an offset and lies within an image of `size` bytes.
pub open spec fn in_bounds(
    size: int,
    patches: Seq<ResolvedPatchView>,
    offsets: Seq<Option<usize>>,
    i: int,
) -> bool {
    match offset_of(offsets, i) {
        Some(o) => o + patches[i].bytes.len() <= size,
        None => false,
    }
}

/// Whether byte `p` of the image belongs to patch `i`.
pub open spec fn covers(
    patches: Seq<ResolvedPatchView>,
    offsets: Seq<Option<usize>>,
    i: int,
    p: int,
) -> bool {
    match offset_of(offsets, i) {
        Some(o) => o <= p < o + patches[i].bytes.len(),
        None => false,
    }
}

/// Whether patches `i` and `j` claim a byte in common.
pub open spec fn clash(
    patches: Seq<ResolvedPatchView>,
    offsets: Seq<Option<usize>>,
    i: int,
    j: int,
) -> bool {
    match (offset_of(offsets, i), offset_of(offsets, j)) {
        (Some(a), Some(b)) => a < b + patches[j].bytes.len() && b < a + patches[i].bytes.len(),
        _ => false,
    }
}

/// Whether patch `i` can be written: it lies within the image and clashes
/// with no patch before it.
pub open spec fn sound(
    size: int,
    patches: Seq<ResolvedPatchView>,
    offsets: Seq<Option<usize>>,
    i: int,
) -> bool {
    &&& in_bounds(size, patches, offsets, i)
    &&& forall|j: int| 0 <= j < i ==> !#[trigger] clash(patches, offsets, i, j)
}

/// Whether `error` says what is wrong with patch `i`: it is out of bounds,
/// or else it clashes with an earlier patch, of which `error` names the
/// first.
pub open spec fn describes(
    size: int,
    patches: Seq<ResolvedPatchView>,
    offsets: Seq<Option<usize>>,
    i: int,
    error: PatchErrorView,
) -> bool {
    if !in_bounds(size, patches, offsets, i) {
        error == (PatchErrorView::OutOfBounds {
            symbol: patches[i].source_symbol,
            offset: offset_of(offsets, i),
            length: patches[i].bytes.len() as int,
        })
    } else {
        exists|j: int|
            {
                &&& 0 <= j < i
                &&& #[trigger] clash(patches, offsets, i, j)
                &&& forall|k: int| 0 <= k < j ==> !#[trigger] clash(patches, offsets, i, k)
                &&& error == (PatchErrorView::OverlappingPatch {
                    symbol_a: patches[j].source_symbol,
                    symbol_b: patches[i].source_symbol,
                })
            }
    }
}

/// Whether `result` is `image` with every patch written at its offset and
/// every other byte as it was.
pub open spec fn patched(
    image: Seq<u8>,
    patches: Seq<ResolvedPatchView>,
    offsets: Seq<Option<usize>>,
    result: Seq<u8>,
) -> bool {
    &&& result.len() == image.len()
    &&& forall|i: int, p: int|
        0 <= i < patches.len() && #[trigger] covers(patches, offsets, i, p) ==> 0 <= p
            < result.len() && result[p] == patches[i].bytes[p - offset_of(offsets, i).unwrap()]
    &&& forall|p: int|
        0 <= p < result.len() && (forall|i: int|
            0 <= i < patches.len() ==> !#[trigger] covers(patches, offsets, i, p)) ==> result[p]
            == image[p]
}

/// What applying `patches` at `offsets` to `image` gives: the patched image
/// where every patch is sound, and otherwise what is wrong with the first
/// patch that is not.
pub open spec fn applies_as(
    image: Seq<u8>,
    patches: Seq<ResolvedPatchView>,
    offsets: Seq<Option<usize>>,
    outcome: Result<Seq<u8>, PatchErrorView>,
) -> bool {
    match outcome {
        Ok(result) => {
            &&& forall|i: int|
                0 <= i < patches.len() ==> #[trigger] sound(image.len() as int, patches, offsets, i)
            &&& patched(image, patches, offsets, result)
        },
        Err(error) => exists|i: int|
            {
                &&& 0 <= i < patches.len()
                &&& !#[trigger] sound(image.len() as int, patches, offsets, i)
                &&& forall|k: int|
                    0 <= k < i ==> #[trigger] sound(image.len() as int, patches, offsets, k)
                &&& describes(image.len() as int, patches, offsets, i, error)
            },
    }
}

/// The value of the outcome of an application.
pub open spec fn outcome_view(r: Result<TargetImage, PatchError>) -> Result<
    Seq<u8>,
    PatchErrorView,
> {
    match r {
        Ok(image) => Ok(image@),
        Err(e) => Err(e@),
    }
}

/// The offset of patch `i`.
fn offset_at(offsets: &Vec<Option<usize>>, i: usize) -> (r: Option<usize>)
    ensures
        offset_of(offsets@, i as int) == match r {
            Some(o) => Some(o as int),
            None => None,
        },
{
    if i < offsets.len() {
        offsets[i]
    } else {
        None
    }
}

/// Checks patch `i` against the image and against the patches before it.
fn check_patch(
    size: usize,
    patches: &Vec<ResolvedPatch>,
    offsets: &Vec<Option<usize>>,
    i: usize,
) -> (r: Result<usize, PatchError>)
    requires
        i < patches@.len(),
        forall|k: int| 0 <= k < i ==> #[trigger] sound(size as int, patch_views(patches@), offsets@, k),
    ensures
        match r {
            Ok(offset) => sound(size as int, patch_views(patches@), offsets@, i as int)
                && offset_of(offsets@, i as int) == Some(offset as int),
            Err(e) => !sound(size as int, patch_views(patches@), offsets@, i as int) && describes(
                size as int,
                patch_views(patches@),
                offsets@,
                i as int,
                e@,
            ),
        },
{
    let ghost views = patch_views(patches@);
    let patch = &patches[i];
    let length: usize = patch.bytes().len();
    assert(views[i as int] == patch@);
    let offset: usize = match offset_at(offsets, i) {
        Some(o) => o,
        None => {
            return Err(
                PatchError::OutOfBounds {
                    symbol: patch.source_symbol().clone(),
                    offset: None,
                    length,
                },
            );
        },
    };
    if offset > size || length > size - offset {
        return Err(
            PatchError::OutOfBounds {
                symbol: patch.source_symbol().clone(),
                offset: Some(offset),
                length,
            },
        );
    }
    let mut j: usize = 0;
    while j < i
        invariant
            j <= i < patches@.len(),
            views == patch_views(patches@),
            views[i as int] == patch@,
            length == patch@.bytes.len(),
            offset_of(offsets@, i as int) == Some(offset as int),
            offset + length <= size,
            forall|k: int| 0 <= k < i ==> #[trigger] sound(size as int, views, offsets@, k),
            forall|k: int| 0 <= k < j ==> !#[trigger] clash(views, offsets@, i as int, k),
        decreases i - j,
    {
        let other = &patches[j];
        assert(views[j as int] == other@);
        assert(sound(size as int, views, offsets@, j as int));
        match offset_at(offsets, j) {
            Some(start) => {
                let other_length: usize = other.bytes().len();
                if offset < start + other_length && start < offset + length {
                    assert(clash(views, offsets@, i as int, j as int));
                    return Err(
                        PatchError::OverlappingPatch {
                            symbol_a: other.source_symbol().clone(),
                            symbol_b: patch.source_symbol().clone(),
                        },
                    );
                }
            },
            None => {},
        }
        j += 1;
    }
    Ok(offset)
}

/// Applies `patches` to a copy of `image`, patch `i` at `offsets[i]`; a
/// patch without an offset is out of bounds. The copy is handed out only
/// where every patch lies within the image and no two patches claim the same
/// byte; `image` itself is never changed.
pub fn apply_at(image: &TargetImage, patches: &Vec<ResolvedPatch>, offsets: &Vec<Option<usize>>) -> (r:
    Result<TargetImage, PatchError>)
    ensures
        applies_as(image@, patch_views(patches@), offsets@, outcome_view(r)),
{
    let ghost views = patch_views(patches@);
    let size: usize = image.bytes.len();
    let mut starts: Vec<usize> = Vec::new();
    let mut i: usize = 0;
    while i < patches.len()
        invariant
            i <= patches@.len(),
            views == patch_views(patches@),
            size == image@.len(),
            starts@.len() == i,
            forall|k: int| 0 <= k < i ==> #[trigger] sound(size as int, views, offsets@, k),
            forall|k: int| 0 <= k < i ==> offset_of(offsets@, k) == Some(#[trigger] starts@[k] as int),
        decreases patches@.len() - i,
    {
        match check_patch(size, patches, offsets, i) {
            Ok(offset) => {
                starts.push(offset);
            },
            Err(e) => {
                return Err(e);
            },
        }
        i += 1;
    }
    let mut working = copy_of(image.bytes.as_slice());
    let mut n: usize = 0;
    while n < patches.len()
        invariant
            n <= patches@.len(),
            views == patch_views(patches@),
            size == image@.len(),
            starts@.len() == patches@.len(),
            forall|k: int|
                0 <= k < patches@.len() ==> #[trigger] sound(size as int, views, offsets@, k),
            forall|k: int|
                0 <= k < patches@.len() ==> offset_of(offsets@, k) == Some(
                    #[trigger] starts@[k] as int,
                ),
            working@.len() == image@.len(),
            forall|k: int, p: int|
                0 <= k < n && #[trigger] covers(views, offsets@, k, p) ==> 0 <= p < working@.len()
                    && working@[p] == views[k].bytes[p - offset_of(offsets@, k).unwrap()],
            forall|p: int|
                0 <= p < working@.len() && (forall|k: int|
                    0 <= k < n ==> !#[trigger] covers(views, offsets@, k, p)) ==> working@[p]
                    == image@[p],
        decreases patches@.len() - n,
    {
        let patch = &patches[n];
        let start: usize = starts[n];
        let ghost before = working@;
        assert(views[n as int] == patch@);
        assert(sound(size as int, views, offsets@, n as int));
        assert(offset_of(offsets@, n as int) == Some(start as int));
        overwrite(&mut working, start, patch.bytes().as_slice());
        proof {
            assert forall|k: int, p: int|
                0 <= k < n + 1 && #[trigger] covers(views, offsets@, k, p) implies 0 <= p
                < working@.len() && working@[p] == views[k].bytes[p - offset_of(
                offsets@,
                k,
            ).unwrap()] by {
                if k < n {
                    assert(!clash(views, offsets@, n as int, k));
                    assert(offset_of(offsets@, k) == Some(starts@[k] as int));
                    assert(working@[p] == before[p]);
                }
            }
            assert forall|p: int|
                0 <= p < working@.len() && (forall|k: int|
                    0 <= k < n + 1 ==> !#[trigger] covers(views, offsets@, k, p)) implies working@[p]
                == image@[p] by {
                assert(!covers(views, offsets@, n as int, p));
                assert(working@[p] == before[p]);
                assert forall|k: int| 0 <= k < n implies !#[trigger] covers(
                    views,
                    offsets@,
                    k,
                    p,
                ) by {}
            }
        }
        n += 1;
    }
    Ok(TargetImage { bytes: working })
}

/// The offset that `result` stands for.
pub open spec fn mapped_offset(result: Result<usize, OutOfRange>) -> Option<usize> {
    match result {
        Ok(offset) => Some(offset),
        Err(_) => None,
    }
}

/// Whether `offset` is what `address_to_offset` may give for `address`.
pub open spec fn maps_to<F: Fn(u32) -> Result<usize, OutOfRange>>(
    address_to_offset: F,
    address: u32,
    offset: Option<usize>,
) -> bool {
    exists|result: Result<usize, OutOfRange>| #[trigger]
        call_ensures(address_to_offset, (address,), result) && offset == mapped_offset(result)
}

/// Whether `offsets` holds, for each of `patches`, what `address_to_offset`
/// may give for its address.
pub open spec fn mapped_by<F: Fn(u32) -> Result<usize, OutOfRange>>(
    address_to_offset: F,
    patches: Seq<ResolvedPatchView>,
    offsets: Seq<Option<usize>>,
) -> bool {
    &&& offsets.len() == patches.len()
    &&& forall|i: int|
        0 <= i < offsets.len() ==> maps_to(
            address_to_offset,
            patches[i].target_address,
            #[trigger] offsets[i],
        )
}

/// Applies `patches` to a copy of `image`. The offset of each patch in the
/// image is what `address_to_offset` gives for its address; a patch whose
/// address it refuses is out of bounds. The outcome is that of `apply_at`
/// with these offsets.
pub fn apply<F: Fn(u32) -> Result<usize, OutOfRange>>(
    image: &TargetImage,
    patches: &Vec<ResolvedPatch>,
    address_to_offset: F,
) -> (r: Result<TargetImage, PatchError>)
    requires
        forall|address: u32| call_requires(address_to_offset, (address,)),
    ensures
        exists|offsets: Seq<Option<usize>>|
            mapped_by(address_to_offset, patch_views(patches@), offsets) && #[trigger] applies_as(
                image@,
                patch_views(patches@),
                offsets,
                outcome_view(r),
            ),
{
    let ghost views = patch_views(patches@);
    let mut offsets: Vec<Option<usize>> = Vec::new();
    let mut i: usize = 0;
    while i < patches.len()
        invariant
            i <= patches@.len(),
            offsets@.len() == i,
            views == patch_views(patches@),
            forall|address: u32| call_requires(address_to_offset, (address,)),
            forall|k: int|
                0 <= k < i ==> maps_to(
                    address_to_offset,
                    views[k].target_address,
                    #[trigger] offsets@[k],
                ),
        decreases patches@.len() - i,
    {
        let address: u32 = patches[i].target_address();
        assert(views[i as int].target_address == address);
        let result = address_to_offset(address);
        let ghost before = offsets@;
        match result {
            Ok(offset) => offsets.push(Some(offset)),
            Err(_) => offsets.push(None),
        }
        proof {
            assert(call_ensures(address_to_offset, (address,), result));
            assert(offsets@[i as int] == mapped_offset(result));
            assert(maps_to(address_to_offset, address, offsets@[i as int]));
            assert forall|k: int| 0 <= k < i + 1 implies maps_to(
                address_to_offset,
                views[k].target_address,
                #[trigger] offsets@[k],
            ) by {
                if k < i {
                    assert(offsets@[k] == before[k]);
                }
            }
        }
        i += 1;
    }
    let r = apply_at(image, patches, &offsets);
    proof {
        assert(mapped_by(address_to_offset, views, offsets@));
        assert(applies_as(image@, views, offsets@, outcome_view(r)));
    }
    r
}

} // verus!
