use linkpatch::bytes::be_bytes_of;
use linkpatch::link_table::LinkTable;
use linkpatch::mapping::{base_relative, OutOfRange};
use linkpatch::patch::{apply, apply_at, PatchError, ResolvedPatch, TargetImage};
use linkpatch::pipeline::{link_image, BuildError};
use linkpatch::resolve::ResolveError;
use linkpatch::symbol_table::SymbolTable;
use linkpatch::unit::{Definition, Reference, SourceUnit};

fn patch(address: u32, bytes: &[u8], symbol: &str) -> ResolvedPatch {
    ResolvedPatch::new(address, bytes.to_vec(), symbol.to_string()).unwrap()
}

fn zeros(size: usize) -> TargetImage {
    TargetImage { bytes: vec![0; size] }
}

#[test]
fn patch_is_never_empty() {
    assert!(ResolvedPatch::new(0, vec![], "f".to_string()).is_none());
    let made = patch(0x8000_0000, &[1, 2], "f");
    assert_eq!(made.target_address(), 0x8000_0000);
    assert_eq!(made.bytes(), &vec![1, 2]);
    assert_eq!(made.source_symbol(), "f");
}

#[test]
fn address_is_written_most_significant_byte_first() {
    assert_eq!(be_bytes_of(0x8037_F1E4), vec![0x80, 0x37, 0xF1, 0xE4]);
    assert_eq!(be_bytes_of(0), vec![0, 0, 0, 0]);
    assert_eq!(be_bytes_of(u32::MAX), vec![0xFF; 4]);
    assert_eq!(be_bytes_of(1), vec![0, 0, 0, 1]);
}

#[test]
fn base_relative_mapping_subtracts_the_base() {
    assert_eq!(base_relative(0x8000_0000, 0x8000_0010), Ok(0x10));
    assert_eq!(base_relative(0x8000_0000, 0x8000_0000), Ok(0));
    assert_eq!(base_relative(0, u32::MAX), Ok(u32::MAX as usize));
    assert_eq!(
        base_relative(0x8000_0000, 0x7FFF_FFFF),
        Err(OutOfRange { address: 0x7FFF_FFFF })
    );
}

#[test]
fn patch_beyond_the_image_is_out_of_bounds_and_the_image_is_unchanged() {
    let image = TargetImage { bytes: vec![9; 16] };
    let before = image.clone();
    let patches = vec![patch(0, &[1, 2, 3, 4], "fits"), patch(0, &[1, 2, 3, 4], "spills")];
    let error = apply_at(&image, &patches, &vec![Some(0), Some(13)]).err().unwrap();
    assert_eq!(
        error,
        PatchError::OutOfBounds { symbol: "spills".to_string(), offset: Some(13), length: 4 }
    );
    assert_eq!(image, before);
}

#[test]
fn patch_that_ends_with_the_image_is_in_bounds() {
    let patched = apply_at(&zeros(8), &vec![patch(0, &[1, 2, 3, 4], "f")], &vec![Some(4)]).unwrap();
    assert_eq!(patched.bytes, vec![0, 0, 0, 0, 1, 2, 3, 4]);
    let whole = apply_at(&zeros(2), &vec![patch(0, &[5, 6], "f")], &vec![Some(0)]).unwrap();
    assert_eq!(whole.bytes, vec![5, 6]);
}

#[test]
fn offset_beyond_the_image_is_out_of_bounds() {
    let error = apply_at(&zeros(8), &vec![patch(0, &[1], "f")], &vec![Some(usize::MAX)])
        .err()
        .unwrap();
    assert_eq!(
        error,
        PatchError::OutOfBounds { symbol: "f".to_string(), offset: Some(usize::MAX), length: 1 }
    );
    let error = apply_at(&zeros(0), &vec![patch(0, &[1], "f")], &vec![Some(0)]).err().unwrap();
    assert_eq!(
        error,
        PatchError::OutOfBounds { symbol: "f".to_string(), offset: Some(0), length: 1 }
    );
}

#[test]
fn address_without_offset_is_out_of_bounds() {
    let patches = vec![patch(0x10, &[1, 2], "f")];
    let error = apply_at(&zeros(8), &patches, &vec![None]).err().unwrap();
    assert_eq!(error, PatchError::OutOfBounds { symbol: "f".to_string(), offset: None, length: 2 });
    let error = apply_at(&zeros(8), &patches, &vec![]).err().unwrap();
    assert_eq!(error, PatchError::OutOfBounds { symbol: "f".to_string(), offset: None, length: 2 });
}

#[test]
fn overlapping_patches_are_rejected() {
    let image = zeros(16);
    let patches = vec![patch(0, &[1; 4], "a"), patch(0, &[2; 4], "b"), patch(0, &[3; 4], "c")];
    let error = apply_at(&image, &patches, &vec![Some(0), Some(8), Some(3)]).err().unwrap();
    assert_eq!(
        error,
        PatchError::OverlappingPatch { symbol_a: "a".to_string(), symbol_b: "c".to_string() }
    );
    assert_eq!(image, zeros(16));
}

#[test]
fn overlap_names_the_first_patch_that_is_hit() {
    let patches = vec![patch(0, &[1; 4], "a"), patch(0, &[2; 4], "b"), patch(0, &[3; 8], "c")];
    let error = apply_at(&zeros(16), &patches, &vec![Some(6), Some(0), Some(2)]).err().unwrap();
    assert_eq!(
        error,
        PatchError::OverlappingPatch { symbol_a: "a".to_string(), symbol_b: "c".to_string() }
    );
    let same = vec![patch(0, &[1], "a"), patch(0, &[1], "again")];
    let error = apply_at(&zeros(4), &same, &vec![Some(2), Some(2)]).err().unwrap();
    assert_eq!(
        error,
        PatchError::OverlappingPatch { symbol_a: "a".to_string(), symbol_b: "again".to_string() }
    );
}

#[test]
fn first_patch_with_a_fault_decides_the_error() {
    let patches = vec![patch(0, &[1; 4], "a"), patch(0, &[2; 4], "b"), patch(0, &[3; 4], "c")];
    let error = apply_at(&zeros(8), &patches, &vec![Some(0), Some(2), Some(100)]).err().unwrap();
    assert_eq!(
        error,
        PatchError::OverlappingPatch { symbol_a: "a".to_string(), symbol_b: "b".to_string() }
    );
    let error = apply_at(&zeros(8), &patches, &vec![Some(0), Some(100), Some(2)]).err().unwrap();
    assert_eq!(
        error,
        PatchError::OutOfBounds { symbol: "b".to_string(), offset: Some(100), length: 4 }
    );
}

#[test]
fn adjacent_patches_do_not_overlap() {
    let patches = vec![patch(0, &[1, 1], "a"), patch(0, &[2, 2], "b")];
    let patched = apply_at(&zeros(4), &patches, &vec![Some(2), Some(0)]).unwrap();
    assert_eq!(patched.bytes, vec![2, 2, 1, 1]);
}

#[test]
fn disjoint_patches_change_exactly_their_ranges_of_a_zero_image() {
    let image = zeros(32);
    let patches = vec![
        patch(0, &[0xA1, 0xA2, 0xA3], "a"),
        patch(0, &[0xB1], "b"),
        patch(0, &[0xC1, 0xC2, 0xC3, 0xC4, 0xC5], "c"),
    ];
    let offsets = vec![Some(10), Some(0), Some(27)];
    let patched = apply_at(&image, &patches, &offsets).unwrap();
    assert_eq!(patched.bytes.len(), 32);
    let mut expected = vec![0u8; 32];
    expected[0] = 0xB1;
    expected[10..13].copy_from_slice(&[0xA1, 0xA2, 0xA3]);
    expected[27..32].copy_from_slice(&[0xC1, 0xC2, 0xC3, 0xC4, 0xC5]);
    assert_eq!(patched.bytes, expected);
    for (position, byte) in patched.bytes.iter().enumerate() {
        let covered = position == 0 || (10..13).contains(&position) || (27..32).contains(&position);
        assert_eq!(*byte != 0, covered, "byte {}", position);
    }
    assert_eq!(image, zeros(32));
}

#[test]
fn bytes_outside_the_patches_stay_as_they_were() {
    let image = TargetImage { bytes: (0..16).collect() };
    let patched = apply_at(&image, &vec![patch(0, &[0xFF, 0xFE], "f")], &vec![Some(5)]).unwrap();
    assert_eq!(
        patched.bytes,
        vec![0, 1, 2, 3, 4, 0xFF, 0xFE, 7, 8, 9, 10, 11, 12, 13, 14, 15]
    );
}

#[test]
fn no_patches_give_a_copy_of_the_image() {
    let image = TargetImage { bytes: vec![3, 1, 4, 1, 5] };
    assert_eq!(apply_at(&image, &vec![], &vec![]).unwrap(), image);
}

#[test]
fn mapping_gives_each_patch_its_offset() {
    let patches = vec![patch(0x8000_0004, &[1, 2], "a"), patch(0x8000_0000, &[3], "b")];
    let patched = apply(&zeros(8), &patches, |address| base_relative(0x8000_0000, address)).unwrap();
    assert_eq!(patched.bytes, vec![3, 0, 0, 0, 1, 2, 0, 0]);
}

#[test]
fn address_that_the_mapping_refuses_is_out_of_bounds() {
    let patches = vec![patch(0x8000_0004, &[1, 2], "a"), patch(0x7000_0000, &[3], "low")];
    let error = apply(&zeros(8), &patches, |address| base_relative(0x8000_0000, address))
        .err()
        .unwrap();
    assert_eq!(error, PatchError::OutOfBounds { symbol: "low".to_string(), offset: None, length: 1 });
    let error = apply(&zeros(8), &patches, |address| Err(OutOfRange { address })).err().unwrap();
    assert_eq!(error, PatchError::OutOfBounds { symbol: "a".to_string(), offset: None, length: 2 });
}

fn units() -> Vec<SourceUnit> {
    let f = Definition::new(
        "f".to_string(),
        vec![0x48, 0, 0, 0, 0, 0x60],
        vec![Reference { offset: 1, name: "g".to_string() }],
    )
    .unwrap();
    let g = Definition::new("g".to_string(), vec![0x4E, 0x80, 0x00, 0x20], vec![]).unwrap();
    vec![SourceUnit {
        source: "lab.c".to_string(),
        object: "build/lab.o".to_string(),
        definitions: vec![f, g],
    }]
}

#[test]
fn build_resolves_and_patches() {
    let link = LinkTable::parse("80000004:f\n80000010:g\n").unwrap().table;
    let symbols = SymbolTable::parse("f\ng\n").unwrap();
    let image = link_image(&zeros(24), &units(), &link, &symbols, "f", |a| {
        base_relative(0x8000_0000, a)
    })
    .unwrap();
    assert_eq!(
        image.bytes,
        vec![
            0, 0, 0, 0, 0x48, 0x80, 0x00, 0x00, 0x10, 0x60, 0, 0, 0, 0, 0, 0, 0x4E, 0x80, 0x00,
            0x20, 0, 0, 0, 0
        ]
    );
}

#[test]
fn build_twice_gives_the_same_image() {
    let link = LinkTable::parse("80000004:f\n80000010:g\n").unwrap().table;
    let symbols = SymbolTable::parse("f\ng\n").unwrap();
    let start = TargetImage { bytes: (0..24).collect() };
    let first = link_image(&start, &units(), &link, &symbols, "f", |a| {
        base_relative(0x8000_0000, a)
    })
    .unwrap();
    let second = link_image(&start, &units(), &link, &symbols, "f", |a| {
        base_relative(0x8000_0000, a)
    })
    .unwrap();
    assert_eq!(first, second);
    assert_ne!(first, start);
}

#[test]
fn build_stops_at_resolution_before_any_patch() {
    let link = LinkTable::parse("80000004:f\n").unwrap().table;
    let symbols = SymbolTable::parse("f\n").unwrap();
    let result = link_image(&zeros(24), &units(), &link, &symbols, "f", |a| {
        base_relative(0x8000_0000, a)
    });
    match result {
        Err(BuildError::Resolve(errors)) => assert_eq!(
            errors,
            vec![ResolveError::UnresolvedReference {
                referencing_symbol: "f".to_string(),
                referenced_name: "g".to_string()
            }]
        ),
        other => panic!("unexpected outcome: {:?}", other),
    }
}

#[test]
fn build_reports_the_patch_that_cannot_be_applied() {
    let link = LinkTable::parse("80000004:f\n80000010:g\n").unwrap().table;
    let symbols = SymbolTable::parse("f\ng\n").unwrap();
    let result = link_image(&zeros(18), &units(), &link, &symbols, "f", |a| {
        base_relative(0x8000_0000, a)
    });
    match result {
        Err(BuildError::Patch(error)) => assert_eq!(
            error,
            PatchError::OutOfBounds { symbol: "g".to_string(), offset: Some(16), length: 4 }
        ),
        other => panic!("unexpected outcome: {:?}", other),
    }
}
