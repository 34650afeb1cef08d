use linkpatch::link_table::LinkTable;
use linkpatch::resolve::{find_definition, resolve, ResolveError};
use linkpatch::symbol_table::SymbolTable;
use linkpatch::unit::{Definition, Reference, SourceUnit};

fn reference(offset: usize, name: &str) -> Reference {
    Reference { offset, name: name.to_string() }
}

fn definition(name: &str, bytes: &[u8], references: Vec<Reference>) -> Definition {
    Definition::new(name.to_string(), bytes.to_vec(), references).unwrap()
}

fn unit(source: &str, definitions: Vec<Definition>) -> SourceUnit {
    SourceUnit {
        source: source.to_string(),
        object: source.replace(".c", ".o"),
        definitions,
    }
}

fn link(text: &str) -> LinkTable {
    LinkTable::parse(text).unwrap().table
}

fn symbols(text: &str) -> SymbolTable {
    SymbolTable::parse(text).unwrap()
}

fn undefined(name: &str) -> ResolveError {
    ResolveError::UndefinedSymbol { name: name.to_string() }
}

fn unresolved(symbol: &str, name: &str) -> ResolveError {
    ResolveError::UnresolvedReference {
        referencing_symbol: symbol.to_string(),
        referenced_name: name.to_string(),
    }
}

#[test]
fn definition_needs_bytes_and_references_within_them() {
    assert!(Definition::new("f".to_string(), vec![], vec![]).is_none());
    assert!(Definition::new("f".to_string(), vec![0; 3], vec![reference(0, "g")]).is_none());
    assert!(Definition::new("f".to_string(), vec![0; 8], vec![reference(5, "g")]).is_none());
    assert!(Definition::new("f".to_string(), vec![0; 8], vec![reference(usize::MAX, "g")])
        .is_none());
    let made = Definition::new("f".to_string(), vec![1, 2, 3, 4, 5], vec![reference(1, "g")])
        .unwrap();
    assert_eq!(made.name(), "f");
    assert_eq!(made.bytes(), &vec![1, 2, 3, 4, 5]);
    assert_eq!(made.references(), &vec![reference(1, "g")]);
}

#[test]
fn reference_is_replaced_by_the_address_most_significant_byte_first() {
    let units = vec![unit(
        "lab.c",
        vec![definition("evFunction", &[0x11, 0, 0, 0, 0, 0x22, 0x33], vec![reference(1, "HSD_MemAlloc")])],
    )];
    let link = link("80003100:evFunction\n8037F1E4:HSD_MemAlloc\n");
    let patches = resolve(&units, &link, &symbols("evFunction\n"), "evFunction").unwrap();
    assert_eq!(patches.len(), 1);
    assert_eq!(patches[0].target_address(), 0x8000_3100);
    assert_eq!(patches[0].source_symbol(), "evFunction");
    assert_eq!(patches[0].bytes(), &vec![0x11, 0x80, 0x37, 0xF1, 0xE4, 0x22, 0x33]);
}

#[test]
fn patches_follow_the_order_of_the_symbol_table() {
    let units = vec![
        unit("a.c", vec![definition("second", &[2], vec![]), definition("helper", &[9], vec![])]),
        unit("b.c", vec![definition("first", &[1], vec![]), definition("entry", &[7, 7], vec![])]),
    ];
    let link = link("00000010:first\n00000020:second\n00000030:entry\n00000040:helper\n");
    let patches = resolve(&units, &link, &symbols("first\nsecond\n"), "entry").unwrap();
    let placed: Vec<(u32, String, Vec<u8>)> = patches
        .iter()
        .map(|p| (p.target_address(), p.source_symbol().clone(), p.bytes().clone()))
        .collect();
    assert_eq!(
        placed,
        vec![
            (0x10, "first".to_string(), vec![1]),
            (0x20, "second".to_string(), vec![2]),
            (0x30, "entry".to_string(), vec![7, 7]),
        ]
    );
}

#[test]
fn entry_symbol_of_the_table_is_patched_once() {
    let units = vec![unit("a.c", vec![definition("entry", &[7], vec![]), definition("f", &[1], vec![])])];
    let link = link("00000010:f\n00000030:entry\n");
    let patches = resolve(&units, &link, &symbols("entry\nf\n"), "entry").unwrap();
    let names: Vec<&String> = patches.iter().map(|p| p.source_symbol()).collect();
    assert_eq!(names, vec!["entry", "f"]);
}

#[test]
fn first_definition_of_a_name_is_used() {
    let units = vec![
        unit("a.c", vec![definition("other", &[0], vec![])]),
        unit("b.c", vec![definition("f", &[1], vec![]), definition("f", &[2], vec![])]),
        unit("c.c", vec![definition("f", &[3], vec![])]),
    ];
    assert_eq!(find_definition(&units, &"f".to_string()), Some((1, 0)));
    assert_eq!(find_definition(&units, &"other".to_string()), Some((0, 0)));
    assert_eq!(find_definition(&units, &"g".to_string()), None);
    let patches = resolve(&units, &link("00000010:f\n"), &symbols("f\n"), "f").unwrap();
    assert_eq!(patches[0].bytes(), &vec![1]);
}

#[test]
fn later_reference_is_written_over_an_earlier_one() {
    let units = vec![unit(
        "a.c",
        vec![definition("f", &[0; 6], vec![reference(0, "x"), reference(2, "y")])],
    )];
    let link = link("00000010:f\n11223344:x\nAABBCCDD:y\n");
    let patches = resolve(&units, &link, &symbols("f\n"), "f").unwrap();
    assert_eq!(patches[0].bytes(), &vec![0x11, 0x22, 0xAA, 0xBB, 0xCC, 0xDD]);
}

#[test]
fn undefined_symbol_is_reported_exactly_once() {
    let units = vec![unit("a.c", vec![definition("f", &[0; 4], vec![reference(0, "nowhere")])])];
    let link = link("00000010:f\n00000020:g\n");
    let errors = resolve(&units, &link, &symbols("g\nf\nh\n"), "g").err().unwrap();
    assert_eq!(
        errors,
        vec![undefined("g"), unresolved("f", "nowhere"), undefined("h")]
    );
    assert_eq!(errors.iter().filter(|e| **e == undefined("g")).count(), 1);
    assert_eq!(errors.iter().filter(|e| **e == undefined("h")).count(), 1);
}

#[test]
fn entry_symbol_without_definition_is_undefined() {
    let units = vec![unit("a.c", vec![definition("f", &[1], vec![])])];
    let errors = resolve(&units, &link("00000010:f\n"), &symbols("f\n"), "evFunction")
        .err()
        .unwrap();
    assert_eq!(errors, vec![undefined("evFunction")]);
}

#[test]
fn name_without_address_is_reported_once_for_each_symbol() {
    let units = vec![unit(
        "a.c",
        vec![
            definition(
                "f",
                &[0; 12],
                vec![reference(0, "x"), reference(4, "known"), reference(8, "x")],
            ),
            definition("g", &[0; 4], vec![reference(0, "x")]),
        ],
    )];
    let link = link("00000010:f\n00000020:g\n00000030:known\n");
    let errors = resolve(&units, &link, &symbols("f\ng\n"), "f").err().unwrap();
    assert_eq!(errors, vec![unresolved("f", "x"), unresolved("g", "x")]);
}

#[test]
fn symbol_without_its_own_address_is_unresolved() {
    let units = vec![unit(
        "a.c",
        vec![definition("f", &[0; 8], vec![reference(0, "f"), reference(4, "y")])],
    )];
    let errors = resolve(&units, &link("00000010:other\n"), &symbols("f\n"), "f").err().unwrap();
    assert_eq!(errors, vec![unresolved("f", "f"), unresolved("f", "y")]);
}

#[test]
fn no_patch_is_made_when_one_symbol_fails() {
    let units = vec![unit("a.c", vec![definition("f", &[1], vec![])])];
    let result = resolve(&units, &link("00000010:f\n"), &symbols("f\nmissing\n"), "f");
    assert_eq!(result.err().unwrap(), vec![undefined("missing")]);
}

#[test]
fn resolving_twice_gives_the_same_patches() {
    let units = vec![unit(
        "lab.c",
        vec![
            definition("a", &[1, 0, 0, 0, 0], vec![reference(1, "b")]),
            definition("b", &[2, 2], vec![]),
        ],
    )];
    let link = link("80000000:a\n80000100:b\n");
    let table = symbols("a\nb\n");
    let first = resolve(&units, &link, &table, "a").unwrap();
    let second = resolve(&units, &link, &table, "a").unwrap();
    assert_eq!(first.len(), second.len());
    for (x, y) in first.iter().zip(second.iter()) {
        assert_eq!(x.target_address(), y.target_address());
        assert_eq!(x.bytes(), y.bytes());
        assert_eq!(x.source_symbol(), y.source_symbol());
    }
    assert_eq!(first[0].bytes(), &vec![1, 0x80, 0, 1, 0]);
}
