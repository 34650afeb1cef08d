use linkpatch::object_file::{
    definitions_of, ObjectError, ObjectFile, Relocation, Section, Symbol, SymbolClass,
};
use linkpatch::unit::Reference;

fn symbol(name: &str, section: usize, address: u64, size: u64) -> Symbol {
    Symbol {
        name: name.to_string(),
        defined: true,
        class: SymbolClass::Code,
        section: Some(section),
        address,
        size,
    }
}

fn address_of(target: &str, offset: u64) -> Relocation {
    Relocation { offset, absolute: true, bits: 32, addend: 0, target: Some(target.to_string()) }
}

fn text(data: Vec<u8>, relocations: Vec<Relocation>) -> Section {
    Section { address: 0, data, relocations }
}

#[test]
fn each_defined_symbol_gives_a_definition() {
    let object = ObjectFile {
        sections: vec![
            text((0..16).collect(), vec![address_of("alloc", 2), address_of("free", 10)]),
            text(vec![0xAA, 0xBB, 0xCC, 0xDD], vec![]),
        ],
        symbols: vec![
            symbol("second", 0, 8, 8),
            symbol("table", 1, 0, 4),
            symbol("first", 0, 0, 8),
        ],
    };
    let definitions = definitions_of(&object).unwrap();
    assert_eq!(definitions.len(), 3);
    assert_eq!(definitions[0].name(), "second");
    assert_eq!(definitions[0].bytes(), &vec![8, 9, 10, 11, 12, 13, 14, 15]);
    assert_eq!(
        definitions[0].references(),
        &vec![Reference { offset: 2, name: "free".to_string() }]
    );
    assert_eq!(definitions[1].name(), "table");
    assert_eq!(definitions[1].bytes(), &vec![0xAA, 0xBB, 0xCC, 0xDD]);
    assert!(definitions[1].references().is_empty());
    assert_eq!(definitions[2].name(), "first");
    assert_eq!(definitions[2].bytes(), &vec![0, 1, 2, 3, 4, 5, 6, 7]);
    assert_eq!(
        definitions[2].references(),
        &vec![Reference { offset: 2, name: "alloc".to_string() }]
    );
}

#[test]
fn symbols_without_bytes_of_their_own_are_passed_over() {
    let mut undefined = symbol("outside_call", 0, 0, 4);
    undefined.defined = false;
    undefined.section = None;
    let mut file_name = symbol("lab.c", 0, 0, 4);
    file_name.class = SymbolClass::Other;
    let label = symbol("label", 0, 2, 0);
    let mut data = symbol("counter", 0, 4, 4);
    data.class = SymbolClass::Data;
    let object = ObjectFile {
        sections: vec![text(vec![1, 2, 3, 4, 5, 6, 7, 8], vec![])],
        symbols: vec![undefined, file_name, label, data],
    };
    let definitions = definitions_of(&object).unwrap();
    assert_eq!(definitions.len(), 1);
    assert_eq!(definitions[0].name(), "counter");
    assert_eq!(definitions[0].bytes(), &vec![5, 6, 7, 8]);
}

#[test]
fn section_address_is_taken_off() {
    let object = ObjectFile {
        sections: vec![Section {
            address: 0x1000,
            data: vec![1, 2, 3, 4, 5, 6, 7, 8],
            relocations: vec![address_of("g", 0x1004)],
        }],
        symbols: vec![symbol("f", 0, 0x1002, 6)],
    };
    let definitions = definitions_of(&object).unwrap();
    assert_eq!(definitions[0].bytes(), &vec![3, 4, 5, 6, 7, 8]);
    assert_eq!(definitions[0].references(), &vec![Reference { offset: 2, name: "g".to_string() }]);
}

#[test]
fn symbol_outside_its_section_is_refused() {
    let outside = |symbols: Vec<Symbol>| {
        definitions_of(&ObjectFile { sections: vec![text(vec![0; 8], vec![])], symbols })
            .err()
            .unwrap()
    };
    let refused = ObjectError::OutsideSection { symbol: "f".to_string() };
    assert_eq!(outside(vec![symbol("f", 0, 4, 5)]), refused);
    assert_eq!(outside(vec![symbol("f", 0, 9, 1)]), refused);
    assert_eq!(outside(vec![symbol("f", 1, 0, 4)]), refused);
    assert_eq!(outside(vec![symbol("f", 0, u64::MAX, u64::MAX)]), refused);
    let mut homeless = symbol("f", 0, 0, 4);
    homeless.section = None;
    assert_eq!(outside(vec![symbol("ok", 0, 0, 8), homeless]), refused);
    let shifted = ObjectFile {
        sections: vec![Section { address: 0x1000, data: vec![0; 8], relocations: vec![] }],
        symbols: vec![symbol("f", 0, 0xFFF, 4)],
    };
    assert_eq!(definitions_of(&shifted).err().unwrap(), refused);
}

#[test]
fn relocation_of_another_kind_is_refused() {
    let refuse = |relocation: Relocation| {
        let object = ObjectFile {
            sections: vec![text(vec![0; 16], vec![address_of("ok", 0), relocation])],
            symbols: vec![symbol("f", 0, 0, 16)],
        };
        definitions_of(&object).err().unwrap()
    };
    let refused = ObjectError::UnsupportedRelocation { symbol: "f".to_string(), offset: 8 };
    let plain = address_of("g", 8);
    assert_eq!(refuse(Relocation { absolute: false, ..plain.clone() }), refused);
    assert_eq!(refuse(Relocation { bits: 16, ..plain.clone() }), refused);
    assert_eq!(refuse(Relocation { addend: 4, ..plain.clone() }), refused);
    assert_eq!(refuse(Relocation { target: None, ..plain.clone() }), refused);
    assert_eq!(
        refuse(address_of("g", 13)),
        ObjectError::UnsupportedRelocation { symbol: "f".to_string(), offset: 13 }
    );
}

#[test]
fn relocation_outside_every_definition_is_passed_over() {
    let object = ObjectFile {
        sections: vec![text(
            vec![0; 16],
            vec![Relocation { offset: 12, absolute: false, bits: 24, addend: -4, target: None }],
        )],
        symbols: vec![symbol("f", 0, 0, 8)],
    };
    let definitions = definitions_of(&object).unwrap();
    assert!(definitions[0].references().is_empty());
}

#[test]
fn first_symbol_that_cannot_be_read_is_reported() {
    let object = ObjectFile {
        sections: vec![text(vec![0; 8], vec![Relocation {
            offset: 0,
            absolute: false,
            bits: 24,
            addend: 0,
            target: Some("g".to_string()),
        }])],
        symbols: vec![symbol("far", 0, 8, 4), symbol("f", 0, 0, 4)],
    };
    assert_eq!(
        definitions_of(&object).err().unwrap(),
        ObjectError::OutsideSection { symbol: "far".to_string() }
    );
}
