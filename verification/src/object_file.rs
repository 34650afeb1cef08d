//! Object files as plain values, and the definitions that one holds.

use vstd::prelude::*;
use vstd::slice::slice_subrange;
use crate::bytes::copy_of;
use crate::unit::{
    Definition, DefinitionView, Reference, ReferenceView, definition_views, reference_views,
};

verus! {

/// A place in a section that waits for a value.
#[derive(Clone, Debug, PartialEq, Eq)]
pub struct Relocation {
    /// Where the place begins, as an address.
    pub offset: u64,
    /// Whether the value is an address as it stands, not a distance.
    pub absolute: bool,
    /// The width of the place, in bits.
    pub bits: u8,
    /// What is added to the address.
    pub addend: i64,
    /// The name of the symbol whose address is meant, where it is one.
    pub target: Option<String>,
}

/// The mathematical value of a `Relocation`.
pub struct RelocationView {
    pub offset: int,
    pub absolute: bool,
    pub bits: int,
    pub addend: int,
    pub target: Option<Seq<char>>,
}

impl View for Relocation {
    type V = RelocationView;

    open spec fn view(&self) -> RelocationView {
        RelocationView {
            offset: self.offset as int,
            absolute: self.absolute,
            bits: self.bits as int,
            addend: self.addend as int,
            target: match self.target {
                Some(name) => Some(name@),
                None => None,
            },
        }
    }
}

/// The values of a list of relocations, in order.
pub open spec fn relocation_views(relocations: Seq<Relocation>) -> Seq<RelocationView> {
    relocations.map_values(|r: Relocation| r@)
}

/// One section of an object file.
#[derive(Clone, Debug, PartialEq, Eq)]
pub struct Section {
    /// The address of the first byte.
    pub address: u64,
    pub data: Vec<u8>,
    pub relocations: Vec<Relocation>,
}

/// The mathematical value of a `Section`.
pub struct SectionView {
    pub address: int,
    pub data: Seq<u8>,
    pub relocations: Seq<RelocationView>,
}

impl View for Section {
    type V = SectionView;

    open spec fn view(&self) -> SectionView {
        SectionView {
            address: self.address as int,
            data: self.data@,
            relocations: relocation_views(self.relocations@),
        }
    }
}

/// What a symbol names.
#[derive(Clone, Copy, Debug, PartialEq, Eq)]
pub enum SymbolClass {
    Code,
    Data,
    Other,
}

/// One symbol of an object file.
#[derive(Clone, Debug, PartialEq, Eq)]
pub struct Symbol {
    pub name: String,
    /// Whether the object file defines the symbol.
    pub defined: bool,
    pub class: SymbolClass,
    /// The place of its section among the sections, where it has one.
    pub section: Option<usize>,
    pub address: u64,
    pub size: u64,
}

/// The mathematical value of a `Symbol`.
pub struct SymbolView {
    pub name: Seq<char>,
    pub defined: bool,
    pub class: SymbolClass,
    pub section: Option<int>,
    pub address: int,
    pub size: int,
}

impl View for Symbol {
    type V = SymbolView;

    open spec fn view(&self) -> SymbolView {
        SymbolView {
            name: self.name@,
            defined: self.defined,
            class: self.class,
            section: match self.section {
                Some(i) => Some(i as int),
                None => None,
            },
            address: self.address as int,
            size: self.size as int,
        }
    }
}

/// What an object file holds, as far as a build reads it.
#[derive(Clone, Debug, PartialEq, Eq)]
pub struct ObjectFile {
    pub sections: Vec<Section>,
    pub symbols: Vec<Symbol>,
}

/// The mathematical value of an `ObjectFile`.
pub struct ObjectFileView {
    pub sections: Seq<SectionView>,
    pub symbols: Seq<SymbolView>,
}

impl View for ObjectFile {
    type V = ObjectFileView;

    open spec fn view(&self) -> ObjectFileView {
        ObjectFileView {
            sections: self.sections@.map_values(|s: Section| s@),
            symbols: self.symbols@.map_values(|s: Symbol| s@),
        }
    }
}

/// Why an object file gives no definitions.
#[derive(Clone, Debug, PartialEq, Eq)]
pub enum ObjectError {
    /// The symbol has no section, or does not lie within it.
    OutsideSection { symbol: String },
    /// A place in the symbol, at the address `offset`, waits for something
    /// else than the 32-bit address of a symbol, or does not end within the
    /// symbol.
    UnsupportedRelocation { symbol: String, offset: u64 },
}

/// The mathematical value of an `ObjectError`.
pub enum ObjectErrorView {
    OutsideSection { symbol: Seq<char> },
    UnsupportedRelocation { symbol: Seq<char>, offset: int },
}

impl View for ObjectError {
    type V = ObjectErrorView;

    open spec fn view(&self) -> ObjectErrorView {
        match self {
            ObjectError::OutsideSection { symbol } => ObjectErrorView::OutsideSection {
                symbol: symbol@,
            },
            ObjectError::UnsupportedRelocation {
                symbol,
                offset,
            } => ObjectErrorView::UnsupportedRelocation { symbol: symbol@, offset: *offset as int },
        }
    }
}

/// Whether the symbol is one that the object file defines with bytes of its
/// own: code or data of a size that is not 0.
pub open spec fn has_definition(symbol: SymbolView) -> bool {
    symbol.defined && symbol.class != SymbolClass::Other && symbol.size > 0
}

/// Whether the symbol has a section and lies within its data.
pub open spec fn lies_in_section(object: ObjectFileView, symbol: SymbolView) -> bool {
    match symbol.section {
        Some(i) => 0 <= i < object.sections.len() && object.sections[i].address <= symbol.address
            && symbol.address - object.sections[i].address + symbol.size
            <= object.sections[i].data.len(),
        None => false,
    }
}

/// Whether the place of `relocation` begins within the symbol.
pub open spec fn within(symbol: SymbolView, relocation: RelocationView) -> bool {
    symbol.address <= relocation.offset < symbol.address + symbol.size
}

/// Whether `relocation` waits for the 32-bit address of a symbol, and for
/// nothing more, at a place that ends within `symbol`.
pub open spec fn supported(symbol: SymbolView, relocation: RelocationView) -> bool {
    &&& relocation.absolute
    &&& relocation.bits == 32
    &&& relocation.addend == 0
    &&& relocation.target is Some
    &&& relocation.offset + 4 <= symbol.address + symbol.size
}

/// The references of `symbol` among the first `k` of `relocations`, in
/// order; the offset of each is counted from the start of the symbol.
pub open spec fn references_among(
    symbol: SymbolView,
    relocations: Seq<RelocationView>,
    k: int,
) -> Seq<ReferenceView>
    decreases k,
{
    if k <= 0 {
        Seq::<ReferenceView>::empty()
    } else {
        let before = references_among(symbol, relocations, k - 1);
        let relocation = relocations[k - 1];
        if within(symbol, relocation) {
            before.push(
                ReferenceView {
                    offset: relocation.offset - symbol.address,
                    name: relocation.target.unwrap(),
                },
            )
        } else {
            before
        }
    }
}

/// Whether relocation `k` is the first in `symbol` that is not supported.
pub open spec fn first_unsupported(
    symbol: SymbolView,
    relocations: Seq<RelocationView>,
    k: int,
) -> bool {
    &&& 0 <= k < relocations.len()
    &&& within(symbol, relocations[k]) && !supported(symbol, relocations[k])
    &&& forall|j: int|
        0 <= j < k && within(symbol, #[trigger] relocations[j]) ==> supported(
            symbol,
            relocations[j],
        )
}

/// Whether `error` says what keeps `symbol` from being a definition.
pub open spec fn refuses(object: ObjectFileView, symbol: SymbolView, error: ObjectErrorView) -> bool {
    if !lies_in_section(object, symbol) {
        error == (ObjectErrorView::OutsideSection { symbol: symbol.name })
    } else {
        exists|k: int| #[trigger]
            first_unsupported(symbol, object.sections[symbol.section.unwrap()].relocations, k)
                && error == (ObjectErrorView::UnsupportedRelocation {
                symbol: symbol.name,
                offset: object.sections[symbol.section.unwrap()].relocations[k].offset,
            })
    }
}

/// Whether `symbol` can be a definition: it lies within its section, and
/// every relocation in it is supported.
pub open spec fn usable(object: ObjectFileView, symbol: SymbolView) -> bool {
    &&& lies_in_section(object, symbol)
    &&& forall|j: int|
        0 <= j < object.sections[symbol.section.unwrap()].relocations.len() && within(
            symbol,
            #[trigger] object.sections[symbol.section.unwrap()].relocations[j],
        ) ==> supported(symbol, object.sections[symbol.section.unwrap()].relocations[j])
}

/// The definition that `symbol` stands for.
pub open spec fn definition_from(object: ObjectFileView, symbol: SymbolView) -> DefinitionView {
    let section = object.sections[symbol.section.unwrap()];
    let start = symbol.address - section.address;
    DefinitionView {
        name: symbol.name,
        bytes: section.data.subrange(start, start + symbol.size),
        references: references_among(
            symbol,
            section.relocations,
            section.relocations.len() as int,
        ),
    }
}

/// The definitions of the first `k` symbols, in order.
pub open spec fn definitions_among(object: ObjectFileView, k: int) -> Seq<DefinitionView>
    decreases k,
{
    if k <= 0 {
        Seq::<DefinitionView>::empty()
    } else {
        let before = definitions_among(object, k - 1);
        let symbol = object.symbols[k - 1];
        if has_definition(symbol) {
            before.push(definition_from(object, symbol))
        } else {
            before
        }
    }
}

/// Reads `symbol` as a definition.
fn define(object: &ObjectFile, symbol: &Symbol) -> (r: Result<Definition, ObjectError>)
    requires
        has_definition(symbol@),
    ensures
        match r {
            Ok(definition) => usable(object@, symbol@) && definition@ == definition_from(
                object@,
                symbol@,
            ),
            Err(e) => !usable(object@, symbol@) && refuses(object@, symbol@, e@),
        },
{
    let index: usize = match symbol.section {
        Some(i) => i,
        None => {
            return Err(ObjectError::OutsideSection { symbol: symbol.name.clone() });
        },
    };
    if index >= object.sections.len() {
        return Err(ObjectError::OutsideSection { symbol: symbol.name.clone() });
    }
    let section = &object.sections[index];
    assert(object@.sections[index as int] == section@);
    let length: usize = section.data.len();
    if symbol.address < section.address || symbol.address - section.address > length as u64
        || symbol.size > length as u64 - (symbol.address - section.address) {
        return Err(ObjectError::OutsideSection { symbol: symbol.name.clone() });
    }
    let start: usize = (symbol.address - section.address) as usize;
    let size: usize = symbol.size as usize;
    let bytes = copy_of(slice_subrange(section.data.as_slice(), start, start + size));
    let ghost relocations = section@.relocations;
    let mut references: Vec<Reference> = Vec::new();
    let mut k: usize = 0;
    while k < section.relocations.len()
        invariant
            k <= section.relocations@.len(),
            relocations == relocation_views(section.relocations@),
            relocations == section@.relocations,
            object@.sections[index as int] == section@,
            symbol@.section == Some(index as int),
            index < object@.sections.len(),
            lies_in_section(object@, symbol@),
            has_definition(symbol@),
            size == symbol.size,
            bytes@.len() == size,
            reference_views(references@) == references_among(
                symbol@,
                relocations,
                k as int,
            ),
            forall|j: int|
                0 <= j < k && within(symbol@, #[trigger] relocations[j]) ==> supported(
                    symbol@,
                    relocations[j],
                ),
            forall|j: int|
                0 <= j < references@.len() ==> (#[trigger] references@[j]).offset + 4 <= size,
        decreases section.relocations@.len() - k,
    {
        let relocation = &section.relocations[k];
        assert(relocations[k as int] == relocation@);
        if symbol.address <= relocation.offset && relocation.offset - symbol.address
            < symbol.size {
            let place: u64 = relocation.offset - symbol.address;
            let fits: bool = symbol.size >= 4 && place <= symbol.size - 4;
            let plain: bool = relocation.absolute && relocation.bits == 32 && relocation.addend
                == 0;
            match &relocation.target {
                Some(name) if fits && plain => {
                    let ghost before = references@;
                    references.push(Reference { offset: place as usize, name: name.clone() });
                    proof {
                        assert(reference_views(references@)
                            == reference_views(before).push(references@.last()@));
                    }
                },
                _ => {
                    proof {
                        assert(!supported(symbol@, relocations[k as int]));
                        assert(first_unsupported(symbol@, relocations, k as int));
                    }
                    return Err(
                        ObjectError::UnsupportedRelocation {
                            symbol: symbol.name.clone(),
                            offset: relocation.offset,
                        },
                    );
                },
            }
        }
        k += 1;
    }
    match Definition::new(symbol.name.clone(), bytes, references) {
        Some(definition) => Ok(definition),
        None => {
            proof {
                let made = DefinitionView {
                    name: symbol.name@,
                    bytes: bytes@,
                    references: reference_views(references@),
                };
                assert forall|i: int| 0 <= i < made.references.len() implies 0 <= (
                #[trigger] made.references[i]).offset && made.references[i].offset + 4
                    <= made.bytes.len() by {
                    assert(made.references[i] == references@[i]@);
                }
                assert(false);
            }
            Err(ObjectError::OutsideSection { symbol: symbol.name.clone() })
        },
    }
}

/// Reads the definitions of an object file: one for each symbol that the
/// file defines as code or data of a size that is not 0, in the order of
/// the symbols. The bytes of a definition are those of its symbol in the
/// section; its references are the relocations of the section that begin
/// within the symbol, in their order. The first symbol that cannot be read
/// so ends the reading.
pub fn definitions_of(object: &ObjectFile) -> (r: Result<Vec<Definition>, ObjectError>)
    ensures
        match r {
            Ok(definitions) => {
                &&& forall|i: int|
                    0 <= i < object@.symbols.len() && has_definition(#[trigger] object@.symbols[i])
                        ==> usable(object@, object@.symbols[i])
                &&& definition_views(definitions@) == definitions_among(
                    object@,
                    object@.symbols.len() as int,
                )
            },
            Err(e) => exists|i: int|
                {
                    &&& 0 <= i < object@.symbols.len()
                    &&& has_definition(#[trigger] object@.symbols[i])
                    &&& !usable(object@, object@.symbols[i])
                    &&& refuses(object@, object@.symbols[i], e@)
                    &&& forall|j: int|
                        0 <= j < i && has_definition(#[trigger] object@.symbols[j]) ==> usable(
                            object@,
                            object@.symbols[j],
                        )
                },
        },
{
    let mut definitions: Vec<Definition> = Vec::new();
    let mut i: usize = 0;
    while i < object.symbols.len()
        invariant
            i <= object.symbols@.len(),
            object@.symbols.len() == object.symbols@.len(),
            definition_views(definitions@) == definitions_among(object@, i as int),
            forall|j: int|
                0 <= j < i && has_definition(#[trigger] object@.symbols[j]) ==> usable(
                    object@,
                    object@.symbols[j],
                ),
        decreases object.symbols@.len() - i,
    {
        let symbol = &object.symbols[i];
        assert(object@.symbols[i as int] == symbol@);
        let wanted: bool = symbol.defined && symbol.size > 0 && match symbol.class {
            SymbolClass::Other => false,
            _ => true,
        };
        assert(wanted == has_definition(symbol@));
        if wanted {
            match define(object, symbol) {
                Ok(definition) => {
                    let ghost before = definitions@;
                    definitions.push(definition);
                    proof {
                        assert(definition_views(definitions@) == definition_views(before).push(
                            definitions@.last()@,
                        ));
                    }
                },
                Err(e) => {
                    return Err(e);
                },
            }
        }
        i += 1;
    }
    Ok(definitions)
}

} // verus!
