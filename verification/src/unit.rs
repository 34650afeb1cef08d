//! Source units: what compiling one source file gives.

use vstd::prelude::*;

verus! {

/// A place in the bytes of a definition that holds the address of a name of
/// the target image, in four bytes.
#[derive(Clone, Debug, PartialEq, Eq)]
pub struct Reference {
    pub offset: usize,
    pub name: String,
}

/// The mathematical value of a `Reference`.
pub struct ReferenceView {
    pub offset: int,
    pub name: Seq<char>,
}

impl View for Reference {
    type V = ReferenceView;

    open spec fn view(&self) -> ReferenceView {
        ReferenceView { offset: self.offset as int, name: self.name@ }
    }
}

/// The values of a list of references, in order.
pub open spec fn reference_views(references: Seq<Reference>) -> Seq<ReferenceView> {
    references.map_values(|r: Reference| r@)
}

/// The mathematical value of a `Definition`.
pub struct DefinitionView {
    pub name: Seq<char>,
    pub bytes: Seq<u8>,
    pub references: Seq<ReferenceView>,
}

/// What holds of every definition: it has bytes, and each of its
/// references lies within them.
pub open spec fn definition_wf(d: DefinitionView) -> bool {
    &&& d.bytes.len() > 0
    &&& forall|i: int|
        0 <= i < d.references.len() ==> 0 <= (#[trigger] d.references[i]).offset
            && d.references[i].offset + 4 <= d.bytes.len()
}

/// A compiled symbol: its name, its bytes, and the places in them that wait
/// for an address.
#[derive(Debug, PartialEq, Eq)]
pub struct Definition {
    name: String,
    bytes: Vec<u8>,
    references: Vec<Reference>,
}

impl View for Definition {
    type V = DefinitionView;

    closed spec fn view(&self) -> DefinitionView {
        DefinitionView {
            name: self.name@,
            bytes: self.bytes@,
            references: reference_views(self.references@),
        }
    }
}

impl Definition {
    #[verifier::type_invariant]
    spec fn inv(&self) -> bool {
        definition_wf(self@)
    }

    /// Makes a definition; there is none where `bytes` is empty or a
    /// reference does not lie within `bytes`.
    pub fn new(name: String, bytes: Vec<u8>, references: Vec<Reference>) -> (r: Option<Definition>)
        ensures
            match r {
                Some(d) => d@ == (DefinitionView {
                    name: name@,
                    bytes: bytes@,
                    references: reference_views(references@),
                }) && definition_wf(d@),
                None => !definition_wf(
                    DefinitionView {
                        name: name@,
                        bytes: bytes@,
                        references: reference_views(references@),
                    },
                ),
            },
    {
        let ghost view = DefinitionView {
            name: name@,
            bytes: bytes@,
            references: reference_views(references@),
        };
        if bytes.len() == 0 {
            return None;
        }
        let mut i: usize = 0;
        while i < references.len()
            invariant
                i <= references@.len(),
                view == (DefinitionView {
                    name: name@,
                    bytes: bytes@,
                    references: reference_views(references@),
                }),
                forall|k: int|
                    0 <= k < i ==> 0 <= (#[trigger] view.references[k]).offset
                        && view.references[k].offset + 4 <= bytes@.len(),
            decreases references@.len() - i,
        {
            let offset: usize = references[i].offset;
            assert(view.references[i as int].offset == offset);
            if bytes.len() < 4 || offset > bytes.len() - 4 {
                assert(!definition_wf(view));
                return None;
            }
            i += 1;
        }
        Some(Definition { name, bytes, references })
    }

    /// The name of the symbol.
    pub fn name(&self) -> (r: &String)
        ensures
            r@ == self@.name,
    {
        &self.name
    }

    /// The bytes of the symbol as compiled.
    pub fn bytes(&self) -> (r: &Vec<u8>)
        ensures
            r@ == self@.bytes,
            definition_wf(self@),
    {
        proof {
            use_type_invariant(self);
        }
        &self.bytes
    }

    /// The places that wait for an address, in order.
    pub fn references(&self) -> (r: &Vec<Reference>)
        ensures
            reference_views(r@) == self@.references,
            definition_wf(self@),
    {
        proof {
            use_type_invariant(self);
        }
        &self.references
    }
}

/// The values of a list of definitions, in order.
pub open spec fn definition_views(definitions: Seq<Definition>) -> Seq<DefinitionView> {
    definitions.map_values(|d: Definition| d@)
}

/// One source file, the object file made from it, and the symbols that the
/// object file defines.
#[derive(Debug, PartialEq, Eq)]
pub struct SourceUnit {
    pub source: String,
    pub object: String,
    pub definitions: Vec<Definition>,
}

/// The mathematical value of a `SourceUnit`.
pub struct SourceUnitView {
    pub source: Seq<char>,
    pub object: Seq<char>,
    pub definitions: Seq<DefinitionView>,
}

impl View for SourceUnit {
    type V = SourceUnitView;

    open spec fn view(&self) -> SourceUnitView {
        SourceUnitView {
            source: self.source@,
            object: self.object@,
            definitions: definition_views(self.definitions@),
        }
    }
}

/// The values of a list of units, in order.
pub open spec fn unit_views(units: Seq<SourceUnit>) -> Seq<SourceUnitView> {
    units.map_values(|u: SourceUnit| u@)
}

} // verus!
