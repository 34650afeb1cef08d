//! Resolution: from compiled definitions and the two tables to the patches
//! of a build, with every reference replaced by its final address.
//!
//! The address space of the target image is frozen, and the link table is
//! all that is known of it. So every name is looked up there: the name of a
//! symbol for the address at which its patch belongs, and the name of each
//! of its references for the address that is written into its bytes. A name
//! that a unit defines has no other address than the one the link table
//! gives it. Nothing is left to fix up later: the bytes of a patch are final.

use vstd::prelude::*;
use crate::bytes::{be_bytes, be_bytes_of, copy_of, overwrite, write_at};
use crate::link_table::{LinkEntryView, LinkTable, lookup};
use crate::patch::{ResolvedPatch, ResolvedPatchView, patch_views};
use crate::symbol_table::SymbolTable;
use crate::text::string_views;
use crate::unit::{
    Definition, DefinitionView, ReferenceView, SourceUnit, SourceUnitView, definition_views,
    definition_wf, reference_views, unit_views,
};

verus! {

/// One finding of a failed resolution.
#[derive(Clone, Debug, PartialEq, Eq)]
pub enum ResolveError {
    /// No unit defines this symbol of the build.
    UndefinedSymbol { name: String },
    /// The link table gives no address to a name that the symbol needs.
    UnresolvedReference { referencing_symbol: String, referenced_name: String },
}

/// The mathematical value of a `ResolveError`.
pub enum ResolveErrorView {
    UndefinedSymbol { name: Seq<char> },
    UnresolvedReference { referencing_symbol: Seq<char>, referenced_name: Seq<char> },
}

impl View for ResolveError {
    type V = ResolveErrorView;

    open spec fn view(&self) -> ResolveErrorView {
        match self {
            ResolveError::UndefinedSymbol { name } => ResolveErrorView::UndefinedSymbol {
                name: name@,
            },
            ResolveError::UnresolvedReference {
                referencing_symbol,
                referenced_name,
            } => ResolveErrorView::UnresolvedReference {
                referencing_symbol: referencing_symbol@,
                referenced_name: referenced_name@,
            },
        }
    }
}

/// The values of a list of findings, in order.
pub open spec fn error_views(errors: Seq<ResolveError>) -> Seq<ResolveErrorView> {
    errors.map_values(|e: ResolveError| e@)
}

/// The symbols that a build patches: those of the symbol table in its
/// order, and behind them the entry symbol where the table does not name it.
pub open spec fn work_list(symbols: Seq<Seq<char>>, entry: Seq<char>) -> Seq<Seq<char>> {
    if symbols.contains(entry) {
        symbols
    } else {
        symbols.push(entry)
    }
}

/// The definitions of all units, unit by unit.
pub open spec fn all_definitions(units: Seq<SourceUnitView>) -> Seq<DefinitionView>
    decreases units.len(),
{
    if units.len() == 0 {
        Seq::<DefinitionView>::empty()
    } else {
        all_definitions(units.drop_last()) + units.last().definitions
    }
}

/// The names of `definitions`, in order.
pub open spec fn definition_names(definitions: Seq<DefinitionView>) -> Seq<Seq<char>> {
    definitions.map_values(|d: DefinitionView| d.name)
}

/// The definition of `name`: the first one of that name, in the order of
/// the units.
pub open spec fn definition_of(units: Seq<SourceUnitView>, name: Seq<char>) -> Option<
    DefinitionView,
> {
    match definition_names(all_definitions(units)).index_of_first(name) {
        Some(i) => Some(all_definitions(units)[i]),
        None => None,
    }
}

/// The names whose addresses a definition needs: its own, for its place,
/// and those of its references, in order.
pub open spec fn needed_names(definition: DefinitionView) -> Seq<Seq<char>> {
    seq![definition.name] + definition.references.map_values(|r: ReferenceView| r.name)
}

/// The findings for the first `k` of the names that `symbol` needs: one for
/// each name without an address, at the place where the name first occurs.
pub open spec fn missing(
    needed: Seq<Seq<char>>,
    link: Seq<LinkEntryView>,
    symbol: Seq<char>,
    k: int,
) -> Seq<ResolveErrorView>
    decreases k,
{
    if k <= 0 {
        Seq::<ResolveErrorView>::empty()
    } else {
        let before = missing(needed, link, symbol, k - 1);
        let name = needed[k - 1];
        if lookup(link, name) is None && !needed.take(k - 1).contains(name) {
            before.push(
                ResolveErrorView::UnresolvedReference {
                    referencing_symbol: symbol,
                    referenced_name: name,
                },
            )
        } else {
            before
        }
    }
}

/// The findings for one symbol of the build.
pub open spec fn symbol_errors(
    units: Seq<SourceUnitView>,
    link: Seq<LinkEntryView>,
    name: Seq<char>,
) -> Seq<ResolveErrorView> {
    match definition_of(units, name) {
        None => seq![ResolveErrorView::UndefinedSymbol { name }],
        Some(d) => missing(needed_names(d), link, name, needed_names(d).len() as int),
    }
}

/// The findings for the first `k` symbols of `work`, symbol by symbol.
pub open spec fn errors_upto(
    units: Seq<SourceUnitView>,
    link: Seq<LinkEntryView>,
    work: Seq<Seq<char>>,
    k: int,
) -> Seq<ResolveErrorView>
    decreases k,
{
    if k <= 0 {
        Seq::<ResolveErrorView>::empty()
    } else {
        errors_upto(units, link, work, k - 1) + symbol_errors(units, link, work[k - 1])
    }
}

/// `bytes` with the address of each of `references` written at its place,
/// most significant byte first, reference by reference.
pub open spec fn fixed_up(
    bytes: Seq<u8>,
    references: Seq<ReferenceView>,
    link: Seq<LinkEntryView>,
) -> Seq<u8>
    decreases references.len(),
{
    if references.len() == 0 {
        bytes
    } else {
        let before = fixed_up(bytes, references.drop_last(), link);
        match lookup(link, references.last().name) {
            Some(address) => write_at(before, references.last().offset, be_bytes(address)),
            None => before,
        }
    }
}

/// The patch of a definition: its bytes with their addresses filled in, at
/// the address that the link table gives to its name.
pub open spec fn patch_of(definition: DefinitionView, link: Seq<LinkEntryView>) -> Option<
    ResolvedPatchView,
> {
    match lookup(link, definition.name) {
        Some(address) => Some(
            ResolvedPatchView {
                target_address: address,
                bytes: fixed_up(definition.bytes, definition.references, link),
                source_symbol: definition.name,
            },
        ),
        None => None,
    }
}

/// The patch for one symbol of the build.
pub open spec fn patch_for(
    units: Seq<SourceUnitView>,
    link: Seq<LinkEntryView>,
    name: Seq<char>,
) -> Option<ResolvedPatchView> {
    match definition_of(units, name) {
        Some(d) => patch_of(d, link),
        None => None,
    }
}

/// The patches of a build, one for each symbol of `work`, in order.
pub open spec fn planned_patches(
    units: Seq<SourceUnitView>,
    link: Seq<LinkEntryView>,
    work: Seq<Seq<char>>,
) -> Seq<ResolvedPatchView> {
    Seq::new(work.len(), |i: int| patch_for(units, link, work[i]).unwrap())
}

/// The definitions of the first units are the first of all definitions.
pub proof fn lemma_definitions_prefix(units: Seq<SourceUnitView>, count: int)
    requires
        0 <= count <= units.len(),
    ensures
        all_definitions(units.take(count)).len() <= all_definitions(units).len(),
        all_definitions(units.take(count)) == all_definitions(units).take(
            all_definitions(units.take(count)).len() as int,
        ),
    decreases units.len(),
{
    if count == units.len() {
        assert(units.take(count) == units);
        assert(all_definitions(units).take(all_definitions(units).len() as int)
            == all_definitions(units));
    } else {
        lemma_definitions_prefix(units.drop_last(), count);
        assert(units.drop_last().take(count) == units.take(count));
        let first = all_definitions(units.take(count));
        assert(first == all_definitions(units).take(first.len() as int));
    }
}

/// The definitions of one more unit follow those of the units before it.
pub proof fn lemma_definitions_step(units: Seq<SourceUnitView>, count: int)
    requires
        0 <= count < units.len(),
    ensures
        all_definitions(units.take(count + 1)) == all_definitions(units.take(count))
            + units[count].definitions,
{
    assert(units.take(count + 1).drop_last() == units.take(count));
}

/// Where the first definition of `name` stands: the unit and the place in
/// the unit.
pub fn find_definition(units: &Vec<SourceUnit>, name: &String) -> (r: Option<(usize, usize)>)
    ensures
        match r {
            Some((u, j)) => u < units@.len() && j < units@[u as int].definitions@.len()
                && definition_of(unit_views(units@), name@) == Some(
                units@[u as int].definitions@[j as int]@,
            ),
            None => definition_of(unit_views(units@), name@) is None,
        },
{
    let ghost views = unit_views(units@);
    let ghost all = all_definitions(views);
    let ghost names = definition_names(all);
    let mut u: usize = 0;
    proof {
        assert(views.take(0) == Seq::<SourceUnitView>::empty());
    }
    while u < units.len()
        invariant
            u <= units@.len(),
            views == unit_views(units@),
            all == all_definitions(views),
            names == definition_names(all),
            forall|k: int|
                0 <= k < all_definitions(views.take(u as int)).len() ==> (#[trigger] all_definitions(
                    views.take(u as int),
                )[k]).name != name@,
        decreases units@.len() - u,
    {
        let unit = &units[u];
        let ghost before = all_definitions(views.take(u as int));
        let ghost here = views[u as int].definitions;
        proof {
            lemma_definitions_step(views, u as int);
            assert(here == definition_views(unit.definitions@));
        }
        let mut j: usize = 0;
        while j < unit.definitions.len()
            invariant
                j <= unit.definitions@.len(),
                u < units@.len(),
                unit == units@[u as int],
                views == unit_views(units@),
                all == all_definitions(views),
                names == definition_names(all),
                before == all_definitions(views.take(u as int)),
                here == views[u as int].definitions,
                here == definition_views(unit.definitions@),
                all_definitions(views.take(u + 1)) == before + here,
                forall|k: int| 0 <= k < before.len() ==> (#[trigger] before[k]).name != name@,
                forall|k: int| 0 <= k < j ==> (#[trigger] here[k]).name != name@,
            decreases unit.definitions@.len() - j,
        {
            let definition = &unit.definitions[j];
            assert(definition@ == here[j as int]);
            if *definition.name() == *name {
                proof {
                    lemma_definitions_prefix(views, u + 1);
                    let p = before.len() + j;
                    let upto = before + here;
                    assert(upto[p] == here[j as int]);
                    assert(all[p] == upto[p]);
                    assert(names[p] == name@);
                    names.index_of_first_ensures(name@);
                    assert(names.contains(name@));
                    let first = names.index_of_first(name@).unwrap();
                    if first < p {
                        assert(all[first] == upto[first]);
                        if first < before.len() {
                            assert(upto[first] == before[first]);
                        } else {
                            assert(upto[first] == here[first - before.len()]);
                        }
                        assert(names[first] == all[first].name);
                    }
                    assert(first == p);
                }
                return Some((u, j));
            }
            j += 1;
        }
        proof {
            let upto = before + here;
            assert forall|k: int| 0 <= k < upto.len() implies (#[trigger] upto[k]).name
                != name@ by {
                if k < before.len() {
                    assert(upto[k] == before[k]);
                } else {
                    assert(upto[k] == here[k - before.len()]);
                }
            }
        }
        u += 1;
    }
    proof {
        assert(views.take(units@.len() as int) == views);
        names.index_of_first_ensures(name@);
        if names.contains(name@) {
            let k = choose|k: int| 0 <= k < names.len() && names[k] == name@;
            assert(all[k].name == name@);
        }
    }
    None
}

/// The symbols that a build patches, in order.
fn work_names(symbols: &SymbolTable, entry_symbol: &str) -> (work: Vec<String>)
    ensures
        string_views(work@) == work_list(symbols@, entry_symbol@),
{
    let names = symbols.names();
    let mut work: Vec<String> = Vec::new();
    let mut i: usize = 0;
    while i < names.len()
        invariant
            i <= names@.len(),
            string_views(work@) == string_views(names@).take(i as int),
        decreases names@.len() - i,
    {
        let ghost before = work@;
        work.push(names[i].clone());
        proof {
            assert(string_views(work@) == string_views(before).push(names@[i as int]@));
            assert(string_views(names@).take(i + 1) == string_views(names@).take(i as int).push(
                names@[i as int]@,
            ));
        }
        i += 1;
    }
    assert(string_views(names@).take(names@.len() as int) == string_views(names@));
    if !symbols.contains(entry_symbol) {
        work.push(entry_symbol.to_owned());
        assert(string_views(work@) == symbols@.push(entry_symbol@));
    }
    work
}

/// Whether `name` is the name of `definition` or of one of its first
/// `count` references.
fn needed_before(definition: &Definition, count: usize, name: &String) -> (r: bool)
    requires
        count <= definition@.references.len(),
    ensures
        r == needed_names(definition@).take(count + 1).contains(name@),
{
    let ghost needed = needed_names(definition@);
    let ghost seen = needed.take(count + 1);
    if *definition.name() == *name {
        assert(seen[0] == name@);
        return true;
    }
    let references = definition.references();
    let mut j: usize = 0;
    while j < count
        invariant
            j <= count <= references@.len(),
            reference_views(references@) == definition@.references,
            needed == needed_names(definition@),
            seen == needed.take(count + 1),
            forall|k: int| 0 <= k <= j ==> seen[k] != name@,
        decreases count - j,
    {
        assert(seen[j + 1] == references@[j as int]@.name);
        if references[j].name == *name {
            return true;
        }
        j += 1;
    }
    false
}

/// Appends to `errors` the findings for the names that `definition` needs.
fn collect_missing(definition: &Definition, link: &LinkTable, errors: &mut Vec<ResolveError>)
    ensures
        error_views(final(errors)@) == error_views(old(errors)@) + missing(
            needed_names(definition@),
            link@,
            definition@.name,
            needed_names(definition@).len() as int,
        ),
{
    let ghost needed = needed_names(definition@);
    let ghost symbol = definition@.name;
    let ghost start = error_views(errors@);
    let name = definition.name();
    proof {
        reveal_with_fuel(missing, 2);
        assert(needed.take(0) == Seq::<Seq<char>>::empty());
        assert(needed[0] == symbol);
        assert(start + Seq::<ResolveErrorView>::empty() == start);
    }
    if link.address_of(name.as_str()).is_none() {
        errors.push(
            ResolveError::UnresolvedReference {
                referencing_symbol: name.clone(),
                referenced_name: name.clone(),
            },
        );
        proof {
            assert(error_views(errors@) == start.push(errors@.last()@));
            assert(error_views(errors@) == start + missing(needed, link@, symbol, 1));
        }
    }
    let references = definition.references();
    let mut k: usize = 0;
    while k < references.len()
        invariant
            k <= references@.len(),
            reference_views(references@) == definition@.references,
            needed == needed_names(definition@),
            needed.len() == references@.len() + 1,
            symbol == definition@.name,
            name@ == symbol,
            error_views(errors@) == start + missing(needed, link@, symbol, k + 1),
        decreases references@.len() - k,
    {
        let wanted = &references[k].name;
        assert(needed[k + 1] == wanted@);
        let ghost before = errors@;
        if link.address_of(wanted.as_str()).is_none() && !needed_before(definition, k, wanted) {
            errors.push(
                ResolveError::UnresolvedReference {
                    referencing_symbol: name.clone(),
                    referenced_name: wanted.clone(),
                },
            );
            proof {
                assert(error_views(errors@) == error_views(before).push(errors@.last()@));
            }
        }
        proof {
            let found = missing(needed, link@, symbol, k + 1);
            let next = missing(needed, link@, symbol, k + 2);
            if lookup(link@, wanted@) is None && !needed.take(k + 1).contains(wanted@) {
                assert(next == found.push(
                    ResolveErrorView::UnresolvedReference {
                        referencing_symbol: symbol,
                        referenced_name: wanted@,
                    },
                ));
                assert(start + next == (start + found).push(next.last()));
            } else {
                assert(next == found);
            }
        }
        k += 1;
    }
}

/// The bytes of `definition` with every address that the link table knows
/// written at its place.
fn fix_up(definition: &Definition, link: &LinkTable) -> (out: Vec<u8>)
    ensures
        out@ == fixed_up(definition@.bytes, definition@.references, link@),
        out@.len() == definition@.bytes.len(),
        out@.len() > 0,
{
    let mut out = copy_of(definition.bytes().as_slice());
    let references = definition.references();
    let ghost views = definition@.references;
    let mut k: usize = 0;
    proof {
        assert(views.take(0) == Seq::<ReferenceView>::empty());
    }
    while k < references.len()
        invariant
            k <= references@.len(),
            reference_views(references@) == views,
            views == definition@.references,
            definition_wf(definition@),
            out@.len() == definition@.bytes.len(),
            out@ == fixed_up(definition@.bytes, views.take(k as int), link@),
        decreases references@.len() - k,
    {
        let reference = &references[k];
        proof {
            assert(views.take(k + 1).drop_last() == views.take(k as int));
            assert(views.take(k + 1).last() == reference@);
            assert(views[k as int] == reference@);
        }
        match link.address_of(reference.name.as_str()) {
            Some(address) => {
                let data = be_bytes_of(address);
                overwrite(&mut out, reference.offset, data.as_slice());
            },
            None => {},
        }
        k += 1;
    }
    proof {
        assert(views.take(views.len() as int) == views);
    }
    out
}

/// The first of the needed names has a finding where it has no address.
proof fn lemma_missing_own_name(
    needed: Seq<Seq<char>>,
    link: Seq<LinkEntryView>,
    symbol: Seq<char>,
    k: int,
)
    requires
        1 <= k <= needed.len(),
        lookup(link, needed[0]) is None,
    ensures
        missing(needed, link, symbol, k).len() > 0,
    decreases k,
{
    if k == 1 {
        reveal_with_fuel(missing, 2);
        assert(needed.take(0) == Seq::<Seq<char>>::empty());
    } else {
        lemma_missing_own_name(needed, link, symbol, k - 1);
    }
}

/// Resolves the symbols of a build: finds the definition of each, fills in
/// the address of every name that it refers to, and places it at the
/// address of its own name. The symbols are those of the symbol table, in
/// its order; the entry symbol is patched in any case, behind them where
/// the table does not name it. Either every symbol gets its patch, or none
/// does and every finding is reported: for each symbol in turn that it is
/// undefined, or else each name that it needs and the link table lacks,
/// once.
pub fn resolve(
    units: &Vec<SourceUnit>,
    link: &LinkTable,
    symbols: &SymbolTable,
    entry_symbol: &str,
) -> (r: Result<Vec<ResolvedPatch>, Vec<ResolveError>>)
    ensures
        ({
            let work = work_list(symbols@, entry_symbol@);
            let errors = errors_upto(unit_views(units@), link@, work, work.len() as int);
            match r {
                Ok(patches) => {
                    &&& errors.len() == 0
                    &&& patches@.len() == work.len()
                    &&& forall|i: int|
                        0 <= i < work.len() ==> patch_for(unit_views(units@), link@, work[i])
                            == Some((#[trigger] patches@[i])@)
                    &&& patch_views(patches@) == planned_patches(unit_views(units@), link@, work)
                },
                Err(found) => found@.len() > 0 && error_views(found@) == errors,
            }
        }),
{
    let work = work_names(symbols, entry_symbol);
    let ghost views = unit_views(units@);
    let ghost names = work_list(symbols@, entry_symbol@);
    let mut patches: Vec<ResolvedPatch> = Vec::new();
    let mut errors: Vec<ResolveError> = Vec::new();
    let mut i: usize = 0;
    while i < work.len()
        invariant
            i <= work@.len(),
            views == unit_views(units@),
            names == string_views(work@),
            error_views(errors@) == errors_upto(views, link@, names, i as int),
            errors@.len() == 0 ==> patches@.len() == i,
            errors@.len() == 0 ==> forall|k: int|
                0 <= k < i ==> patch_for(views, link@, names[k]) == Some((#[trigger] patches@[k])@),
        decreases work@.len() - i,
    {
        let name = &work[i];
        assert(name@ == names[i as int]);
        let ghost before = errors@;
        match find_definition(units, name) {
            None => {
                errors.push(ResolveError::UndefinedSymbol { name: name.clone() });
                proof {
                    assert(error_views(errors@) == error_views(before) + seq![errors@.last()@]);
                }
            },
            Some((u, j)) => {
                let definition = &units[u].definitions[j];
                let ghost needed = needed_names(definition@);
                let ghost found = missing(needed, link@, definition@.name, needed.len() as int);
                proof {
                    definition_names(all_definitions(views)).index_of_first_ensures(name@);
                    assert(definition_of(views, name@) == Some(definition@));
                    assert(definition@.name == name@);
                }
                collect_missing(definition, link, &mut errors);
                proof {
                    assert(error_views(errors@) == error_views(before) + found);
                    assert(symbol_errors(views, link@, name@) == found);
                }
                if errors.len() == 0 {
                    let ghost earlier = patches@;
                    proof {
                        assert(error_views(errors@).len() == 0);
                        assert(error_views(before).len() == 0);
                        assert(before.len() == 0);
                        assert(found.len() == 0);
                        assert(earlier.len() == i);
                    }
                    let bytes = fix_up(definition, link);
                    match link.address_of(name.as_str()) {
                        Some(address) => {
                            match ResolvedPatch::new(address, bytes, name.clone()) {
                                Some(patch) => {
                                    proof {
                                        assert(patch_of(definition@, link@) == Some(patch@));
                                        assert(patch_for(views, link@, names[i as int]) == Some(
                                            patch@,
                                        ));
                                    }
                                    patches.push(patch);
                                    proof {
                                        assert forall|k: int| 0 <= k < i + 1 implies patch_for(
                                            views,
                                            link@,
                                            names[k],
                                        ) == Some((#[trigger] patches@[k])@) by {
                                            if k < i {
                                                assert(patches@[k] == earlier[k]);
                                            }
                                        }
                                    }
                                },
                                None => {
                                    assert(false);
                                },
                            }
                        },
                        None => {
                            proof {
                                assert(needed[0] == name@);
                                lemma_missing_own_name(needed, link@, name@, needed.len() as int);
                                assert(false);
                            }
                        },
                    }
                }
            },
        }
        i += 1;
    }
    if errors.len() == 0 {
        proof {
            assert(patch_views(patches@) == planned_patches(views, link@, names));
        }
        Ok(patches)
    } else {
        Err(errors)
    }
}

} // verus!
