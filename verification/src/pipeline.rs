//! The stages of a build around the compilation: loading the two tables
//! before it, and behind it resolving the symbols and applying their patches
//! to the image.

use vstd::prelude::*;
use crate::compile::{CompileError, CompileErrorView, compile_error_views};
use crate::link_table::{
    LinkEntryView, LinkTable, content_lines, entries_of, fails_with, faultless,
    lemma_fault_is_determined, line_warnings, well_formed,
};
use crate::load::{
    LoadError, LoadErrorView, LoadWarning, LoadWarningView, path_warning, warning_views,
};
use crate::mapping::OutOfRange;
use crate::patch::{
    PatchError, PatchErrorView, TargetImage, applies_as, apply, mapped_by, outcome_view,
    patch_views,
};
use crate::patch_laws::lemma_application_is_determined;
use crate::resolve::{
    ResolveError, ResolveErrorView, error_views, errors_upto, planned_patches, resolve, work_list,
};
use crate::symbol_table::{SymbolTable, first_repeat};
use crate::text::lines_of;
use crate::unit::{SourceUnit, SourceUnitView, unit_views};

verus! {

/// Why a build failed: the failure of the first stage that did not succeed.
#[derive(Debug)]
pub enum BuildError {
    /// A table could not be loaded.
    Load(LoadError),
    /// The sources could not all be compiled.
    Compile(Vec<CompileError>),
    /// The symbols could not all be resolved.
    Resolve(Vec<ResolveError>),
    /// The patches could not be applied.
    Patch(PatchError),
}

/// The mathematical value of a `BuildError`.
pub enum BuildErrorView {
    Load(LoadErrorView),
    Compile(Seq<CompileErrorView>),
    Resolve(Seq<ResolveErrorView>),
    Patch(PatchErrorView),
}

impl View for BuildError {
    type V = BuildErrorView;

    open spec fn view(&self) -> BuildErrorView {
        match self {
            BuildError::Load(e) => BuildErrorView::Load(e@),
            BuildError::Compile(errors) => BuildErrorView::Compile(compile_error_views(errors@)),
            BuildError::Resolve(errors) => BuildErrorView::Resolve(error_views(errors@)),
            BuildError::Patch(e) => BuildErrorView::Patch(e@),
        }
    }
}

/// The two tables of a build and the warnings that loading them gave.
pub struct Tables {
    pub link: LinkTable,
    pub symbols: SymbolTable,
    pub warnings: Vec<LoadWarning>,
}

/// The warnings of a link table at `path` with the text `text`: that of
/// the path, if there is one, before those of the lines.
pub open spec fn load_warnings(path: Seq<char>, text: Seq<char>) -> Seq<LoadWarningView> {
    match path_warning(path) {
        Some(w) => seq![w] + line_warnings(text),
        None => line_warnings(text),
    }
}

/// Loads the link table, read from the file at `link_path` as `link_text`,
/// and the symbol table, read as `symbol_text`. A fault of the link table
/// is reported before one of the symbol table.
pub fn load_tables(link_path: &str, link_text: &str, symbol_text: &str) -> (r: Result<
    Tables,
    BuildError,
>)
    ensures
        match r {
            Ok(tables) => {
                &&& faultless(link_text@)
                &&& tables.link@ == entries_of(content_lines(link_text@))
                &&& well_formed(tables.link@)
                &&& warning_views(tables.warnings@) == load_warnings(link_path@, link_text@)
                &&& tables.symbols@ == lines_of(symbol_text@)
                &&& tables.symbols@.no_duplicates()
            },
            Err(BuildError::Load(e)) => if faultless(link_text@) {
                exists|j: int| #[trigger]
                    first_repeat(lines_of(symbol_text@), j) && e@
                        == (LoadErrorView::DuplicateSymbol { name: lines_of(symbol_text@)[j] })
            } else {
                fails_with(link_text@, e@)
            },
            Err(_) => false,
        },
{
    match LinkTable::load(link_path, link_text) {
        Err(e) => {
            proof {
                lemma_fault_is_determined(link_text@, e@, e@);
            }
            Err(BuildError::Load(e))
        },
        Ok(loaded) => match SymbolTable::parse(symbol_text) {
            Err(e) => Err(BuildError::Load(e)),
            Ok(symbols) => Ok(Tables { link: loaded.table, symbols, warnings: loaded.warnings }),
        },
    }
}

/// The value of the outcome of a build.
pub open spec fn build_view(r: Result<TargetImage, BuildError>) -> Result<Seq<u8>, BuildErrorView> {
    match r {
        Ok(image) => Ok(image@),
        Err(e) => Err(e@),
    }
}

/// What resolving and applying gives, with the patches at `offsets`: the
/// findings of resolution where there are any, and otherwise the outcome of
/// applying the planned patches.
pub open spec fn links_as(
    image: Seq<u8>,
    units: Seq<SourceUnitView>,
    link: Seq<LinkEntryView>,
    symbols: Seq<Seq<char>>,
    entry: Seq<char>,
    offsets: Seq<Option<usize>>,
    outcome: Result<Seq<u8>, BuildErrorView>,
) -> bool {
    let work = work_list(symbols, entry);
    let errors = errors_upto(units, link, work, work.len() as int);
    if errors.len() > 0 {
        outcome == Err::<Seq<u8>, BuildErrorView>(BuildErrorView::Resolve(errors))
    } else {
        match outcome {
            Ok(bytes) => applies_as(image, planned_patches(units, link, work), offsets, Ok(bytes)),
            Err(BuildErrorView::Patch(e)) => applies_as(
                image,
                planned_patches(units, link, work),
                offsets,
                Err(e),
            ),
            Err(_) => false,
        }
    }
}

/// Resolves the symbols of the build and applies their patches to a copy
/// of `image`. Nothing is applied unless every symbol is resolved, and no
/// image is handed out unless every patch is applied.
pub fn link_image<F: Fn(u32) -> Result<usize, OutOfRange>>(
    image: &TargetImage,
    units: &Vec<SourceUnit>,
    link: &LinkTable,
    symbols: &SymbolTable,
    entry_symbol: &str,
    address_to_offset: F,
) -> (r: Result<TargetImage, BuildError>)
    requires
        forall|address: u32| call_requires(address_to_offset, (address,)),
    ensures
        ({
            let work = work_list(symbols@, entry_symbol@);
            let errors = errors_upto(unit_views(units@), link@, work, work.len() as int);
            if errors.len() > 0 {
                build_view(r) == Err::<Seq<u8>, BuildErrorView>(BuildErrorView::Resolve(errors))
            } else {
                exists|offsets: Seq<Option<usize>>|
                    mapped_by(
                        address_to_offset,
                        planned_patches(unit_views(units@), link@, work),
                        offsets,
                    ) && #[trigger] links_as(
                        image@,
                        unit_views(units@),
                        link@,
                        symbols@,
                        entry_symbol@,
                        offsets,
                        build_view(r),
                    )
            }
        }),
{
    match resolve(units, link, symbols, entry_symbol) {
        Err(errors) => Err(BuildError::Resolve(errors)),
        Ok(patches) => {
            let applied = apply(image, &patches, address_to_offset);
            let ghost work = work_list(symbols@, entry_symbol@);
            let ghost planned = planned_patches(unit_views(units@), link@, work);
            proof {
                assert(patch_views(patches@) == planned);
            }
            let r = match applied {
                Ok(patched) => Ok(patched),
                Err(e) => Err(BuildError::Patch(e)),
            };
            proof {
                let offsets = choose|offsets: Seq<Option<usize>>|
                    mapped_by(address_to_offset, planned, offsets) && #[trigger] applies_as(
                        image@,
                        planned,
                        offsets,
                        outcome_view(applied),
                    );
                assert(links_as(
                    image@,
                    unit_views(units@),
                    link@,
                    symbols@,
                    entry_symbol@,
                    offsets,
                    build_view(r),
                ));
            }
            r
        },
    }
}

/// Resolving and applying is determined by what goes in: the image, the
/// units, the two tables, the entry symbol and the offsets of the patches.
/// Two builds from the same give the same image, byte for byte, or the same
/// failure.
pub proof fn lemma_build_is_determined(
    image: Seq<u8>,
    units: Seq<SourceUnitView>,
    link: Seq<LinkEntryView>,
    symbols: Seq<Seq<char>>,
    entry: Seq<char>,
    offsets: Seq<Option<usize>>,
    first: Result<Seq<u8>, BuildErrorView>,
    second: Result<Seq<u8>, BuildErrorView>,
)
    requires
        links_as(image, units, link, symbols, entry, offsets, first),
        links_as(image, units, link, symbols, entry, offsets, second),
    ensures
        first == second,
{
    let work = work_list(symbols, entry);
    let errors = errors_upto(units, link, work, work.len() as int);
    if errors.len() == 0 {
        let planned = planned_patches(units, link, work);
        let a: Result<Seq<u8>, PatchErrorView> = match first {
            Ok(bytes) => Ok(bytes),
            Err(BuildErrorView::Patch(e)) => Err(e),
            Err(_) => Err(arbitrary()),
        };
        let b: Result<Seq<u8>, PatchErrorView> = match second {
            Ok(bytes) => Ok(bytes),
            Err(BuildErrorView::Patch(e)) => Err(e),
            Err(_) => Err(arbitrary()),
        };
        lemma_application_is_determined(image, planned, offsets, a, b);
    }
}

} // verus!
