//! What holds of the findings of every resolution.

use vstd::prelude::*;
use vstd::multiset::{
    lemma_insert_increases_count_by_1, lemma_insert_other_elements_unchanged,
    group_multiset_axioms,
};
use vstd::seq_lib::lemma_multiset_commutative;
use crate::link_table::{LinkEntryView, lookup};
use crate::resolve::{
    ResolveErrorView, all_definitions, definition_names, definition_of, errors_upto, missing,
    needed_names, symbol_errors, work_list,
};
use crate::unit::SourceUnitView;

verus! {

/// The finding that no unit defines `name`.
pub open spec fn undefined(name: Seq<char>) -> ResolveErrorView {
    ResolveErrorView::UndefinedSymbol { name }
}

/// The findings for the names that a definition needs speak of no
/// undefined symbol.
pub proof fn lemma_missing_holds_no_undefined(
    needed: Seq<Seq<char>>,
    link: Seq<LinkEntryView>,
    symbol: Seq<char>,
    k: int,
    name: Seq<char>,
)
    ensures
        !missing(needed, link, symbol, k).contains(undefined(name)),
    decreases k,
{
    if k > 0 {
        lemma_missing_holds_no_undefined(needed, link, symbol, k - 1, name);
        let before = missing(needed, link, symbol, k - 1);
        let now = missing(needed, link, symbol, k);
        if now.contains(undefined(name)) {
            let i = choose|i: int| 0 <= i < now.len() && now[i] == undefined(name);
            if i < before.len() {
                assert(before[i] == undefined(name));
            }
        }
    }
}

/// A list of one finding holds that finding once and no other.
pub proof fn lemma_count_in_one(finding: ResolveErrorView, other: ResolveErrorView)
    ensures
        seq![finding].to_multiset().count(other) == if finding == other {
            1nat
        } else {
            0nat
        },
{
    broadcast use group_multiset_axioms;

    let none = Seq::<ResolveErrorView>::empty();
    none.to_multiset_ensures();
    assert(!none.contains(other));
    assert(none.push(finding) == seq![finding]);
    if finding == other {
        lemma_insert_increases_count_by_1(none.to_multiset(), finding);
    } else {
        lemma_insert_other_elements_unchanged(none.to_multiset(), finding, other);
    }
}

/// Among the findings for the first `k` symbols, the finding that `name` is
/// undefined occurs once where `name` is one of these symbols and no unit
/// defines it, and not at all otherwise.
pub proof fn lemma_undefined_count(
    units: Seq<SourceUnitView>,
    link: Seq<LinkEntryView>,
    work: Seq<Seq<char>>,
    k: int,
    name: Seq<char>,
)
    requires
        0 <= k <= work.len(),
        work.no_duplicates(),
    ensures
        errors_upto(units, link, work, k).to_multiset().count(undefined(name)) == if work.take(
            k,
        ).contains(name) && definition_of(units, name) is None {
            1nat
        } else {
            0nat
        },
    decreases k,
{
    broadcast use group_multiset_axioms;

    if k == 0 {
        let none = errors_upto(units, link, work, 0);
        none.to_multiset_ensures();
        assert(!none.contains(undefined(name)));
        assert(!work.take(0).contains(name));
    } else {
        lemma_undefined_count(units, link, work, k - 1, name);
        let symbol = work[k - 1];
        let before = errors_upto(units, link, work, k - 1);
        let here = symbol_errors(units, link, symbol);
        lemma_multiset_commutative(before, here);
        match definition_of(units, symbol) {
            None => {
                lemma_count_in_one(undefined(symbol), undefined(name));
            },
            Some(d) => {
                lemma_missing_holds_no_undefined(
                    needed_names(d),
                    link,
                    symbol,
                    needed_names(d).len() as int,
                    name,
                );
                here.to_multiset_ensures();
            },
        }
        let earlier = work.take(k - 1);
        let now = work.take(k);
        if earlier.contains(name) {
            let i = choose|i: int| 0 <= i < earlier.len() && earlier[i] == name;
            assert(now[i] == name);
            assert(work[i] == name);
            assert(symbol != name);
        }
        if symbol == name {
            assert(now[k - 1] == name);
        }
        if now.contains(name) && symbol != name {
            let i = choose|i: int| 0 <= i < now.len() && now[i] == name;
            assert(earlier[i] == name);
        }
    }
}

/// No symbol of a build is processed twice.
pub proof fn lemma_work_list_is_distinct(symbols: Seq<Seq<char>>, entry: Seq<char>)
    requires
        symbols.no_duplicates(),
    ensures
        work_list(symbols, entry).no_duplicates(),
{
    let work = work_list(symbols, entry);
    if !symbols.contains(entry) {
        assert forall|i: int, j: int|
            0 <= i < work.len() && 0 <= j < work.len() && i != j implies work[i] != work[j] by {
            if i < symbols.len() && j < symbols.len() {
                assert(symbols[i] != symbols[j]);
            } else if i < symbols.len() {
                assert(symbols[i] != entry);
            } else {
                assert(symbols[j] != entry);
            }
        }
    }
}

/// A symbol of the build that no unit defines is reported as undefined
/// exactly once, whatever else is reported.
pub proof fn lemma_undefined_symbol_is_reported_once(
    units: Seq<SourceUnitView>,
    link: Seq<LinkEntryView>,
    symbols: Seq<Seq<char>>,
    entry: Seq<char>,
    name: Seq<char>,
)
    requires
        symbols.no_duplicates(),
        work_list(symbols, entry).contains(name),
        definition_of(units, name) is None,
    ensures
        ({
            let work = work_list(symbols, entry);
            errors_upto(units, link, work, work.len() as int).to_multiset().count(undefined(name))
                == 1
        }),
{
    let work = work_list(symbols, entry);
    lemma_work_list_is_distinct(symbols, entry);
    assert(work.take(work.len() as int) == work);
    lemma_undefined_count(units, link, work, work.len() as int, name);
}

/// The findings for more names are no fewer.
pub proof fn lemma_missing_grows(
    needed: Seq<Seq<char>>,
    link: Seq<LinkEntryView>,
    symbol: Seq<char>,
    j: int,
    k: int,
)
    requires
        j <= k,
    ensures
        missing(needed, link, symbol, j).len() <= missing(needed, link, symbol, k).len(),
    decreases k - j,
{
    if j < k {
        lemma_missing_grows(needed, link, symbol, j, k - 1);
    }
}

/// Where a definition has no finding, the link table holds every name that
/// it needs.
pub proof fn lemma_nothing_missing(
    needed: Seq<Seq<char>>,
    link: Seq<LinkEntryView>,
    symbol: Seq<char>,
    i: int,
)
    requires
        0 <= i < needed.len(),
        missing(needed, link, symbol, needed.len() as int).len() == 0,
    ensures
        lookup(link, needed[i]) is Some,
{
    if lookup(link, needed[i]) is None {
        needed.index_of_first_ensures(needed[i]);
        assert(needed.contains(needed[i]));
        let first = needed.index_of_first(needed[i]).unwrap();
        assert(!needed.take(first).contains(needed[first])) by {
            if needed.take(first).contains(needed[first]) {
                let j = choose|j: int|
                    0 <= j < needed.take(first).len() && needed.take(first)[j] == needed[first];
                assert(needed[j] == needed[i]);
            }
        }
        assert(missing(needed, link, symbol, first + 1).len() > 0);
        lemma_missing_grows(needed, link, symbol, first + 1, needed.len() as int);
    }
}

/// The findings for more symbols are no fewer.
pub proof fn lemma_errors_grow(
    units: Seq<SourceUnitView>,
    link: Seq<LinkEntryView>,
    work: Seq<Seq<char>>,
    j: int,
    k: int,
)
    requires
        j <= k,
    ensures
        errors_upto(units, link, work, j).len() <= errors_upto(units, link, work, k).len(),
    decreases k - j,
{
    if j < k {
        lemma_errors_grow(units, link, work, j, k - 1);
    }
}

/// A resolution that succeeds leaves nothing open: every symbol of the
/// build has its definition, and the link table holds the address of the
/// symbol and of every name that its definition refers to.
pub proof fn lemma_success_is_complete(
    units: Seq<SourceUnitView>,
    link: Seq<LinkEntryView>,
    symbols: Seq<Seq<char>>,
    entry: Seq<char>,
    i: int,
)
    requires
        0 <= i < work_list(symbols, entry).len(),
        errors_upto(
            units,
            link,
            work_list(symbols, entry),
            work_list(symbols, entry).len() as int,
        ).len() == 0,
    ensures
        ({
            let name = work_list(symbols, entry)[i];
            &&& definition_of(units, name) is Some
            &&& lookup(link, name) is Some
            &&& forall|k: int|
                0 <= k < definition_of(units, name).unwrap().references.len() ==> lookup(
                    link,
                    (#[trigger] definition_of(units, name).unwrap().references[k]).name,
                ) is Some
        }),
{
    let work = work_list(symbols, entry);
    let name = work[i];
    lemma_errors_grow(units, link, work, i + 1, work.len() as int);
    lemma_errors_grow(units, link, work, 0, i);
    assert(errors_upto(units, link, work, i + 1) == errors_upto(units, link, work, i)
        + symbol_errors(units, link, name));
    assert(symbol_errors(units, link, name).len() == 0);
    let d = definition_of(units, name).unwrap();
    let needed = needed_names(d);
    definition_names(all_definitions(units)).index_of_first_ensures(name);
    assert(d.name == name);
    assert(needed[0] == name);
    lemma_nothing_missing(needed, link, name, 0);
    assert forall|k: int| 0 <= k < d.references.len() implies lookup(
        link,
        (#[trigger] d.references[k]).name,
    ) is Some by {
        assert(needed[k + 1] == d.references[k].name);
        lemma_nothing_missing(needed, link, name, k + 1);
    }
}

/// The symbol that a finding is about.
pub open spec fn subject(finding: ResolveErrorView) -> Seq<char> {
    match finding {
        ResolveErrorView::UndefinedSymbol { name } => name,
        ResolveErrorView::UnresolvedReference { referencing_symbol, .. } => referencing_symbol,
    }
}

/// Among the findings for the names that a symbol needs, no finding occurs
/// twice, and each is about that symbol and one of these names.
pub proof fn lemma_missing_once(
    needed: Seq<Seq<char>>,
    link: Seq<LinkEntryView>,
    symbol: Seq<char>,
    k: int,
    finding: ResolveErrorView,
)
    requires
        0 <= k <= needed.len(),
    ensures
        missing(needed, link, symbol, k).to_multiset().count(finding) <= 1,
        missing(needed, link, symbol, k).to_multiset().count(finding) > 0 ==> {
            &&& finding matches ResolveErrorView::UnresolvedReference {
                referencing_symbol,
                referenced_name,
            }
            &&& referencing_symbol == symbol
            &&& needed.take(k).contains(referenced_name)
        },
    decreases k,
{
    broadcast use group_multiset_axioms;

    let now = missing(needed, link, symbol, k);
    if k == 0 {
        now.to_multiset_ensures();
        assert(!now.contains(finding));
    } else {
        lemma_missing_once(needed, link, symbol, k - 1, finding);
        let before = missing(needed, link, symbol, k - 1);
        let name = needed[k - 1];
        let earlier = needed.take(k - 1);
        let seen = needed.take(k);
        if before.to_multiset().count(finding) > 0 {
            let n = finding->referenced_name;
            let j = choose|j: int| 0 <= j < earlier.len() && earlier[j] == n;
            assert(seen[j] == n);
        }
        if lookup(link, name) is None && !earlier.contains(name) {
            let added = ResolveErrorView::UnresolvedReference {
                referencing_symbol: symbol,
                referenced_name: name,
            };
            before.to_multiset_ensures();
            assert(now == before.push(added));
            if finding == added {
                lemma_insert_increases_count_by_1(before.to_multiset(), added);
                assert(seen[k - 1] == name);
            } else {
                lemma_insert_other_elements_unchanged(before.to_multiset(), added, finding);
            }
        }
    }
}

/// Among the findings for the first `k` symbols, no finding occurs twice,
/// and each is about one of these symbols.
pub proof fn lemma_findings_once(
    units: Seq<SourceUnitView>,
    link: Seq<LinkEntryView>,
    work: Seq<Seq<char>>,
    k: int,
    finding: ResolveErrorView,
)
    requires
        0 <= k <= work.len(),
        work.no_duplicates(),
    ensures
        errors_upto(units, link, work, k).to_multiset().count(finding) <= 1,
        errors_upto(units, link, work, k).to_multiset().count(finding) > 0 ==> work.take(
            k,
        ).contains(subject(finding)),
    decreases k,
{
    broadcast use group_multiset_axioms;

    if k == 0 {
        let none = errors_upto(units, link, work, 0);
        none.to_multiset_ensures();
        assert(!none.contains(finding));
    } else {
        lemma_findings_once(units, link, work, k - 1, finding);
        let symbol = work[k - 1];
        let before = errors_upto(units, link, work, k - 1);
        let here = symbol_errors(units, link, symbol);
        lemma_multiset_commutative(before, here);
        match definition_of(units, symbol) {
            None => {
                lemma_count_in_one(undefined(symbol), finding);
            },
            Some(d) => {
                lemma_missing_once(
                    needed_names(d),
                    link,
                    symbol,
                    needed_names(d).len() as int,
                    finding,
                );
            },
        }
        let earlier = work.take(k - 1);
        let now = work.take(k);
        if here.to_multiset().count(finding) > 0 {
            assert(subject(finding) == symbol);
            assert(now[k - 1] == symbol);
        }
        if before.to_multiset().count(finding) > 0 {
            let j = choose|j: int| 0 <= j < earlier.len() && earlier[j] == subject(finding);
            assert(now[j] == subject(finding));
            assert(work[j] == subject(finding));
            assert(subject(finding) != symbol);
        }
    }
}

/// The findings of a resolution form a set: none is reported twice.
pub proof fn lemma_findings_are_distinct(
    units: Seq<SourceUnitView>,
    link: Seq<LinkEntryView>,
    symbols: Seq<Seq<char>>,
    entry: Seq<char>,
    finding: ResolveErrorView,
)
    requires
        symbols.no_duplicates(),
    ensures
        ({
            let work = work_list(symbols, entry);
            errors_upto(units, link, work, work.len() as int).to_multiset().count(finding) <= 1
        }),
{
    let work = work_list(symbols, entry);
    lemma_work_list_is_distinct(symbols, entry);
    lemma_findings_once(units, link, work, work.len() as int, finding);
}

} // verus!
