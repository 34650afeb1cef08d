//! The symbol table: the names that a build produces and patches, in the
//! order in which they are processed and reported.

use vstd::prelude::*;
use vstd::hash_map::StringHashMap;
use crate::load::{LoadError, LoadErrorView};
use crate::text::{lines, lines_of, string_views};

verus! {

/// Whether line `j` is the first that repeats the name of an earlier line.
pub open spec fn first_repeat(names: Seq<Seq<char>>, j: int) -> bool {
    &&& 0 <= j < names.len()
    &&& names.take(j).no_duplicates()
    &&& names.take(j).contains(names[j])
}

/// The place of `name` among `names`.
pub open spec fn slot(names: Seq<Seq<char>>, name: Seq<char>) -> Option<int> {
    names.index_of_first(name)
}

/// The names of the symbols of a build, in order and without repetition.
pub struct SymbolTable {
    names: Vec<String>,
    slots: StringHashMap<usize>,
}

impl View for SymbolTable {
    type V = Seq<Seq<char>>;

    closed spec fn view(&self) -> Seq<Seq<char>> {
        string_views(self.names@)
    }
}

/// Whether `slots` maps each of `names` to its place, and no other name to
/// anything.
spec fn slotted(names: Seq<String>, slots: Map<Seq<char>, usize>) -> bool {
    &&& forall|i: int|
        0 <= i < names.len() ==> slots.contains_key((#[trigger] names[i])@) && slots[names[i]@]
            == i
    &&& forall|name: Seq<char>| #[trigger]
        slots.contains_key(name) ==> 0 <= slots[name] < names.len() && names[slots[name] as int]@
            == name
}

impl SymbolTable {
    #[verifier::type_invariant]
    spec fn inv(&self) -> bool {
        slotted(self.names@, self.slots@)
    }

    /// Reads the text of a symbol table: one name on each line. The first
    /// line that repeats an earlier name ends the reading.
    pub fn parse(text: &str) -> (r: Result<SymbolTable, LoadError>)
        ensures
            match r {
                Ok(table) => table@ == lines_of(text@) && table@.no_duplicates(),
                Err(e) => exists|j: int| #[trigger]
                    first_repeat(lines_of(text@), j) && e@ == (LoadErrorView::DuplicateSymbol {
                        name: lines_of(text@)[j],
                    }),
            },
    {
        let all = lines(text);
        let ghost wanted = lines_of(text@);
        let mut names: Vec<String> = Vec::new();
        let mut slots: StringHashMap<usize> = StringHashMap::new();
        let mut i: usize = 0;
        while i < all.len()
            invariant
                i <= all@.len(),
                string_views(all@) == wanted,
                wanted == lines_of(text@),
                names@.len() == i,
                forall|k: int| 0 <= k < i ==> (#[trigger] names@[k])@ == wanted[k],
                slotted(names@, slots@),
            decreases all@.len() - i,
        {
            let name = all[i].clone();
            assert(name@ == wanted[i as int]);
            if slots.contains_key(name.as_str()) {
                proof {
                    let k = slots@[name@] as int;
                    assert(names@[k]@ == name@);
                    assert(wanted.take(i as int)[k] == wanted[i as int]);
                    assert forall|a: int, b: int|
                        0 <= a < i && 0 <= b < i && a != b implies wanted.take(i as int)[a]
                        != wanted.take(i as int)[b] by {
                        assert(slots@[names@[a]@] == a);
                        assert(slots@[names@[b]@] == b);
                    }
                    assert(first_repeat(wanted, i as int));
                }
                return Err(LoadError::DuplicateSymbol { name });
            }
            let ghost old_names = names@;
            let ghost old_slots = slots@;
            slots.insert(name.clone(), i);
            names.push(name);
            proof {
                assert forall|k: int| 0 <= k < names@.len() implies slots@.contains_key(
                    (#[trigger] names@[k])@,
                ) && slots@[names@[k]@] == k by {
                    if k < i {
                        assert(names@[k] == old_names[k]);
                        assert(old_slots.contains_key(old_names[k]@));
                    }
                }
                assert forall|n: Seq<char>| #[trigger] slots@.contains_key(n) implies 0
                    <= slots@[n] < names@.len() && names@[slots@[n] as int]@ == n by {
                    if n != names@[i as int]@ {
                        assert(old_slots.contains_key(n));
                        assert(names@[old_slots[n] as int] == old_names[old_slots[n] as int]);
                    }
                }
            }
            i += 1;
        }
        proof {
            assert(string_views(names@) == wanted);
            assert forall|a: int, b: int|
                0 <= a < wanted.len() && 0 <= b < wanted.len() && a != b implies wanted[a]
                != wanted[b] by {
                assert(slots@[names@[a]@] == a);
                assert(slots@[names@[b]@] == b);
            }
        }
        Ok(SymbolTable { names, slots })
    }

    /// The names, in order.
    pub fn names(&self) -> (r: &Vec<String>)
        ensures
            string_views(r@) == self@,
            self@.no_duplicates(),
    {
        proof {
            use_type_invariant(self);
            assert forall|a: int, b: int|
                0 <= a < self@.len() && 0 <= b < self@.len() && a != b implies self@[a]
                != self@[b] by {
                assert(self.slots@[self.names@[a]@] == a);
                assert(self.slots@[self.names@[b]@] == b);
            }
        }
        &self.names
    }

    /// The number of names.
    pub fn len(&self) -> (n: usize)
        ensures
            n == self@.len(),
    {
        self.names.len()
    }

    /// The place of `name` in the table, counted from 0.
    pub fn slot_of(&self, name: &str) -> (r: Option<usize>)
        ensures
            match r {
                Some(i) => slot(self@, name@) == Some(i as int),
                None => slot(self@, name@) is None,
            },
    {
        proof {
            use_type_invariant(self);
            self@.index_of_first_ensures(name@);
        }
        match self.slots.get(name) {
            Some(i) => {
                proof {
                    assert(self@[*i as int] == name@);
                    let first = self@.index_of_first(name@).unwrap();
                    assert(self.slots@[self.names@[first]@] == first);
                }
                Some(*i)
            },
            None => {
                proof {
                    if self@.contains(name@) {
                        let k = choose|k: int| 0 <= k < self@.len() && self@[k] == name@;
                        assert(self.slots@.contains_key(self.names@[k]@));
                    }
                }
                None
            },
        }
    }

    /// Whether `name` is in the table.
    pub fn contains(&self, name: &str) -> (r: bool)
        ensures
            r == self@.contains(name@),
    {
        proof {
            self@.index_of_first_ensures(name@);
        }
        self.slot_of(name).is_some()
    }
}

} // verus!
