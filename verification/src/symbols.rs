//! The table of variables: each name has one value.

use crate::text::{chars_of, same_text};
use crate::value::copy_value;
use value_unit::ValueUnit;
use vstd::prelude::*;

verus! {

/// A name and the value it stands for.
struct Entry {
    name: Vec<char>,
    value: ValueUnit,
}

/// The variables of a session. No name occurs twice: a value that is
/// assigned to a name takes the place of the one that the name had.
pub struct SymbolTable {
    entries: Vec<Entry>,
}

impl View for SymbolTable {
    type V = Map<Seq<char>, ValueUnit>;

    closed spec fn view(&self) -> Map<Seq<char>, ValueUnit> {
        Map::new(
            |name: Seq<char>| self.holds(name),
            |name: Seq<char>| self.entries@[self.index_of(name)].value,
        )
    }
}

impl SymbolTable {
    /// No name occurs twice.
    #[verifier::type_invariant]
    spec fn distinct(self) -> bool {
        forall|i: int, j: int|
            0 <= i < j < self.entries@.len() ==> (#[trigger] self.entries@[i]).name@ != (
            #[trigger] self.entries@[j]).name@
    }

    /// Whether an entry has this name.
    spec fn holds(self, name: Seq<char>) -> bool {
        exists|i: int| 0 <= i < self.entries@.len() && (#[trigger] self.entries@[i]).name@ == name
    }

    /// The index of an entry with this name.
    spec fn index_of(self, name: Seq<char>) -> int {
        choose|i: int| 0 <= i < self.entries@.len() && (#[trigger] self.entries@[i]).name@ == name
    }

    /// A table without variables.
    pub fn new() -> (table: SymbolTable)
        ensures
            table@ == Map::<Seq<char>, ValueUnit>::empty(),
    {
        let table = SymbolTable { entries: Vec::new() };
        assert(table@ =~= Map::<Seq<char>, ValueUnit>::empty());
        table
    }

    /// The index of the entry with this name.
    fn find(&self, name: &Vec<char>) -> (found: Option<usize>)
        ensures
            match found {
                Some(i) => i < self.entries@.len() && self.entries@[i as int].name@ == name@
                    && self@.contains_key(name@) && self@[name@] == self.entries@[i as int].value,
                None => !self@.contains_key(name@) && !self.holds(name@),
            },
    {
        proof {
            use_type_invariant(self);
        }
        let mut i: usize = 0;
        while i < self.entries.len()
            invariant
                i <= self.entries@.len(),
                self.distinct(),
                forall|j: int| 0 <= j < i ==> (#[trigger] self.entries@[j]).name@ != name@,
            decreases self.entries@.len() - i,
        {
            if same_text(&self.entries[i].name, name) {
                assert(self.holds(name@));
                assert(self.index_of(name@) == i);
                return Some(i);
            }
            i += 1;
        }
        None
    }

    /// The value of the variable whose name is the characters `name`.
    pub fn lookup(&self, name: &Vec<char>) -> (value: Option<ValueUnit>)
        ensures
            value == if self@.contains_key(name@) {
                Some(self@[name@])
            } else {
                None
            },
    {
        match self.find(name) {
            Some(i) => Some(copy_value(&self.entries[i].value)),
            None => None,
        }
    }

    /// The value of the variable `name`.
    pub fn get(&self, name: &str) -> (value: Option<ValueUnit>)
        ensures
            value == if self@.contains_key(name@) {
                Some(self@[name@])
            } else {
                None
            },
    {
        let chars = chars_of(name);
        self.lookup(&chars)
    }

    /// Tells whether there is a variable `name`.
    pub fn contains_key(&self, name: &str) -> (held: bool)
        ensures
            held == self@.contains_key(name@),
    {
        let chars = chars_of(name);
        self.find(&chars).is_some()
    }

    /// Gives the variable whose name is the characters `name` the value
    /// `value`, in place of the value that it had, if it had one.
    pub fn assign(&mut self, name: Vec<char>, value: ValueUnit)
        ensures
            final(self)@ == old(self)@.insert(name@, value),
    {
        proof {
            use_type_invariant(&*self);
        }
        let ghost before = *self;
        let found = self.find(&name);
        let mut entries: Vec<Entry> = Vec::new();
        core::mem::swap(&mut entries, &mut self.entries);
        match found {
            Some(i) => {
                entries.set(i, Entry { name, value });
            },
            None => {
                entries.push(Entry { name, value });
            },
        }
        assert forall|a: int| 0 <= a < before.entries@.len() implies (#[trigger] entries@[a]).name@
            == before.entries@[a].name@ by {}
        self.entries = entries;
        assert(self@ =~= before@.insert(name@, value)) by {
            assert forall|key: Seq<char>| self.holds(key) <==> (before.holds(key) || key
                == name@) by {
                if before.holds(key) {
                    let a = before.index_of(key);
                    assert(self.entries@[a].name@ == key);
                }
                if key == name@ {
                    let a = if before.holds(key) {
                        before.index_of(key)
                    } else {
                        self.entries@.len() - 1
                    };
                    assert(self.entries@[a].name@ == key);
                }
            }
            assert forall|key: Seq<char>| self.holds(key) implies #[trigger] self@[key]
                == before@.insert(name@, value)[key] by {
                let a = self.index_of(key);
                if key != name@ {
                    let b = before.index_of(key);
                    assert(self.entries@[b].name@ == key);
                }
            }
        }
    }

    /// Gives the variable `name` the value `value`, in place of the value
    /// that it had, if it had one.
    pub fn insert(&mut self, name: String, value: ValueUnit)
        ensures
            final(self)@ == old(self)@.insert(name@, value),
    {
        let chars = chars_of(name.as_str());
        self.assign(chars, value);
    }
}

} // verus!
