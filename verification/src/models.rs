//! Data types of the permission model.
//!
//! A [`CapabilityDescriptor`] is the catalogue of a permission system: a
//! finite map from capability names to bit values. Its view is a
//! `Map<Seq<char>, i32>`, and every contract of this crate speaks of that
//! map. The entries are kept in a vector, in the order in which their names
//! were first inserted, and no name occurs twice.

use crate::text::same_text;
use std::collections::HashSet;
use vstd::prelude::*;

verus! {

/// The name of a capability, such as `"Administrator"`.
pub type CapabilityName = String;

/// The bit pattern of one capability, by convention a single power of two.
///
/// The type is a signed 32-bit integer, so a descriptor can give up to 31
/// capabilities a bit of their own below the sign bit.
pub type CapabilityHexUnitValue = i32;

/// A combined permission value: the OR of zero or more unit values.
pub type CapilityHexValue = i32;

/// The unit values that a permission value activates, each once.
pub type CapabilityHexUnitSet = HashSet<CapabilityHexUnitValue>;

/// The map that a list of entries stands for. Where a name occurs twice, the
/// later entry wins.
spec fn listed_map(entries: Seq<(String, i32)>) -> Map<Seq<char>, i32>
    decreases entries.len(),
{
    if entries.len() == 0 {
        Map::empty()
    } else {
        listed_map(entries.drop_last()).insert(entries.last().0@, entries.last().1)
    }
}

/// No two entries of the list carry the same name.
spec fn names_differ(entries: Seq<(String, i32)>) -> bool {
    forall|i: int, j: int|
        #![trigger entries[i], entries[j]]
        0 <= i < j < entries.len() ==> entries[i].0@ != entries[j].0@
}

/// The keys of `listed_map(entries)` are the names that occur in `entries`.
proof fn lemma_listed_keys(entries: Seq<(String, i32)>)
    ensures
        listed_map(entries).dom().finite(),
        forall|name: Seq<char>|
            listed_map(entries).contains_key(name) <==> exists|i: int|
                0 <= i < entries.len() && (#[trigger] entries[i]).0@ == name,
    decreases entries.len(),
{
    if entries.len() > 0 {
        let front = entries.drop_last();
        lemma_listed_keys(front);
        assert forall|name: Seq<char>|
            listed_map(entries).contains_key(name) <==> exists|i: int|
                0 <= i < entries.len() && (#[trigger] entries[i]).0@ == name by {
            if listed_map(entries).contains_key(name) {
                if name == entries.last().0@ {
                    assert(entries[entries.len() - 1].0@ == name);
                } else {
                    let i = choose|i: int| 0 <= i < front.len() && (#[trigger] front[i]).0@ == name;
                    assert(entries[i].0@ == name);
                }
            }
            if exists|i: int| 0 <= i < entries.len() && (#[trigger] entries[i]).0@ == name {
                let i = choose|i: int| 0 <= i < entries.len() && (#[trigger] entries[i]).0@ == name;
                if i < entries.len() - 1 {
                    assert(front[i].0@ == name);
                }
            }
        }
    }
}

/// Under distinct names, each entry is found in the map under its own name.
proof fn lemma_listed_value(entries: Seq<(String, i32)>, at: int)
    requires
        names_differ(entries),
        0 <= at < entries.len(),
    ensures
        listed_map(entries).contains_key(entries[at].0@),
        listed_map(entries)[entries[at].0@] == entries[at].1,
    decreases entries.len(),
{
    if at < entries.len() - 1 {
        let front = entries.drop_last();
        assert(names_differ(front)) by {
            assert forall|i: int, j: int|
                #![trigger front[i], front[j]]
                0 <= i < j < front.len() implies front[i].0@ != front[j].0@ by {
                assert(entries[i].0@ != entries[j].0@);
            }
        }
        lemma_listed_value(front, at);
        assert(front[at] == entries[at]);
        assert(entries[at].0@ != entries[entries.len() - 1].0@);
    }
}

/// Under distinct names, the map has as many keys as the list has entries.
proof fn lemma_listed_len(entries: Seq<(String, i32)>)
    requires
        names_differ(entries),
    ensures
        listed_map(entries).dom().finite(),
        listed_map(entries).dom().len() == entries.len(),
    decreases entries.len(),
{
    lemma_listed_keys(entries);
    if entries.len() > 0 {
        let front = entries.drop_last();
        assert(names_differ(front)) by {
            assert forall|i: int, j: int|
                #![trigger front[i], front[j]]
                0 <= i < j < front.len() implies front[i].0@ != front[j].0@ by {
                assert(entries[i].0@ != entries[j].0@);
            }
        }
        lemma_listed_len(front);
        lemma_listed_keys(front);
        assert(!listed_map(front).contains_key(entries.last().0@)) by {
            if listed_map(front).contains_key(entries.last().0@) {
                let i = choose|i: int|
                    0 <= i < front.len() && (#[trigger] front[i]).0@ == entries.last().0@;
                assert(entries[i].0@ != entries[entries.len() - 1].0@);
            }
        }
    }
}

/// A capability descriptor: the mapping from capability names to the bit
/// value of each.
///
/// Inserting a name that is already present replaces its value. The
/// descriptor neither assumes nor enforces that values are powers of two:
/// overlapping, zero and negative values are all accepted.
///
/// A descriptor is meant to hold some tens of entries: a lookup by name
/// walks the entries one by one.
pub struct CapabilityDescriptor {
    entries: Vec<(CapabilityName, CapabilityHexUnitValue)>,
}

impl View for CapabilityDescriptor {
    type V = Map<Seq<char>, i32>;

    closed spec fn view(&self) -> Map<Seq<char>, i32> {
        listed_map(self.entries@)
    }
}

impl CapabilityDescriptor {
    #[verifier::type_invariant]
    spec fn names_are_distinct(&self) -> bool {
        names_differ(self.entries@)
    }

    /// The descriptor made of the first `count` entries, in the order in
    /// which the entries are stored. It grows by one new name with each
    /// entry (see [`Self::entry_at`]) and reaches the whole descriptor at
    /// `count == self@.len()` (see [`Self::len`]).
    pub closed spec fn first_entries(&self, count: int) -> Map<Seq<char>, i32> {
        listed_map(self.entries@.take(count))
    }

    /// Before the first entry there is nothing.
    pub proof fn lemma_first_entries_start(&self)
        ensures
            self.first_entries(0) == Map::<Seq<char>, i32>::empty(),
    {
        assert(self.entries@.take(0).len() == 0);
    }

    /// A descriptor has finitely many names.
    pub proof fn lemma_view_finite(&self)
        ensures
            self@.dom().finite(),
    {
        lemma_listed_keys(self.entries@);
    }

    /// Creates a descriptor without entries.
    pub fn new() -> (descriptor: Self)
        ensures
            descriptor@ == Map::<Seq<char>, i32>::empty(),
    {
        CapabilityDescriptor { entries: Vec::new() }
    }

    /// The index at which `name` is stored, if it is stored.
    fn position(&self, name: &str) -> (found: Option<usize>)
        ensures
            match found {
                Some(at) => at < self.entries@.len() && self.entries@[at as int].0@ == name@,
                None => forall|i: int|
                    0 <= i < self.entries@.len() ==> (#[trigger] self.entries@[i]).0@ != name@,
            },
    {
        let count = self.entries.len();
        let mut index: usize = 0;
        while index < count
            invariant
                index <= count,
                count == self.entries@.len(),
                forall|i: int| 0 <= i < index ==> (#[trigger] self.entries@[i]).0@ != name@,
            decreases count - index,
        {
            if same_text(self.entries[index].0.as_str(), name) {
                return Some(index);
            }
            index += 1;
        }
        None
    }

    /// Sets the value of `name`, and returns the value that it had before.
    pub fn insert(&mut self, name: CapabilityName, value: CapabilityHexUnitValue) -> (previous:
        Option<CapabilityHexUnitValue>)
        ensures
            final(self)@ == old(self)@.insert(name@, value),
            previous == if old(self)@.contains_key(name@) {
                Some(old(self)@[name@])
            } else {
                None::<i32>
            },
    {
        proof {
            use_type_invariant(&*self);
            lemma_listed_keys(self.entries@);
        }
        let found = self.position(name.as_str());
        let mut entries: Vec<(CapabilityName, CapabilityHexUnitValue)> = Vec::new();
        std::mem::swap(&mut entries, &mut self.entries);
        let ghost before = entries@;
        let previous = match found {
            Some(at) => {
                let previous = entries[at].1;
                proof {
                    lemma_listed_value(before, at as int);
                    lemma_replace_entry(before, at as int, (name, value));
                }
                entries.set(at, (name, value));
                Some(previous)
            },
            None => {
                proof {
                    let after = before.push((name, value));
                    assert(after.drop_last() == before);
                    assert forall|i: int, j: int|
                        #![trigger after[i], after[j]]
                        0 <= i < j < after.len() implies after[i].0@ != after[j].0@ by {
                        if j < before.len() {
                            assert(before[i].0@ != before[j].0@);
                        } else {
                            assert(before[i].0@ != name@);
                        }
                    }
                }
                entries.push((name, value));
                None
            },
        };
        self.entries = entries;
        previous
    }

    /// Looks up the value of `name`.
    pub fn get(&self, name: &str) -> (value: Option<&CapabilityHexUnitValue>)
        ensures
            value == if self@.contains_key(name@) {
                Some(&self@[name@])
            } else {
                None::<&i32>
            },
    {
        proof {
            use_type_invariant(self);
            lemma_listed_keys(self.entries@);
        }
        match self.position(name) {
            Some(at) => {
                proof {
                    lemma_listed_value(self.entries@, at as int);
                }
                Some(&self.entries[at].1)
            },
            None => None,
        }
    }

    /// The number of entries.
    pub fn len(&self) -> (count: usize)
        ensures
            count == self@.len(),
            self.first_entries(count as int) == self@,
    {
        proof {
            use_type_invariant(self);
            lemma_listed_len(self.entries@);
            assert(self.entries@.take(self.entries@.len() as int) == self.entries@);
        }
        self.entries.len()
    }

    /// Tells whether the descriptor has no entries.
    pub fn is_empty(&self) -> (empty: bool)
        ensures
            empty == self@.is_empty(),
    {
        proof {
            use_type_invariant(self);
            lemma_listed_len(self.entries@);
        }
        self.entries.len() == 0
    }

    /// The entry stored at `index`, its name and its value, or `None` where
    /// `index` is not below `self.len()`.
    ///
    /// The entries before it do not hold its name, so walking the indices
    /// from `0` to `self.len()` visits each name of the descriptor once.
    pub fn entry_at(&self, index: usize) -> (entry: Option<
        (&CapabilityName, CapabilityHexUnitValue),
    >)
        ensures
            entry is Some <==> index < self@.len(),
            entry matches Some((name, value)) ==> {
                &&& self@.contains_key(name@)
                &&& self@[name@] == value
                &&& self.first_entries(index as int).dom().finite()
                &&& !self.first_entries(index as int).contains_key(name@)
                &&& self.first_entries(index + 1) == self.first_entries(index as int).insert(
                    name@,
                    value,
                )
            },
    {
        proof {
            use_type_invariant(self);
            lemma_listed_len(self.entries@);
        }
        if index >= self.entries.len() {
            return None;
        }
        proof {
            let all = self.entries@;
            lemma_listed_value(all, index as int);
            let front = all.take(index as int);
            lemma_listed_keys(front);
            if listed_map(front).contains_key(all[index as int].0@) {
                let i = choose|i: int|
                    0 <= i < front.len() && (#[trigger] front[i]).0@ == all[index as int].0@;
                assert(all[i].0@ != all[index as int].0@);
            }
            assert(all.take(index + 1).drop_last() == front);
        }
        Some((&self.entries[index].0, self.entries[index].1))
    }
}

/// Replacing the entry stored under a name by another entry of the same name
/// keeps the names distinct and sets the value of that name.
proof fn lemma_replace_entry(entries: Seq<(String, i32)>, at: int, entry: (String, i32))
    requires
        names_differ(entries),
        0 <= at < entries.len(),
        entries[at].0@ == entry.0@,
    ensures
        names_differ(entries.update(at, entry)),
        listed_map(entries.update(at, entry)) == listed_map(entries).insert(entry.0@, entry.1),
{
    let after = entries.update(at, entry);
    assert forall|i: int, j: int|
        #![trigger after[i], after[j]]
        0 <= i < j < after.len() implies after[i].0@ != after[j].0@ by {
        assert(entries[i].0@ != entries[j].0@);
    }
    lemma_listed_keys(entries);
    lemma_listed_keys(after);
    let left = listed_map(after);
    let right = listed_map(entries).insert(entry.0@, entry.1);
    assert forall|name: Seq<char>| left.contains_key(name) <==> right.contains_key(name) by {
        if left.contains_key(name) {
            let i = choose|i: int| 0 <= i < after.len() && (#[trigger] after[i]).0@ == name;
            assert(entries[i].0@ == name);
        }
        if right.contains_key(name) && name != entry.0@ {
            let i = choose|i: int| 0 <= i < entries.len() && (#[trigger] entries[i]).0@ == name;
            assert(after[i].0@ == name);
        }
        if name == entry.0@ {
            assert(after[at].0@ == name);
        }
    }
    assert forall|name: Seq<char>| left.contains_key(name) implies left[name] == right[name] by {
        let i = choose|i: int| 0 <= i < after.len() && (#[trigger] after[i]).0@ == name;
        lemma_listed_value(after, i);
        if i != at {
            lemma_listed_value(entries, i);
            assert(entries[i].0@ != entries[at].0@);
        }
    }
    assert(left =~= right);
}

impl Clone for CapabilityDescriptor {
    /// Copies the descriptor, entry by entry.
    fn clone(&self) -> (copy: Self)
        ensures
            copy@ == self@,
    {
        proof {
            use_type_invariant(self);
        }
        let count = self.entries.len();
        let mut entries: Vec<(CapabilityName, CapabilityHexUnitValue)> = Vec::new();
        let mut index: usize = 0;
        while index < count
            invariant
                index <= count,
                count == self.entries@.len(),
                entries@ == self.entries@.take(index as int),
            decreases count - index,
        {
            entries.push((self.entries[index].0.clone(), self.entries[index].1));
            index += 1;
        }
        assert(entries@ == self.entries@);
        CapabilityDescriptor { entries }
    }
}

/// The texts of a list of names.
spec fn listed_names(names: Seq<String>) -> Seq<Seq<char>> {
    names.map_values(|name: String| name@)
}

/// Appending a name appends its text, adds that text to the set of texts,
/// and keeps the texts distinct where the new one was not among them.
proof fn lemma_names_push(names: Seq<String>, name: String)
    ensures
        listed_names(names.push(name)) == listed_names(names).push(name@),
        listed_names(names.push(name)).to_set() == listed_names(names).to_set().insert(name@),
        listed_names(names).no_duplicates() && !listed_names(names).to_set().contains(name@)
            ==> listed_names(names.push(name)).no_duplicates(),
{
    let before = listed_names(names);
    let after = listed_names(names.push(name));
    assert(after =~= before.push(name@));
    before.lemma_push_to_set_commute(name@);
    if before.no_duplicates() && !before.to_set().contains(name@) {
        assert forall|i: int, j: int|
            0 <= i < after.len() && 0 <= j < after.len() && i != j implies after[i] != after[j] by {
            if i < before.len() && j < before.len() {
                assert(before[i] != before[j]);
            } else if i < before.len() {
                assert(before.contains(before[i]));
            } else {
                assert(before.contains(before[j]));
            }
        }
    }
}

/// A set of capability names, each held once.
pub struct CapabilityNameSet {
    names: Vec<CapabilityName>,
}

impl View for CapabilityNameSet {
    type V = Set<Seq<char>>;

    closed spec fn view(&self) -> Set<Seq<char>> {
        listed_names(self.names@).to_set()
    }
}

impl CapabilityNameSet {
    #[verifier::type_invariant]
    spec fn names_are_distinct(&self) -> bool {
        listed_names(self.names@).no_duplicates()
    }

    /// The set made of the first `count` names, in the order in which the
    /// names are stored. It grows by one new name with each index (see
    /// [`Self::name_at`]) and reaches the whole set at `count == self@.len()`
    /// (see [`Self::len`]).
    pub closed spec fn first_names(&self, count: int) -> Set<Seq<char>> {
        listed_names(self.names@.take(count)).to_set()
    }

    /// Before the first name there is nothing.
    pub proof fn lemma_first_names_start(&self)
        ensures
            self.first_names(0) == Set::<Seq<char>>::empty(),
    {
        assert(listed_names(self.names@.take(0)).len() == 0);
        assert(self.first_names(0) =~= Set::<Seq<char>>::empty());
    }

    /// A name set has finitely many names.
    pub proof fn lemma_view_finite(&self)
        ensures
            self@.finite(),
    {
        vstd::seq_lib::seq_to_set_is_finite(listed_names(self.names@));
    }

    /// Creates a set without names.
    pub fn new() -> (name_set: Self)
        ensures
            name_set@ == Set::<Seq<char>>::empty(),
    {
        let name_set = CapabilityNameSet { names: Vec::new() };
        assert(name_set@ =~= Set::<Seq<char>>::empty());
        name_set
    }

    /// Tells whether `name` is in the set.
    pub fn contains(&self, name: &str) -> (found: bool)
        ensures
            found == self@.contains(name@),
    {
        let count = self.names.len();
        let mut index: usize = 0;
        while index < count
            invariant
                index <= count,
                count == self.names@.len(),
                forall|i: int| 0 <= i < index ==> (#[trigger] self.names@[i])@ != name@,
            decreases count - index,
        {
            if same_text(self.names[index].as_str(), name) {
                assert(listed_names(self.names@)[index as int] == name@);
                return true;
            }
            index += 1;
        }
        assert(!self@.contains(name@)) by {
            if self@.contains(name@) {
                let i = choose|i: int|
                    0 <= i < listed_names(self.names@).len() && listed_names(self.names@)[i]
                        == name@;
                assert(self.names@[i]@ == name@);
            }
        }
        false
    }

    /// Adds a name that the set does not hold yet.
    pub(crate) fn insert_new(&mut self, name: CapabilityName)
        requires
            !old(self)@.contains(name@),
        ensures
            final(self)@ == old(self)@.insert(name@),
    {
        proof {
            use_type_invariant(&*self);
        }
        let mut names: Vec<CapabilityName> = Vec::new();
        std::mem::swap(&mut names, &mut self.names);
        proof {
            lemma_names_push(names@, name);
        }
        names.push(name);
        self.names = names;
    }

    /// Adds `name` to the set. Returns `true` where the set did not hold it
    /// before.
    pub fn insert(&mut self, name: CapabilityName) -> (added: bool)
        ensures
            final(self)@ == old(self)@.insert(name@),
            added == !old(self)@.contains(name@),
    {
        if self.contains(name.as_str()) {
            assert(self@.insert(name@) =~= self@);
            false
        } else {
            self.insert_new(name);
            true
        }
    }

    /// The number of names in the set.
    pub fn len(&self) -> (count: usize)
        ensures
            count == self@.len(),
            self.first_names(count as int) == self@,
    {
        proof {
            use_type_invariant(self);
            listed_names(self.names@).unique_seq_to_set();
            assert(self.names@.take(self.names@.len() as int) == self.names@);
        }
        self.names.len()
    }

    /// Tells whether the set holds no name.
    pub fn is_empty(&self) -> (empty: bool)
        ensures
            empty == self@.is_empty(),
    {
        proof {
            use_type_invariant(self);
            listed_names(self.names@).unique_seq_to_set();
            vstd::seq_lib::seq_to_set_is_finite(listed_names(self.names@));
        }
        self.names.len() == 0
    }

    /// The name stored at `index`, or `None` where `index` is not below
    /// `self.len()`.
    ///
    /// The names before it differ from it, so walking the indices from `0`
    /// to `self.len()` visits each name of the set once.
    pub fn name_at(&self, index: usize) -> (found: Option<&CapabilityName>)
        ensures
            found is Some <==> index < self@.len(),
            found matches Some(name) ==> {
                &&& self@.contains(name@)
                &&& !self.first_names(index as int).contains(name@)
                &&& self.first_names(index + 1) == self.first_names(index as int).insert(name@)
            },
    {
        proof {
            use_type_invariant(self);
            listed_names(self.names@).unique_seq_to_set();
        }
        if index >= self.names.len() {
            return None;
        }
        proof {
            let all = listed_names(self.names@);
            let front = self.names@.take(index as int);
            assert(self.names@.take(index + 1) == front.push(self.names@[index as int]));
            lemma_names_push(front, self.names@[index as int]);
            assert(all[index as int] == self.names@[index as int]@);
            if listed_names(front).to_set().contains(all[index as int]) {
                let i = choose|i: int|
                    0 <= i < front.len() && listed_names(front)[i] == all[index as int];
                assert(all[i] == all[index as int]);
            }
        }
        Some(&self.names[index])
    }
}

} // verus!
