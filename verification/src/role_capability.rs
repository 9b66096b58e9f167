//! The capabilities that a role holds.
//!
//! A [`RoleCapability`] pairs a descriptor with one permission value and
//! answers which capabilities that value activates. A capability is active
//! when the value shares a bit with the capability's unit value; an entry
//! whose unit value is `0` is therefore never active. The descriptor is not
//! validated here: a role works on any permission value, valid or not.

use crate::models::{
    CapabilityDescriptor, CapabilityHexUnitSet, CapabilityName, CapabilityNameSet,
    CapilityHexValue,
};
use vstd::prelude::*;

verus! {

/// Under the descriptor `d`, the permission value `bitmask` activates the
/// capability called `name`: the descriptor knows the name, and the value
/// shares a bit with the capability's unit value.
pub open spec fn holds_capability(d: Map<Seq<char>, i32>, bitmask: i32, name: Seq<char>) -> bool {
    d.contains_key(name) && bitmask & d[name] != 0
}

/// The names of the capabilities that `bitmask` activates under `d`.
pub open spec fn capability_names(d: Map<Seq<char>, i32>, bitmask: i32) -> Set<Seq<char>> {
    Set::new(|name: Seq<char>| holds_capability(d, bitmask, name))
}

/// The unit values of the capabilities that `bitmask` activates under `d`.
pub open spec fn capability_values(d: Map<Seq<char>, i32>, bitmask: i32) -> Set<i32> {
    Set::new(
        |value: i32|
            exists|name: Seq<char>| #[trigger] holds_capability(d, bitmask, name) && d[name] == value,
    )
}

/// An entry under a new name joins the active names and values exactly when
/// the permission value shares a bit with it.
pub proof fn lemma_active_insert_new_name(
    d: Map<Seq<char>, i32>,
    bitmask: i32,
    name: Seq<char>,
    value: i32,
)
    requires
        !d.contains_key(name),
    ensures
        capability_names(d.insert(name, value), bitmask) == if bitmask & value != 0 {
            capability_names(d, bitmask).insert(name)
        } else {
            capability_names(d, bitmask)
        },
        capability_values(d.insert(name, value), bitmask) == if bitmask & value != 0 {
            capability_values(d, bitmask).insert(value)
        } else {
            capability_values(d, bitmask)
        },
{
    let grown = d.insert(name, value);
    let names = if bitmask & value != 0 {
        capability_names(d, bitmask).insert(name)
    } else {
        capability_names(d, bitmask)
    };
    let values = if bitmask & value != 0 {
        capability_values(d, bitmask).insert(value)
    } else {
        capability_values(d, bitmask)
    };
    assert forall|other: Seq<char>|
        holds_capability(grown, bitmask, other) <==> (holds_capability(d, bitmask, other) || (other
            == name && bitmask & value != 0)) by {}
    assert(capability_names(grown, bitmask) =~= names);
    assert forall|unit: i32| capability_values(grown, bitmask).contains(unit) implies values.contains(
        unit,
    ) by {
        let holder = choose|holder: Seq<char>| #[trigger]
            holds_capability(grown, bitmask, holder) && grown[holder] == unit;
        if holder != name {
            assert(holds_capability(d, bitmask, holder) && d[holder] == unit);
        }
    }
    assert forall|unit: i32| values.contains(unit) implies capability_values(
        grown,
        bitmask,
    ).contains(unit) by {
        if capability_values(d, bitmask).contains(unit) {
            let holder = choose|holder: Seq<char>| #[trigger]
                holds_capability(d, bitmask, holder) && d[holder] == unit;
            assert(holds_capability(grown, bitmask, holder) && grown[holder] == unit);
        } else {
            assert(holds_capability(grown, bitmask, name) && grown[name] == unit);
        }
    }
    assert(capability_values(grown, bitmask) =~= values);
}

/// A role: a descriptor together with one permission value.
///
/// The role owns its descriptor. It is a snapshot: what the caller does to
/// another copy of the descriptor afterwards does not reach the role.
pub struct RoleCapability {
    descriptor: CapabilityDescriptor,
    /// The combined permission value of the role.
    pub hex_value: CapilityHexValue,
}

impl RoleCapability {
    /// The descriptor of the role, as a map from names to unit values.
    pub closed spec fn descriptor_view(&self) -> Map<Seq<char>, i32> {
        self.descriptor@
    }

    /// The permission value of the role: what the field `hex_value` holds.
    pub closed spec fn permission_value(&self) -> i32 {
        self.hex_value
    }

    /// Creates a role from a descriptor and a permission value. The value is
    /// taken as it is, valid or not.
    pub fn new(descriptor: CapabilityDescriptor, hex_value: CapilityHexValue) -> (role: Self)
        ensures
            role.descriptor_view() == descriptor@,
            role.permission_value() == hex_value,
    {
        RoleCapability { descriptor, hex_value }
    }

    /// The unit values of the capabilities that the role holds.
    pub fn to_hex_set(&self) -> (hex_set: CapabilityHexUnitSet)
        ensures
            hex_set@ == capability_values(self.descriptor_view(), self.permission_value()),
    {
        let mut hex_set = CapabilityHexUnitSet::new();
        let count = self.descriptor.len();
        let mut index: usize = 0;
        proof {
            self.descriptor.lemma_first_entries_start();
            assert(capability_values(Map::<Seq<char>, i32>::empty(), self.hex_value) =~= Set::<
                i32,
            >::empty());
        }
        while index < count
            invariant
                index <= count,
                count == self.descriptor@.len(),
                self.descriptor.first_entries(count as int) == self.descriptor@,
                hex_set@ == capability_values(
                    self.descriptor.first_entries(index as int),
                    self.hex_value,
                ),
            decreases count - index,
        {
            if let Some((name, value)) = self.descriptor.entry_at(index) {
                proof {
                    lemma_active_insert_new_name(
                        self.descriptor.first_entries(index as int),
                        self.hex_value,
                        name@,
                        value,
                    );
                }
                if self.hex_value & value != 0 {
                    hex_set.insert(value);
                }
            }
            index += 1;
        }
        hex_set
    }

    /// The names of the capabilities that the role holds.
    pub fn to_name_set(&self) -> (name_set: CapabilityNameSet)
        ensures
            name_set@ == capability_names(self.descriptor_view(), self.permission_value()),
    {
        let mut name_set = CapabilityNameSet::new();
        let count = self.descriptor.len();
        let mut index: usize = 0;
        proof {
            self.descriptor.lemma_first_entries_start();
            assert(capability_names(Map::<Seq<char>, i32>::empty(), self.hex_value) =~= Set::<
                Seq<char>,
            >::empty());
        }
        while index < count
            invariant
                index <= count,
                count == self.descriptor@.len(),
                self.descriptor.first_entries(count as int) == self.descriptor@,
                name_set@ == capability_names(
                    self.descriptor.first_entries(index as int),
                    self.hex_value,
                ),
            decreases count - index,
        {
            if let Some((name, value)) = self.descriptor.entry_at(index) {
                proof {
                    lemma_active_insert_new_name(
                        self.descriptor.first_entries(index as int),
                        self.hex_value,
                        name@,
                        value,
                    );
                }
                if self.hex_value & value != 0 {
                    name_set.insert_new(name.clone());
                }
            }
            index += 1;
        }
        name_set
    }

    /// Tells whether the role holds the capability called `permission_name`.
    /// A name that the descriptor does not know is not held.
    pub fn has_capability(&self, permission_name: &CapabilityName) -> (held: bool)
        ensures
            held == holds_capability(
                self.descriptor_view(),
                self.permission_value(),
                permission_name@,
            ),
    {
        if let Some(value) = self.descriptor.get(permission_name.as_str()) {
            return self.hex_value & *value != 0;
        }
        false
    }
}

/// Decomposition agreement: for a name of the descriptor, holding the
/// capability means that the permission value shares a bit with its unit
/// value, that the name is among the active names, and that the unit value
/// is among the active values.
pub proof fn lemma_decomposition_agrees(d: Map<Seq<char>, i32>, bitmask: i32, name: Seq<char>)
    requires
        d.contains_key(name),
    ensures
        holds_capability(d, bitmask, name) == (bitmask & d[name] != 0),
        holds_capability(d, bitmask, name) == capability_names(d, bitmask).contains(name),
        holds_capability(d, bitmask, name) == capability_values(d, bitmask).contains(d[name]),
{
    if capability_values(d, bitmask).contains(d[name]) {
        let holder = choose|holder: Seq<char>| #[trigger]
            holds_capability(d, bitmask, holder) && d[holder] == d[name];
        assert(bitmask & d[holder] != 0);
    }
}

/// An entry whose unit value is zero never activates: whatever the
/// permission value, its name is not among the active names, it is not held,
/// and zero is not among the active values.
pub proof fn lemma_zero_entry_never_active(d: Map<Seq<char>, i32>, bitmask: i32, name: Seq<char>)
    requires
        d.contains_key(name),
        d[name] == 0,
    ensures
        !holds_capability(d, bitmask, name),
        !capability_names(d, bitmask).contains(name),
        !capability_values(d, bitmask).contains(0),
{
    assert(bitmask & 0 == 0) by (bit_vector);
}

/// Extraction is repeatable: two name sets that `to_name_set` may return for
/// one role hold the same names, and two value sets that `to_hex_set` may
/// return for it hold the same values.
pub proof fn lemma_extraction_is_repeatable(
    role: RoleCapability,
    first_names: CapabilityNameSet,
    second_names: CapabilityNameSet,
    first_values: CapabilityHexUnitSet,
    second_values: CapabilityHexUnitSet,
)
    requires
        first_names@ == capability_names(role.descriptor_view(), role.permission_value()),
        second_names@ == capability_names(role.descriptor_view(), role.permission_value()),
        first_values@ == capability_values(role.descriptor_view(), role.permission_value()),
        second_values@ == capability_values(role.descriptor_view(), role.permission_value()),
    ensures
        first_names@ == second_names@,
        first_values@ == second_values@,
{
}

} // verus!
