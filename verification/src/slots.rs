//! The slots of a set: who plays whom.
use vstd::prelude::*;

verus! {

/// An entrant of an event.
#[derive(Debug)]
pub struct SGGEntrant {
    pub id: Option<i32>,
    pub name: Option<String>,
    pub seed: Option<i32>,
}

/// One side of a set: the entrant, if it is known yet, and the score, if there is one.
#[derive(Debug)]
pub struct SGGSetSlot {
    pub entrant: Option<SGGEntrant>,
    pub score: Option<i32>,
}

/// A set as start.gg describes it.
#[derive(Debug)]
pub struct SGGSet {
    pub slots: Vec<SGGSetSlot>,
}

impl Clone for SGGEntrant {
    fn clone(&self) -> (r: SGGEntrant)
        ensures
            r == *self,
    {
        SGGEntrant {
            id: self.id,
            name: match &self.name {
                Some(name) => Some(name.clone()),
                None => None,
            },
            seed: self.seed,
        }
    }
}

impl Clone for SGGSetSlot {
    fn clone(&self) -> (r: SGGSetSlot)
        ensures
            r == *self,
    {
        SGGSetSlot {
            entrant: match &self.entrant {
                Some(entrant) => Some(entrant.clone()),
                None => None,
            },
            score: self.score,
        }
    }
}

impl SGGSetSlot {
    /// The slot of an entrant.
    pub open spec fn belongs_to(self, entrant_id: i32) -> bool {
        self.entrant is Some && self.entrant->0.id == Some(entrant_id)
    }

    /// The slot of another entrant.
    pub open spec fn belongs_to_other(self, entrant_id: i32) -> bool {
        self.entrant is Some && self.entrant->0.id is Some && self.entrant->0.id != Some(entrant_id)
    }

    /// The slot is empty, or its entrant has an id.
    pub open spec fn is_identified(self) -> bool {
        self.entrant is Some ==> self.entrant->0.id is Some
    }
}

/// The first slot that is wanted.
pub open spec fn first_slot(
    slots: Seq<SGGSetSlot>,
    wanted: spec_fn(SGGSetSlot) -> bool,
) -> Option<SGGSetSlot>
    decreases slots.len(),
{
    if slots.len() == 0 {
        None
    } else if wanted(slots[0]) {
        Some(slots[0])
    } else {
        first_slot(slots.drop_first(), wanted)
    }
}

/// Every entrant up to the first wanted slot has an id.
pub open spec fn is_searchable(
    slots: Seq<SGGSetSlot>,
    wanted: spec_fn(SGGSetSlot) -> bool,
) -> bool {
    forall|i: int|
        0 <= i < slots.len() && (forall|j: int| 0 <= j < i ==> !wanted(#[trigger] slots[j]))
            ==> (#[trigger] slots[i]).is_identified()
}

/// The slot of the requester in a set, or none where the requester is no entrant of it.
pub open spec fn requester_slot(requester_entrant_id: i32, s: SGGSet) -> Option<SGGSetSlot> {
    first_slot(s.slots@, |slot: SGGSetSlot| slot.belongs_to(requester_entrant_id))
}

/// The slot of the requester's opponent in a set, or none where there is no opponent yet.
pub open spec fn opponent_slot(requester_entrant_id: i32, s: SGGSet) -> Option<SGGSetSlot> {
    first_slot(s.slots@, |slot: SGGSetSlot| slot.belongs_to_other(requester_entrant_id))
}

/// The slot of the requester, with access to:
/// - entrant name,
/// - entrant seed, and
/// - entrant set score (e.g., won 2 games, DQd, etc.).
pub fn get_requester_set_slot(requester_entrant_id: i32, s: &SGGSet) -> (r: Option<SGGSetSlot>)
    requires
        is_searchable(s.slots@, |slot: SGGSetSlot| slot.belongs_to(requester_entrant_id)),
    ensures
        r == requester_slot(requester_entrant_id, *s),
        forall|i: int|
            0 <= i < s.slots@.len() && (#[trigger] s.slots@[i]).entrant is Some
                && s.slots@[i].entrant->0.id == Some(requester_entrant_id) ==> r is Some,
        r matches Some(slot) ==> s.slots@.contains(slot) && slot.entrant is Some
            && slot.entrant->0.id == Some(requester_entrant_id),
{
    proof {
        requester_found_by_id(requester_entrant_id, *s);
    }
    let ghost wanted = |slot: SGGSetSlot| slot.belongs_to(requester_entrant_id);
    let mut i: usize = 0;
    assert(s.slots@.skip(0) =~= s.slots@);
    while i < s.slots.len()
        invariant
            i <= s.slots@.len(),
            wanted == (|slot: SGGSetSlot| slot.belongs_to(requester_entrant_id)),
            is_searchable(s.slots@, wanted),
            forall|j: int| 0 <= j < i ==> !wanted(#[trigger] s.slots@[j]),
            first_slot(s.slots@, wanted) == first_slot(s.slots@.skip(i as int), wanted),
        decreases s.slots@.len() - i,
    {
        assert(s.slots@[i as int].is_identified());
        if let Some(entrant) = &s.slots[i].entrant {
            if entrant.id.unwrap() == requester_entrant_id {
                return Some(s.slots[i].clone());
            }
        }
        assert(s.slots@.skip(i as int).drop_first() =~= s.slots@.skip(i + 1));
        i += 1;
    }
    None
}

/// The slot of the requester's opponent, with access to:
/// - entrant name,
/// - entrant seed, and
/// - entrant set score (e.g., won 2 games, DQd, etc.).
pub fn get_opponent_set_slot(requester_entrant_id: i32, s: &SGGSet) -> (r: Option<SGGSetSlot>)
    requires
        is_searchable(s.slots@, |slot: SGGSetSlot| slot.belongs_to_other(requester_entrant_id)),
    ensures
        r == opponent_slot(requester_entrant_id, *s),
        forall|i: int|
            0 <= i < s.slots@.len() && (#[trigger] s.slots@[i]).entrant is Some
                && s.slots@[i].entrant->0.id is Some && s.slots@[i].entrant->0.id
                != Some(requester_entrant_id) ==> r is Some,
        r matches Some(slot) ==> s.slots@.contains(slot) && slot.entrant is Some
            && slot.entrant->0.id is Some && slot.entrant->0.id != Some(requester_entrant_id),
{
    proof {
        opponent_found_by_id(requester_entrant_id, *s);
    }
    let ghost wanted = |slot: SGGSetSlot| slot.belongs_to_other(requester_entrant_id);
    let mut i: usize = 0;
    assert(s.slots@.skip(0) =~= s.slots@);
    while i < s.slots.len()
        invariant
            i <= s.slots@.len(),
            wanted == (|slot: SGGSetSlot| slot.belongs_to_other(requester_entrant_id)),
            is_searchable(s.slots@, wanted),
            forall|j: int| 0 <= j < i ==> !wanted(#[trigger] s.slots@[j]),
            first_slot(s.slots@, wanted) == first_slot(s.slots@.skip(i as int), wanted),
        decreases s.slots@.len() - i,
    {
        assert(s.slots@[i as int].is_identified());
        if let Some(entrant) = &s.slots[i].entrant {
            if entrant.id.unwrap() != requester_entrant_id {
                return Some(s.slots[i].clone());
            }
        }
        assert(s.slots@.skip(i as int).drop_first() =~= s.slots@.skip(i + 1));
        i += 1;
    }
    None
}

/// What the search finds is a wanted slot of the set, and it finds nothing only where no slot is
/// wanted.
proof fn lemma_first_slot(slots: Seq<SGGSetSlot>, wanted: spec_fn(SGGSetSlot) -> bool)
    ensures
        match first_slot(slots, wanted) {
            Some(slot) => wanted(slot) && slots.contains(slot),
            None => forall|i: int| 0 <= i < slots.len() ==> !wanted(#[trigger] slots[i]),
        },
    decreases slots.len(),
{
    if slots.len() > 0 {
        let rest = slots.drop_first();
        lemma_first_slot(rest, wanted);
        if !wanted(slots[0]) {
            match first_slot(rest, wanted) {
                Some(slot) => {
                    let k = choose|k: int| 0 <= k < rest.len() && rest[k] == slot;
                    assert(slots[k + 1] == slot);
                },
                None => {
                    assert forall|i: int| 0 <= i < slots.len() implies !wanted(
                        #[trigger] slots[i],
                    ) by {
                        if i > 0 {
                            assert(rest[i - 1] == slots[i]);
                        }
                    }
                },
            }
        }
    }
}

/// Searches for the same slots find the same.
proof fn lemma_same_search(
    slots: Seq<SGGSetSlot>,
    wanted: spec_fn(SGGSetSlot) -> bool,
    other: spec_fn(SGGSetSlot) -> bool,
)
    requires
        forall|i: int| 0 <= i < slots.len() ==> wanted(#[trigger] slots[i]) == other(slots[i]),
    ensures
        first_slot(slots, wanted) == first_slot(slots, other),
    decreases slots.len(),
{
    if slots.len() > 0 {
        assert(wanted(slots[0]) == other(slots[0]));
        assert forall|i: int| 0 <= i < slots.drop_first().len() implies wanted(
            #[trigger] slots.drop_first()[i],
        ) == other(slots.drop_first()[i]) by {
            assert(wanted(slots[i + 1]) == other(slots[i + 1]));
        }
        lemma_same_search(slots.drop_first(), wanted, other);
    }
}

/// The requester's slot is a slot of the set and names the requester; there is none only where
/// no slot names the requester.
pub proof fn requester_slot_names_requester(requester_entrant_id: i32, s: SGGSet)
    ensures
        match requester_slot(requester_entrant_id, s) {
            Some(slot) => slot.belongs_to(requester_entrant_id) && s.slots@.contains(slot),
            None => forall|i: int|
                0 <= i < s.slots@.len() ==> !(#[trigger] s.slots@[i]).belongs_to(
                    requester_entrant_id,
                ),
        },
{
    let wanted = |slot: SGGSetSlot| slot.belongs_to(requester_entrant_id);
    lemma_first_slot(s.slots@, wanted);
    if requester_slot(requester_entrant_id, s) is None {
        assert forall|i: int| 0 <= i < s.slots@.len() implies !(
        #[trigger] s.slots@[i]).belongs_to(requester_entrant_id) by {
            assert(!wanted(s.slots@[i]));
        }
    }
}

/// The opponent's slot is a slot of the set and names somebody else than the requester; there is
/// none only where no slot does.
pub proof fn opponent_slot_names_other(requester_entrant_id: i32, s: SGGSet)
    ensures
        match opponent_slot(requester_entrant_id, s) {
            Some(slot) => slot.belongs_to_other(requester_entrant_id) && s.slots@.contains(slot),
            None => forall|i: int|
                0 <= i < s.slots@.len() ==> !(#[trigger] s.slots@[i]).belongs_to_other(
                    requester_entrant_id,
                ),
        },
{
    let wanted = |slot: SGGSetSlot| slot.belongs_to_other(requester_entrant_id);
    lemma_first_slot(s.slots@, wanted);
    if opponent_slot(requester_entrant_id, s) is None {
        assert forall|i: int| 0 <= i < s.slots@.len() implies !(
        #[trigger] s.slots@[i]).belongs_to_other(requester_entrant_id) by {
            assert(!wanted(s.slots@[i]));
        }
    }
}

/// Requester and opponent never share a slot.
pub proof fn slots_differ(requester_entrant_id: i32, s: SGGSet)
    requires
        requester_slot(requester_entrant_id, s) is Some,
    ensures
        requester_slot(requester_entrant_id, s) != opponent_slot(requester_entrant_id, s),
{
    requester_slot_names_requester(requester_entrant_id, s);
    opponent_slot_names_other(requester_entrant_id, s);
}

/// Between two entrants the roles swap: the slot of one is the slot of the other's opponent.
pub proof fn roles_swap(a: i32, b: i32, s: SGGSet)
    requires
        a != b,
        forall|i: int|
            0 <= i < s.slots@.len() && (#[trigger] s.slots@[i]).entrant is Some
                ==> s.slots@[i].belongs_to(a) || s.slots@[i].belongs_to(b),
    ensures
        requester_slot(a, s) == opponent_slot(b, s),
{
    lemma_same_search(
        s.slots@,
        |slot: SGGSetSlot| slot.belongs_to(a),
        |slot: SGGSetSlot| slot.belongs_to_other(b),
    );
}

/// The first wanted slot is found.
proof fn lemma_first_found(slots: Seq<SGGSetSlot>, wanted: spec_fn(SGGSetSlot) -> bool, i: int)
    requires
        0 <= i < slots.len(),
        wanted(slots[i]),
        forall|j: int| 0 <= j < i ==> !wanted(#[trigger] slots[j]),
    ensures
        first_slot(slots, wanted) == Some(slots[i]),
    decreases slots.len(),
{
    if i > 0 {
        assert(!wanted(slots[0]));
        let rest = slots.drop_first();
        assert forall|j: int| 0 <= j < i - 1 implies !wanted(#[trigger] rest[j]) by {
            assert(!wanted(slots[j + 1]));
        }
        lemma_first_found(rest, wanted, i - 1);
    }
}

/// The requester is found by the id of the entrant alone, whatever the score, the name or the
/// seed: what is found is a slot of the set with that id, and where any slot has it one is found.
pub proof fn requester_found_by_id(requester_entrant_id: i32, s: SGGSet)
    ensures
        forall|i: int|
            0 <= i < s.slots@.len() && (#[trigger] s.slots@[i]).entrant is Some
                && s.slots@[i].entrant->0.id == Some(requester_entrant_id) ==> requester_slot(
                requester_entrant_id,
                s,
            ) is Some,
        requester_slot(requester_entrant_id, s) matches Some(slot) ==> s.slots@.contains(slot)
            && slot.entrant is Some && slot.entrant->0.id == Some(requester_entrant_id),
{
    requester_slot_names_requester(requester_entrant_id, s);
}

/// The opponent is found by the id of the entrant alone, whatever the score, the name or the
/// seed: what is found is a slot of the set with another id than the requester's, and where any
/// slot has one such a slot is found.
pub proof fn opponent_found_by_id(requester_entrant_id: i32, s: SGGSet)
    ensures
        forall|i: int|
            0 <= i < s.slots@.len() && (#[trigger] s.slots@[i]).entrant is Some
                && s.slots@[i].entrant->0.id is Some && s.slots@[i].entrant->0.id
                != Some(requester_entrant_id) ==> opponent_slot(requester_entrant_id, s) is Some,
        opponent_slot(requester_entrant_id, s) matches Some(slot) ==> s.slots@.contains(slot)
            && slot.entrant is Some && slot.entrant->0.id is Some && slot.entrant->0.id != Some(
            requester_entrant_id,
        ),
{
    opponent_slot_names_other(requester_entrant_id, s);
}

/// Of several slots of the requester the first is found.
pub proof fn first_requester_slot_found(requester_entrant_id: i32, s: SGGSet, i: int)
    requires
        0 <= i < s.slots@.len(),
        s.slots@[i].entrant is Some,
        s.slots@[i].entrant->0.id == Some(requester_entrant_id),
        forall|j: int|
            0 <= j < i ==> (#[trigger] s.slots@[j]).entrant is None || s.slots@[j].entrant->0.id
                != Some(requester_entrant_id),
    ensures
        requester_slot(requester_entrant_id, s) == Some(s.slots@[i]),
{
    lemma_first_found(
        s.slots@,
        |slot: SGGSetSlot| slot.belongs_to(requester_entrant_id),
        i,
    );
}

/// Of several slots of opponents the first is found.
pub proof fn first_opponent_slot_found(requester_entrant_id: i32, s: SGGSet, i: int)
    requires
        0 <= i < s.slots@.len(),
        s.slots@[i].entrant is Some,
        s.slots@[i].entrant->0.id is Some,
        s.slots@[i].entrant->0.id != Some(requester_entrant_id),
        forall|j: int|
            0 <= j < i ==> (#[trigger] s.slots@[j]).entrant is None || s.slots@[j].entrant->0.id
                is None || s.slots@[j].entrant->0.id == Some(requester_entrant_id),
    ensures
        opponent_slot(requester_entrant_id, s) == Some(s.slots@[i]),
{
    lemma_first_found(
        s.slots@,
        |slot: SGGSetSlot| slot.belongs_to_other(requester_entrant_id),
        i,
    );
}

/// A set can be searched exactly where no entrant without an id stands before, or at, the first
/// wanted slot.
pub proof fn searchable_exactly(slots: Seq<SGGSetSlot>, wanted: spec_fn(SGGSetSlot) -> bool)
    ensures
        is_searchable(slots, wanted) <==> !exists|i: int|
            0 <= i < slots.len() && (#[trigger] slots[i]).entrant is Some
                && slots[i].entrant->0.id is None && (forall|j: int|
                0 <= j < i ==> !wanted(#[trigger] slots[j])),
{
}

} // verus!
