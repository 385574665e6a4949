//! Tables between entrant names and players.
use std::collections::HashMap;
use vstd::hash_map::StringHashMap;
use vstd::prelude::*;

use crate::sightings;
use crate::sightings::Sighting;

verus! {

/// The player behind each name, after a list of sightings: the last sighting of a name decides.
pub open spec fn players_by_name(seen: Seq<(Seq<char>, i32)>) -> Map<Seq<char>, i32>
    decreases seen.len(),
{
    if seen.len() == 0 {
        Map::empty()
    } else {
        players_by_name(seen.drop_last()).insert(seen.last().0, seen.last().1)
    }
}

/// A name for each player, after a walk over names: the last name of a player stays.
pub open spec fn names_by_player(walk: Seq<(Seq<char>, i32)>) -> Map<i32, Seq<char>>
    decreases walk.len(),
{
    if walk.len() == 0 {
        Map::empty()
    } else {
        names_by_player(walk.drop_last()).insert(walk.last().1, walk.last().0)
    }
}

/// A walk over a table: each name once, with its player.
pub open spec fn is_walk(walk: Seq<(Seq<char>, i32)>, table: Map<Seq<char>, i32>) -> bool {
    &&& forall|i: int|
        0 <= i < walk.len() ==> table.contains_key((#[trigger] walk[i]).0) && table[walk[i].0]
            == walk[i].1
    &&& forall|i: int, j: int|
        0 <= i < j < walk.len() ==> (#[trigger] walk[i]).0 != (#[trigger] walk[j]).0
    &&& forall|name: Seq<char>| #[trigger]
        table.contains_key(name) ==> walk.contains((name, table[name]))
}

/// The player behind each name.
pub struct NameTable {
    players: StringHashMap<i32>,
    names: Vec<String>,
}

impl View for NameTable {
    type V = Map<Seq<char>, i32>;

    closed spec fn view(&self) -> Map<Seq<char>, i32> {
        self.players@
    }
}

impl NameTable {
    /// The list of names holds each name of the table once.
    pub closed spec fn wf(&self) -> bool {
        &&& forall|i: int|
            0 <= i < self.names@.len() ==> self.players@.contains_key(#[trigger] self.names@[i]@)
        &&& forall|i: int, j: int|
            0 <= i < j < self.names@.len() ==> #[trigger] self.names@[i]@
                != #[trigger] self.names@[j]@
        &&& forall|name: Seq<char>| #[trigger]
            self.players@.contains_key(name) ==> exists|i: int|
                0 <= i < self.names@.len() && #[trigger] self.names@[i]@ == name
    }

    /// An empty table.
    pub fn new() -> (r: NameTable)
        ensures
            r.wf(),
            r@ == Map::<Seq<char>, i32>::empty(),
    {
        NameTable { players: StringHashMap::new(), names: Vec::new() }
    }

    /// Puts a player behind a name, in place of an earlier one.
    pub fn insert(&mut self, name: String, player_id: i32)
        requires
            old(self).wf(),
        ensures
            final(self).wf(),
            final(self)@ == old(self)@.insert(name@, player_id),
    {
        let ghost before = *self;
        let ghost key = name@;
        if !self.players.contains_key(name.as_str()) {
            self.names.push(name.clone());
        }
        self.players.insert(name, player_id);
        proof {
            assert forall|n: Seq<char>| #[trigger] self.players@.contains_key(n) implies exists|
                i: int,
            | 0 <= i < self.names@.len() && #[trigger] self.names@[i]@ == n by {
                if before.players@.contains_key(n) {
                    let i = choose|i: int|
                        0 <= i < before.names@.len() && #[trigger] before.names@[i]@ == n;
                    assert(self.names@[i]@ == n);
                } else {
                    assert(self.names@[before.names@.len() as int]@ == key);
                }
            }
        }
    }

    /// The player behind a name.
    pub fn get(&self, name: &str) -> (r: Option<i32>)
        ensures
            r == (if self@.contains_key(name@) {
                Some(self@[name@])
            } else {
                None
            }),
    {
        match self.players.get(name) {
            Some(player_id) => Some(*player_id),
            None => None,
        }
    }

    /// The table of a list of sightings.
    pub fn from_sightings(seen: &Vec<Sighting>) -> (r: NameTable)
        ensures
            r.wf(),
            r@ == players_by_name(sightings::views_of(seen@)),
    {
        let ghost all = sightings::views_of(seen@);
        let mut table = NameTable::new();
        let mut i: usize = 0;
        while i < seen.len()
            invariant
                i <= seen@.len(),
                all == sightings::views_of(seen@),
                table.wf(),
                table@ == players_by_name(all.take(i as int)),
            decreases seen@.len() - i,
        {
            proof {
                assert(all.take(i + 1).drop_last() =~= all.take(i as int));
            }
            table.insert(seen[i].name.clone(), seen[i].player_id);
            i += 1;
        }
        assert(all.take(all.len() as int) =~= all);
        table
    }

    /// Every name with its player, in no particular order.
    pub fn walk(&self) -> (r: Vec<Sighting>)
        requires
            self.wf(),
        ensures
            is_walk(sightings::views_of(r@), self@),
            forall|i: int|
                0 <= i < r@.len() ==> self@.contains_key((#[trigger] r@[i]).name@)
                    && self@[r@[i].name@] == r@[i].player_id,
            forall|i: int, j: int|
                0 <= i < j < r@.len() ==> (#[trigger] r@[i]).name@ != (#[trigger] r@[j]).name@,
            forall|name: Seq<char>| #[trigger]
                self@.contains_key(name) ==> exists|i: int|
                    0 <= i < r@.len() && (#[trigger] r@[i]).name@ == name,
    {
        let mut pairs: Vec<Sighting> = Vec::new();
        let mut i: usize = 0;
        while i < self.names.len()
            invariant
                self.wf(),
                i <= self.names@.len(),
                pairs@.len() == i,
                forall|k: int|
                    0 <= k < i ==> (#[trigger] pairs@[k])@ == (
                        self.names@[k]@,
                        self.players@[self.names@[k]@],
                    ),
            decreases self.names@.len() - i,
        {
            assert(self.players@.contains_key(self.names@[i as int]@));
            if let Some(player_id) = self.players.get(self.names[i].as_str()) {
                pairs.push(Sighting { name: self.names[i].clone(), player_id: *player_id });
            }
            i += 1;
        }
        proof {
            let walk = sightings::views_of(pairs@);
            assert forall|k: int| 0 <= k < walk.len() implies self@.contains_key(
                (#[trigger] walk[k]).0,
            ) && self@[walk[k].0] == walk[k].1 by {
                assert(pairs@[k]@ == (self.names@[k]@, self.players@[self.names@[k]@]));
            }
            assert forall|j: int, k: int| 0 <= j < k < walk.len() implies (#[trigger] walk[j]).0
                != (#[trigger] walk[k]).0 by {
                assert(self.names@[j]@ != self.names@[k]@);
            }
            assert forall|name: Seq<char>| #[trigger] self@.contains_key(name) implies walk.contains(
                (name, self@[name]),
            ) by {
                let k = choose|k: int|
                    0 <= k < self.names@.len() && #[trigger] self.names@[k]@ == name;
                assert(walk[k] == (name, self@[name]));
            }
            assert forall|k: int| 0 <= k < pairs@.len() implies self@.contains_key(
                (#[trigger] pairs@[k]).name@,
            ) && self@[pairs@[k].name@] == pairs@[k].player_id by {
                assert(walk[k] == pairs@[k]@);
            }
            assert forall|j: int, k: int| 0 <= j < k < pairs@.len() implies (
            #[trigger] pairs@[j]).name@ != (#[trigger] pairs@[k]).name@ by {
                assert(walk[j].0 != walk[k].0);
            }
            assert forall|name: Seq<char>| #[trigger] self@.contains_key(name) implies exists|
                k: int,
            | 0 <= k < pairs@.len() && (#[trigger] pairs@[k]).name@ == name by {
                let k = choose|k: int|
                    0 <= k < self.names@.len() && #[trigger] self.names@[k]@ == name;
                assert(pairs@[k]@ == (self.names@[k]@, self.players@[self.names@[k]@]));
            }
        }
        pairs
    }
}

/// After a walk a player has a name exactly where the walk held one, and it is one of those.
proof fn lemma_names_in_walk(walk: Seq<(Seq<char>, i32)>, id: i32)
    ensures
        names_by_player(walk).contains_key(id) ==> walk.contains((names_by_player(walk)[id], id)),
        forall|i: int|
            0 <= i < walk.len() && (#[trigger] walk[i]).1 == id ==> names_by_player(
                walk,
            ).contains_key(id),
    decreases walk.len(),
{
    if walk.len() > 0 {
        let before = walk.drop_last();
        lemma_names_in_walk(before, id);
        if walk.last().1 == id {
            assert(walk[walk.len() - 1] == (names_by_player(walk)[id], id));
        } else {
            if names_by_player(walk).contains_key(id) {
                let i = choose|i: int|
                    0 <= i < before.len() && before[i] == (names_by_player(before)[id], id);
                assert(walk[i] == (names_by_player(walk)[id], id));
            }
            assert forall|i: int| 0 <= i < walk.len() && (#[trigger] walk[i]).1
                == id implies names_by_player(walk).contains_key(id) by {
                assert(before[i].1 == id);
            }
        }
    }
}

/// Turning a table around: every player of the table keeps a name, and it is a name of that
/// player, in whatever order the table is walked.
pub proof fn labels_are_names(
    walk: Seq<(Seq<char>, i32)>,
    table: Map<Seq<char>, i32>,
    name: Seq<char>,
)
    requires
        is_walk(walk, table),
        table.contains_key(name),
    ensures
        names_by_player(walk).contains_key(table[name]),
        table.contains_key(names_by_player(walk)[table[name]]),
        table[names_by_player(walk)[table[name]]] == table[name],
{
    let id = table[name];
    lemma_names_in_walk(walk, id);
    let i = choose|i: int| 0 <= i < walk.len() && walk[i] == (name, id);
    assert(walk[i].1 == id);
    let label = names_by_player(walk)[id];
    let j = choose|j: int| 0 <= j < walk.len() && walk[j] == (label, id);
    assert(table.contains_key(walk[j].0));
}

/// Every player in a table was seen, under the name that the table has for the player.
pub proof fn players_were_seen(seen: Seq<(Seq<char>, i32)>, name: Seq<char>)
    requires
        players_by_name(seen).contains_key(name),
    ensures
        seen.contains((name, players_by_name(seen)[name])),
    decreases seen.len(),
{
    if seen.len() > 0 {
        let before = seen.drop_last();
        if seen.last().0 == name {
            assert(seen[seen.len() - 1] == (name, players_by_name(seen)[name]));
        } else {
            players_were_seen(before, name);
            let i = choose|i: int|
                0 <= i < before.len() && before[i] == (name, players_by_name(before)[name]);
            assert(seen[i] == (name, players_by_name(seen)[name]));
        }
    }
}

/// What a table of names by player holds.
pub open spec fn labels_of(table: Map<i32, String>) -> Map<i32, Seq<char>> {
    Map::new(|id: i32| table.contains_key(id), |id: i32| table[id]@)
}

/// Turns a walk over names around: a name for each player.
pub fn name_players(walk: &Vec<Sighting>) -> (r: HashMap<i32, String>)
    ensures
        labels_of(r@) == names_by_player(sightings::views_of(walk@)),
{
    broadcast use vstd::std_specs::hash::group_hash_axioms;

    let ghost all = sightings::views_of(walk@);
    let mut table: HashMap<i32, String> = HashMap::new();
    let mut i: usize = 0;
    assert(labels_of(table@) =~= Map::empty());
    while i < walk.len()
        invariant
            i <= walk@.len(),
            all == sightings::views_of(walk@),
            labels_of(table@) == names_by_player(all.take(i as int)),
        decreases walk@.len() - i,
    {
        let ghost before = table@;
        table.insert(walk[i].player_id, walk[i].name.clone());
        proof {
            assert(all.take(i + 1).drop_last() =~= all.take(i as int));
            assert(labels_of(table@) =~= labels_of(before).insert(
                all[i as int].1,
                all[i as int].0,
            ));
        }
        i += 1;
    }
    assert(all.take(all.len() as int) =~= all);
    table
}

/// The last sighting of a name says who is behind it, whoever was sighted under other names.
pub proof fn last_sighting_decides(seen: Seq<(Seq<char>, i32)>, i: int)
    requires
        0 <= i < seen.len(),
        forall|j: int| i < j < seen.len() ==> (#[trigger] seen[j]).0 != seen[i].0,
    ensures
        players_by_name(seen).contains_key(seen[i].0),
        players_by_name(seen)[seen[i].0] == seen[i].1,
    decreases seen.len(),
{
    if i < seen.len() - 1 {
        let before = seen.drop_last();
        assert forall|j: int| i < j < before.len() implies (#[trigger] before[j]).0 != before[i].0 by {
            assert(seen[j].0 != seen[i].0);
        }
        assert(seen[seen.len() - 1].0 != seen[i].0);
        last_sighting_decides(before, i);
    }
}

/// A name that was never sighted is behind nobody.
pub proof fn unseen_names_unknown(seen: Seq<(Seq<char>, i32)>, name: Seq<char>)
    requires
        forall|j: int| 0 <= j < seen.len() ==> (#[trigger] seen[j]).0 != name,
    ensures
        !players_by_name(seen).contains_key(name),
{
    if players_by_name(seen).contains_key(name) {
        players_were_seen(seen, name);
        let j = choose|j: int| 0 <= j < seen.len() && seen[j] == (name, players_by_name(seen)[name]);
        assert(seen[j].0 != name);
    }
}

/// The last name of a player in a walk stays, whatever names other players have.
pub proof fn last_name_stays(walk: Seq<(Seq<char>, i32)>, i: int)
    requires
        0 <= i < walk.len(),
        forall|j: int| i < j < walk.len() ==> (#[trigger] walk[j]).1 != walk[i].1,
    ensures
        names_by_player(walk).contains_key(walk[i].1),
        names_by_player(walk)[walk[i].1] == walk[i].0,
    decreases walk.len(),
{
    if i < walk.len() - 1 {
        let before = walk.drop_last();
        assert forall|j: int| i < j < before.len() implies (#[trigger] before[j]).1 != before[i].1 by {
            assert(walk[j].1 != walk[i].1);
        }
        assert(walk[walk.len() - 1].1 != walk[i].1);
        last_name_stays(before, i);
    }
}

/// A player without a name in a walk gets none.
pub proof fn strangers_stay_unnamed(walk: Seq<(Seq<char>, i32)>, id: i32)
    requires
        forall|j: int| 0 <= j < walk.len() ==> (#[trigger] walk[j]).1 != id,
    ensures
        !names_by_player(walk).contains_key(id),
{
    lemma_names_in_walk(walk, id);
    if names_by_player(walk).contains_key(id) {
        let j = choose|j: int| 0 <= j < walk.len() && walk[j] == (names_by_player(walk)[id], id);
        assert(walk[j].1 != id);
    }
}

/// What a table of names by player holds is what its strings hold, player by player.
pub proof fn labels_exactly(table: Map<i32, String>, id: i32)
    ensures
        labels_of(table).contains_key(id) <==> table.contains_key(id),
        table.contains_key(id) ==> labels_of(table)[id] == table[id]@,
{
}

/// A walk holds each name of its table once, with its player, and nothing else.
pub proof fn walk_exactly(walk: Seq<(Seq<char>, i32)>, table: Map<Seq<char>, i32>)
    requires
        is_walk(walk, table),
    ensures
        forall|name: Seq<char>, id: i32| #[trigger]
            walk.contains((name, id)) <==> table.contains_key(name) && table[name] == id,
        forall|i: int, j: int|
            0 <= i < j < walk.len() ==> (#[trigger] walk[i]).0 != (#[trigger] walk[j]).0,
        players_by_name(walk) == table,
{
    assert forall|name: Seq<char>, id: i32| #[trigger]
        walk.contains((name, id)) <==> table.contains_key(name) && table[name] == id by {
        if walk.contains((name, id)) {
            let i = choose|i: int| 0 <= i < walk.len() && walk[i] == (name, id);
            assert(table.contains_key(walk[i].0));
        }
    }
    assert forall|name: Seq<char>|
        players_by_name(walk).contains_key(name) <==> table.contains_key(name) by {
        if players_by_name(walk).contains_key(name) {
            players_were_seen(walk, name);
        }
        if table.contains_key(name) {
            let i = choose|i: int| 0 <= i < walk.len() && walk[i] == (name, table[name]);
            last_sighting_decides(walk, i);
        }
    }
    assert forall|name: Seq<char>| table.contains_key(name) implies players_by_name(walk)[name]
        == table[name] by {
        let i = choose|i: int| 0 <= i < walk.len() && walk[i] == (name, table[name]);
        last_sighting_decides(walk, i);
    }
    assert(players_by_name(walk) =~= table);
}

} // verus!
