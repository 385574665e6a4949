//! The record of a player against every opponent.
//!
//! The database groups the sets of a player by the name of the opponent. One opponent may have
//! entered under several names; the rows of such names are added up.
use serde_json::Value;
use std::collections::HashMap;
use vstd::prelude::*;

use crate::json;
use crate::names;
use crate::names::NameTable;
use crate::sightings;
use crate::sightings::Sighting;

verus! {

/// The record against one opponent.
#[derive(Debug)]
pub struct HeadToHeadResult {
    pub opponent_tag: String,
    pub total_sets: i64,
    pub wins: i64,
    pub losses: i64,
}

/// Counts of sets.
pub struct Tally {
    pub total_sets: int,
    pub wins: int,
    pub losses: int,
}

/// What a record says.
pub struct HeadToHead {
    pub opponent_tag: Seq<char>,
    pub tally: Tally,
}

impl View for HeadToHeadResult {
    type V = HeadToHead;

    open spec fn view(&self) -> HeadToHead {
        HeadToHead {
            opponent_tag: self.opponent_tag@,
            tally: Tally {
                total_sets: self.total_sets as int,
                wins: self.wins as int,
                losses: self.losses as int,
            },
        }
    }
}

impl Clone for HeadToHeadResult {
    fn clone(&self) -> (r: HeadToHeadResult)
        ensures
            r == *self,
    {
        HeadToHeadResult {
            opponent_tag: self.opponent_tag.clone(),
            total_sets: self.total_sets,
            wins: self.wins,
            losses: self.losses,
        }
    }
}

impl Tally {
    /// No set at all.
    pub open spec fn zero() -> Tally {
        Tally { total_sets: 0, wins: 0, losses: 0 }
    }

    /// The counts of both together.
    pub open spec fn plus(self, other: Tally) -> Tally {
        Tally {
            total_sets: self.total_sets + other.total_sets,
            wins: self.wins + other.wins,
            losses: self.losses + other.losses,
        }
    }

    /// Each count is a 64-bit integer.
    pub open spec fn fits(self) -> bool {
        &&& i64::MIN <= self.total_sets <= i64::MAX
        &&& i64::MIN <= self.wins <= i64::MAX
        &&& i64::MIN <= self.losses <= i64::MAX
    }
}

/// What a list of records says.
pub open spec fn views_of(rows: Seq<HeadToHeadResult>) -> Seq<HeadToHead> {
    Seq::new(rows.len(), |i: int| rows[i]@)
}

/// Some row is about a player.
pub open spec fn occurs(players: Map<Seq<char>, i32>, rows: Seq<HeadToHead>, id: i32) -> bool {
    exists|i: int| 0 <= i < rows.len() && players[(#[trigger] rows[i]).opponent_tag] == id
}

/// The counts of all rows about a player.
pub open spec fn tally_against(
    players: Map<Seq<char>, i32>,
    rows: Seq<HeadToHead>,
    id: i32,
) -> Tally
    decreases rows.len(),
{
    if rows.len() == 0 {
        Tally::zero()
    } else {
        let before = tally_against(players, rows.drop_last(), id);
        if players[rows.last().opponent_tag] == id {
            before.plus(rows.last().tally)
        } else {
            before
        }
    }
}

/// The name in the first row about a player.
pub open spec fn first_tag(
    players: Map<Seq<char>, i32>,
    rows: Seq<HeadToHead>,
    id: i32,
) -> Seq<char>
    decreases rows.len(),
{
    if rows.len() == 0 {
        Seq::empty()
    } else if players[rows[0].opponent_tag] == id {
        rows[0].opponent_tag
    } else {
        first_tag(players, rows.drop_first(), id)
    }
}

/// The record against a player: all rows about the player added up, under the name that the
/// labels give, or under the name of the first row where they give none.
pub open spec fn record_against(
    players: Map<Seq<char>, i32>,
    labels: Map<i32, Seq<char>>,
    rows: Seq<HeadToHead>,
    id: i32,
) -> HeadToHead {
    HeadToHead {
        opponent_tag: if labels.contains_key(id) {
            labels[id]
        } else {
            first_tag(players, rows, id)
        },
        tally: tally_against(players, rows, id),
    }
}

/// Every row is under a known name, and adding the rows of a player up, one after another, never
/// leaves the 64-bit integers.
pub open spec fn mergeable(players: Map<Seq<char>, i32>, rows: Seq<HeadToHead>) -> bool {
    forall|i: int| 0 <= i < rows.len() ==> row_mergeable(players, rows, i)
}

/// The row at an index is under a known name, and can be added to the rows before it.
pub open spec fn row_mergeable(
    players: Map<Seq<char>, i32>,
    rows: Seq<HeadToHead>,
    i: int,
) -> bool {
    &&& players.contains_key(rows[i].opponent_tag)
    &&& tally_against(players, rows.take(i + 1), players[rows[i].opponent_tag]).fits()
}

/// A player whom no row is about has no sets.
pub(crate) proof fn lemma_absent(players: Map<Seq<char>, i32>, rows: Seq<HeadToHead>, id: i32)
    requires
        !occurs(players, rows, id),
    ensures
        tally_against(players, rows, id) == Tally::zero(),
    decreases rows.len(),
{
    if rows.len() > 0 {
        assert(players[rows[rows.len() - 1].opponent_tag] != id);
        assert forall|i: int| 0 <= i < rows.drop_last().len() implies players[(
        #[trigger] rows.drop_last()[i]).opponent_tag] != id by {
            assert(players[rows[i].opponent_tag] != id);
        }
        lemma_absent(players, rows.drop_last(), id);
    }
}

/// One more row: which players occur.
proof fn lemma_occurs_push(
    players: Map<Seq<char>, i32>,
    rows: Seq<HeadToHead>,
    row: HeadToHead,
    id: i32,
)
    ensures
        occurs(players, rows.push(row), id) == (occurs(players, rows, id)
            || players[row.opponent_tag] == id),
{
    let more = rows.push(row);
    if occurs(players, rows, id) {
        let i = choose|i: int|
            0 <= i < rows.len() && players[(#[trigger] rows[i]).opponent_tag] == id;
        assert(players[more[i].opponent_tag] == id);
    }
    if players[row.opponent_tag] == id {
        assert(players[more[rows.len() as int].opponent_tag] == id);
    }
    if occurs(players, more, id) {
        let i = choose|i: int|
            0 <= i < more.len() && players[(#[trigger] more[i]).opponent_tag] == id;
        if i < rows.len() {
            assert(players[rows[i].opponent_tag] == id);
        }
    }
}

/// One more row: the first name of a player.
proof fn lemma_first_tag_push(
    players: Map<Seq<char>, i32>,
    rows: Seq<HeadToHead>,
    row: HeadToHead,
    id: i32,
)
    ensures
        occurs(players, rows, id) ==> first_tag(players, rows.push(row), id) == first_tag(
            players,
            rows,
            id,
        ),
        !occurs(players, rows, id) && players[row.opponent_tag] == id ==> first_tag(
            players,
            rows.push(row),
            id,
        ) == row.opponent_tag,
    decreases rows.len(),
{
    let more = rows.push(row);
    if rows.len() == 0 {
        assert(more[0] == row);
    } else {
        assert(more[0] == rows[0]);
        assert(more.drop_first() =~= rows.drop_first().push(row));
        lemma_first_tag_push(players, rows.drop_first(), row, id);
        if players[rows[0].opponent_tag] != id {
            if occurs(players, rows, id) {
                let i = choose|i: int|
                    0 <= i < rows.len() && players[(#[trigger] rows[i]).opponent_tag] == id;
                assert(rows.drop_first()[i - 1] == rows[i]);
                assert(occurs(players, rows.drop_first(), id));
            } else {
                assert forall|i: int| 0 <= i < rows.drop_first().len() implies players[(
                #[trigger] rows.drop_first()[i]).opponent_tag] != id by {
                    assert(players[rows[i + 1].opponent_tag] != id);
                }
            }
        } else {
            assert(occurs(players, rows, id));
        }
    }
}

/// One more row: the record against every player.
proof fn lemma_record_push(
    players: Map<Seq<char>, i32>,
    labels: Map<i32, Seq<char>>,
    rows: Seq<HeadToHead>,
    row: HeadToHead,
    id: i32,
)
    ensures
        players[row.opponent_tag] != id && occurs(players, rows, id) ==> record_against(
            players,
            labels,
            rows.push(row),
            id,
        ) == record_against(players, labels, rows, id),
        players[row.opponent_tag] == id && occurs(players, rows, id) ==> record_against(
            players,
            labels,
            rows.push(row),
            id,
        ) == (HeadToHead {
            opponent_tag: record_against(players, labels, rows, id).opponent_tag,
            tally: tally_against(players, rows, id).plus(row.tally),
        }),
        players[row.opponent_tag] == id && !occurs(players, rows, id) ==> record_against(
            players,
            labels,
            rows.push(row),
            id,
        ) == (HeadToHead {
            opponent_tag: if labels.contains_key(id) {
                labels[id]
            } else {
                row.opponent_tag
            },
            tally: row.tally,
        }),
{
    assert(rows.push(row).drop_last() =~= rows);
    lemma_first_tag_push(players, rows, row, id);
    if !occurs(players, rows, id) {
        lemma_absent(players, rows, id);
    }
}

/// The sum of two counts, where it is a 64-bit integer.
fn add_counts(a: &HeadToHeadResult, b: &HeadToHeadResult) -> (r: Option<HeadToHeadResult>)
    ensures
        match r {
            Some(sum) => sum@ == (HeadToHead {
                opponent_tag: a@.opponent_tag,
                tally: a@.tally.plus(b@.tally),
            }),
            None => !a@.tally.plus(b@.tally).fits(),
        },
        match r {
            Some(sum) => {
                &&& sum.opponent_tag@ == a.opponent_tag@
                &&& sum.total_sets == a.total_sets + b.total_sets
                &&& sum.wins == a.wins + b.wins
                &&& sum.losses == a.losses + b.losses
            },
            None => {
                ||| !(i64::MIN <= a.total_sets + b.total_sets <= i64::MAX)
                ||| !(i64::MIN <= a.wins + b.wins <= i64::MAX)
                ||| !(i64::MIN <= a.losses + b.losses <= i64::MAX)
            },
        },
{
    let total_sets: i64 = match a.total_sets.checked_add(b.total_sets) {
        Some(sum) => sum,
        None => return None,
    };
    let wins: i64 = match a.wins.checked_add(b.wins) {
        Some(sum) => sum,
        None => return None,
    };
    let losses: i64 = match a.losses.checked_add(b.losses) {
        Some(sum) => sum,
        None => return None,
    };
    Some(HeadToHeadResult { opponent_tag: a.opponent_tag.clone(), total_sets, wins, losses })
}

/// Adds the rows of each player up, under the name that `id_to_name` gives the player, or under
/// the name of the player's first row where it gives none; `None` exactly where a row is under an
/// unknown name or a sum leaves the 64-bit integers.
pub fn merge_by_player(
    name_to_id: &NameTable,
    id_to_name: &HashMap<i32, String>,
    db_results: &Vec<HeadToHeadResult>,
) -> (r: Option<HashMap<i32, HeadToHeadResult>>)
    ensures
        match r {
            Some(merged) => {
                &&& mergeable(name_to_id@, views_of(db_results@))
                &&& forall|id: i32| #[trigger]
                    merged@.contains_key(id) <==> occurs(name_to_id@, views_of(db_results@), id)
                &&& forall|id: i32| #[trigger]
                    merged@.contains_key(id) ==> merged@[id]@ == record_against(
                        name_to_id@,
                        names::labels_of(id_to_name@),
                        views_of(db_results@),
                        id,
                    )
            },
            None => !mergeable(name_to_id@, views_of(db_results@)),
        },
{
    broadcast use vstd::std_specs::hash::group_hash_axioms;

    let ghost players = name_to_id@;
    let ghost labels = names::labels_of(id_to_name@);
    let ghost all = views_of(db_results@);
    let mut merged: HashMap<i32, HeadToHeadResult> = HashMap::new();
    let mut i: usize = 0;
    while i < db_results.len()
        invariant
            i <= db_results@.len(),
            players == name_to_id@,
            labels == names::labels_of(id_to_name@),
            all == views_of(db_results@),
            forall|k: int| 0 <= k < i ==> row_mergeable(players, all, k),
            forall|id: i32| #[trigger]
                merged@.contains_key(id) <==> occurs(players, all.take(i as int), id),
            forall|id: i32| #[trigger]
                merged@.contains_key(id) ==> merged@[id]@ == record_against(
                    players,
                    labels,
                    all.take(i as int),
                    id,
                ),
        decreases db_results@.len() - i,
    {
        let row: &HeadToHeadResult = &db_results[i];
        let ghost seen = all.take(i as int);
        let ghost before = merged@;
        assert(row@ == all[i as int]);
        assert(all.take(i + 1) =~= seen.push(row@));
        let id: i32 = match name_to_id.get(row.opponent_tag.as_str()) {
            Some(id) => id,
            None => {
                assert(!row_mergeable(players, all, i as int));
                return None;
            },
        };
        proof {
            lemma_record_push(players, labels, seen, row@, id);
        }
        let next: HeadToHeadResult = match merged.get(&id) {
            Some(current) => match add_counts(current, row) {
                Some(sum) => sum,
                None => {
                    assert(!row_mergeable(players, all, i as int));
                    return None;
                },
            },
            None => {
                let name: String = match id_to_name.get(&id) {
                    Some(name) => name.clone(),
                    None => row.opponent_tag.clone(),
                };
                HeadToHeadResult {
                    opponent_tag: name,
                    total_sets: row.total_sets,
                    wins: row.wins,
                    losses: row.losses,
                }
            },
        };
        assert(next@ == record_against(players, labels, all.take(i + 1), id));
        merged.insert(id, next);
        proof {
            assert(row_mergeable(players, all, i as int));
            assert forall|other: i32| #[trigger]
                merged@.contains_key(other) <==> occurs(players, all.take(i + 1), other) by {
                lemma_occurs_push(players, seen, row@, other);
            }
            assert forall|other: i32| #[trigger]
                merged@.contains_key(other) implies merged@[other]@ == record_against(
                players,
                labels,
                all.take(i + 1),
                other,
            ) by {
                if other != id {
                    assert(before.contains_key(other));
                    lemma_record_push(players, labels, seen, row@, other);
                }
            }
        }
        i += 1;
    }
    assert(all.take(all.len() as int) =~= all);
    Some(merged)
}

/// A list of the records of a table: each once, in some order of the players.
pub open spec fn is_listing(
    rows: Seq<HeadToHead>,
    ids: Seq<i32>,
    records: Map<i32, HeadToHeadResult>,
) -> bool {
    &&& ids.len() == rows.len()
    &&& ids.no_duplicates()
    &&& forall|id: i32| #[trigger] ids.contains(id) <==> records.contains_key(id)
    &&& forall|i: int| 0 <= i < rows.len() ==> #[trigger] rows[i] == records[ids[i]]@
}

/// The records of a table, in no particular order.
pub fn list_records(records: &HashMap<i32, HeadToHeadResult>) -> (r: Vec<HeadToHeadResult>)
    ensures
        exists|ids: Seq<i32>| is_listing(views_of(r@), ids, records@),
        exists|ids: Seq<i32>| #[trigger]
            ids.no_duplicates() && (forall|id: i32| #[trigger]
                ids.contains(id) <==> records@.contains_key(id)) && r@ == ids.map_values(
                |id: i32| records@[id],
            ),
{
    broadcast use vstd::std_specs::hash::group_hash_axioms;

    let mut rows: Vec<HeadToHeadResult> = Vec::new();
    let mut ids: Ghost<Seq<i32>> = Ghost(Seq::empty());
    for (id, record) in it: records.iter()
        invariant
            it.seq() == vstd::std_specs::iter::IteratorSpec::remaining(&records.iter()),
            rows@.len() == it.index(),
            ids@.len() == it.index(),
            forall|k: int| 0 <= k < it.index() ==> #[trigger] rows@[k] == *it.seq()[k].1,
            forall|k: int| 0 <= k < it.index() ==> #[trigger] ids@[k] == *it.seq()[k].0,
    {
        rows.push(record.clone());
        proof {
            ids@ = ids@.push(*id);
        }
    }
    proof {
        let walk = vstd::std_specs::iter::IteratorSpec::remaining(&records.iter());
        let list = views_of(rows@);
        assert forall|i: int| 0 <= i < list.len() implies records@.contains_key(
            #[trigger] ids@[i],
        ) && list[i] == records@[ids@[i]]@ by {
            assert(records@.contains_key(*walk[i].0));
            assert(list[i] == rows@[i]@);
        }
        assert forall|i: int, j: int| 0 <= i < j < ids@.len() implies ids@[i] != ids@[j] by {
            assert(records@[*walk[i].0] == *walk[i].1);
            assert(records@[*walk[j].0] == *walk[j].1);
            assert(walk[i] != walk[j]);
        }
        assert forall|id: i32| #[trigger] ids@.contains(id) <==> records@.contains_key(id) by {
            if records@.contains_key(id) {
                assert(walk.contains((&id, &records@[id])));
                let i = choose|i: int| 0 <= i < walk.len() && walk[i] == (&id, &records@[id]);
                assert(ids@[i] == id);
            }
        }
        assert(is_listing(list, ids@, records@));
        assert forall|i: int| 0 <= i < rows@.len() implies rows@[i] == records@[ids@[i]] by {
            assert(records@[*walk[i].0] == *walk[i].1);
        }
        assert(rows@ =~= ids@.map_values(|id: i32| records@[id]));
    }
    rows
}

/// Row by row, the record against the players of a list: the counts of all rows about the player
/// added up, under one of the player's names.
pub open spec fn is_record_of(
    result: Seq<HeadToHead>,
    ids: Seq<i32>,
    players: Map<Seq<char>, i32>,
    rows: Seq<HeadToHead>,
) -> bool {
    &&& ids.len() == result.len()
    &&& ids.no_duplicates()
    &&& forall|id: i32| #[trigger] ids.contains(id) <==> occurs(players, rows, id)
    &&& forall|i: int|
        0 <= i < result.len() ==> {
            &&& players.contains_key((#[trigger] result[i]).opponent_tag)
            &&& players[result[i].opponent_tag] == ids[i]
            &&& result[i].tally == tally_against(players, rows, ids[i])
        }
}

/// A head-to-head record: one row for each opponent, in any order.
pub open spec fn is_head_to_head_record(
    result: Seq<HeadToHead>,
    players: Map<Seq<char>, i32>,
    rows: Seq<HeadToHead>,
) -> bool {
    exists|ids: Seq<i32>| #[trigger] is_record_of(result, ids, players, rows)
}

/// Adds the rows of every opponent up, given which names were seen for which players; `None`
/// exactly where a row is under a name never seen, or a sum leaves the 64-bit integers.
pub fn merge_results(seen: &Vec<Sighting>, db_results: &Vec<HeadToHeadResult>) -> (r: Option<
    Vec<HeadToHeadResult>,
>)
    ensures
        match r {
            Some(result) => {
                let players = names::players_by_name(sightings::views_of(seen@));
                &&& mergeable(players, views_of(db_results@))
                &&& is_head_to_head_record(views_of(result@), players, views_of(db_results@))
            },
            None => !mergeable(
                names::players_by_name(sightings::views_of(seen@)),
                views_of(db_results@),
            ),
        },
{
    let name_to_id = NameTable::from_sightings(seen);
    let walk: Vec<Sighting> = name_to_id.walk();
    let id_to_name: HashMap<i32, String> = names::name_players(&walk);
    let merged: HashMap<i32, HeadToHeadResult> = match merge_by_player(
        &name_to_id,
        &id_to_name,
        db_results,
    ) {
        Some(merged) => merged,
        None => return None,
    };
    let result: Vec<HeadToHeadResult> = list_records(&merged);
    proof {
        let players = name_to_id@;
        let rows = views_of(db_results@);
        let list = views_of(result@);
        let ids = choose|ids: Seq<i32>| is_listing(list, ids, merged@);
        assert forall|i: int| 0 <= i < list.len() implies {
            &&& players.contains_key((#[trigger] list[i]).opponent_tag)
            &&& players[list[i].opponent_tag] == ids[i]
            &&& list[i].tally == tally_against(players, rows, ids[i])
        } by {
            assert(ids.contains(ids[i]));
            let k = choose|k: int|
                0 <= k < rows.len() && players[(#[trigger] rows[k]).opponent_tag] == ids[i];
            assert(row_mergeable(players, rows, k));
            names::labels_are_names(sightings::views_of(walk@), players, rows[k].opponent_tag);
        }
        assert(is_record_of(list, ids, players, rows));
    }
    Some(result)
}

/// The responses can be read, and what they show covers every row.
pub open spec fn covers(
    requester: i32,
    responses: Seq<json::Json>,
    rows: Seq<HeadToHead>,
) -> bool {
    &&& sightings::responses_readable(requester, responses)
    &&& mergeable(names::players_by_name(sightings::sightings_of(requester, responses)), rows)
}

/// The head-to-head record, where the responses can be read and their names cover every row;
/// `None` exactly where a response lacks what has to be read, a row is under a name that no
/// response shows, or a sum leaves the 64-bit integers.
pub fn checked_sgg_h2h_response_to_results(
    req_player_id: i32,
    data: &Vec<Value>,
    db_results: &Vec<HeadToHeadResult>,
) -> (r: Option<Vec<HeadToHeadResult>>)
    ensures
        match r {
            Some(result) => {
                let players = names::players_by_name(
                    sightings::sightings_of(req_player_id, json::jsons_of(data@)),
                );
                &&& covers(req_player_id, json::jsons_of(data@), views_of(db_results@))
                &&& is_head_to_head_record(views_of(result@), players, views_of(db_results@))
            },
            None => !covers(req_player_id, json::jsons_of(data@), views_of(db_results@)),
        },
{
    match sightings::read_sightings(req_player_id, data) {
        Some(seen) => merge_results(&seen, db_results),
        None => None,
    }
}

/// The head-to-head record of a player, from what start.gg answered about one set against each
/// opponent and from the rows of the database.
pub fn sgg_h2h_response_to_results(
    req_player_id: i32,
    data: Vec<Value>,
    db_results: &Vec<HeadToHeadResult>,
) -> (r: Vec<HeadToHeadResult>)
    requires
        covers(req_player_id, json::jsons_of(data@), views_of(db_results@)),
    ensures
        is_head_to_head_record(
            views_of(r@),
            names::players_by_name(
                sightings::sightings_of(req_player_id, json::jsons_of(data@)),
            ),
            views_of(db_results@),
        ),
{
    checked_sgg_h2h_response_to_results(req_player_id, &data, db_results).unwrap()
}

} // verus!
