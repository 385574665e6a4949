//! Which entrant names the start.gg responses show, and for which players.
//!
//! A response is an object of sets, a set an object whose members are lists of slots, and a slot
//! names one entrant with the player behind it.
use serde_json::Value;
use vstd::prelude::*;

use crate::json;
use crate::json::Json;

verus! {

/// One entrant of a set: the name entered under, and the player.
#[derive(Debug)]
pub struct Sighting {
    pub name: String,
    pub player_id: i32,
}

impl View for Sighting {
    type V = (Seq<char>, i32);

    open spec fn view(&self) -> (Seq<char>, i32) {
        (self.name@, self.player_id)
    }
}

/// The contents of a list of sightings.
pub open spec fn views_of(sightings: Seq<Sighting>) -> Seq<(Seq<char>, i32)> {
    Seq::new(sightings.len(), |i: int| sightings[i]@)
}

/// Where a slot holds the id of its entrant's player.
pub open spec fn player_id_path() -> Seq<Seq<char>> {
    seq!["entrant"@, "participants"@, "0"@, "player"@, "id"@]
}

/// Where a slot holds the name of its entrant.
pub open spec fn name_path() -> Seq<Seq<char>> {
    seq!["entrant"@, "name"@]
}

/// The id of the player in a slot.
pub open spec fn slot_player(slot: Json) -> Option<i64> {
    match slot.at(player_id_path()) {
        Some(Json::Integer(n)) => Some(n),
        _ => None,
    }
}

/// The name of the entrant in a slot.
pub open spec fn slot_name(slot: Json) -> Option<Seq<char>> {
    match slot.at(name_path()) {
        Some(Json::Text(name)) => Some(name),
        _ => None,
    }
}

/// A slot gives the id of its player, and a name unless it is the requester's own.
pub open spec fn slot_readable(requester: i32, slot: Json) -> bool {
    match slot_player(slot) {
        Some(id) => id as i32 == requester || slot_name(slot) is Some,
        None => false,
    }
}

/// A list of readable slots.
pub open spec fn slots_readable(requester: i32, slots: Json) -> bool {
    slots is Array && forall|i: int|
        0 <= i < slots.items().len() ==> slot_readable(requester, #[trigger] slots.items()[i])
}

/// A set: an object of lists of readable slots.
pub open spec fn set_readable(requester: i32, set: Json) -> bool {
    set is Object && forall|i: int|
        0 <= i < set.entries().len() ==> slots_readable(requester, (#[trigger] set.entries()[i]).1)
}

/// A response: an object of readable sets.
pub open spec fn response_readable(requester: i32, response: Json) -> bool {
    response is Object && forall|i: int|
        0 <= i < response.entries().len() ==> set_readable(
            requester,
            (#[trigger] response.entries()[i]).1,
        )
}

/// Every response can be read.
pub open spec fn responses_readable(requester: i32, responses: Seq<Json>) -> bool {
    forall|i: int|
        0 <= i < responses.len() ==> response_readable(requester, #[trigger] responses[i])
}

/// The opponents in a list of slots.
pub open spec fn slots_sightings(requester: i32, slots: Seq<Json>) -> Seq<(Seq<char>, i32)>
    decreases slots.len(),
{
    if slots.len() == 0 {
        Seq::empty()
    } else {
        let before = slots_sightings(requester, slots.drop_last());
        let id = slot_player(slots.last()).unwrap() as i32;
        if id == requester {
            before
        } else {
            before.push((slot_name(slots.last()).unwrap(), id))
        }
    }
}

/// The opponents in the members of a set.
pub open spec fn set_sightings(requester: i32, members: Seq<(Seq<char>, Json)>) -> Seq<
    (Seq<char>, i32),
>
    decreases members.len(),
{
    if members.len() == 0 {
        Seq::empty()
    } else {
        set_sightings(requester, members.drop_last()) + slots_sightings(
            requester,
            members.last().1.items(),
        )
    }
}

/// The opponents in the sets of a response.
pub open spec fn response_sightings(requester: i32, sets: Seq<(Seq<char>, Json)>) -> Seq<
    (Seq<char>, i32),
>
    decreases sets.len(),
{
    if sets.len() == 0 {
        Seq::empty()
    } else {
        response_sightings(requester, sets.drop_last()) + set_sightings(
            requester,
            sets.last().1.entries(),
        )
    }
}

/// The opponents in all responses, in the order in which the responses show them.
pub open spec fn sightings_of(requester: i32, responses: Seq<Json>) -> Seq<(Seq<char>, i32)>
    decreases responses.len(),
{
    if responses.len() == 0 {
        Seq::empty()
    } else {
        sightings_of(requester, responses.drop_last()) + response_sightings(
            requester,
            responses.last().entries(),
        )
    }
}

/// The JSON Pointers of the two paths.
proof fn lemma_slot_pointers()
    ensures
        json::pointer_text(player_id_path()) == "/entrant/participants/0/player/id"@,
        json::pointer_text(name_path()) == "/entrant/name"@,
{
    reveal_strlit("entrant");
    reveal_strlit("participants");
    reveal_strlit("0");
    reveal_strlit("player");
    reveal_strlit("id");
    reveal_strlit("name");
    reveal_strlit("/entrant/participants/0/player/id");
    reveal_strlit("/entrant/name");
    json::lemma_plain_token("entrant"@);
    json::lemma_plain_token("participants"@);
    json::lemma_plain_token("0"@);
    json::lemma_plain_token("player"@);
    json::lemma_plain_token("id"@);
    json::lemma_plain_token("name"@);
    reveal_with_fuel(json::pointer_text, 6);
    let p = player_id_path();
    assert(p.drop_first() =~= seq!["participants"@, "0"@, "player"@, "id"@]);
    assert(p.drop_first().drop_first() =~= seq!["0"@, "player"@, "id"@]);
    assert(p.drop_first().drop_first().drop_first() =~= seq!["player"@, "id"@]);
    assert(p.drop_first().drop_first().drop_first().drop_first() =~= seq!["id"@]);
    assert(json::pointer_text(p) =~= "/entrant/participants/0/player/id"@);
    assert(name_path().drop_first() =~= seq!["name"@]);
    assert(json::pointer_text(name_path()) =~= "/entrant/name"@);
}

/// The id of the player in a slot, if the slot gives one.
fn read_player(slot: &Value) -> (r: Option<i64>)
    ensures
        r == slot_player(json::json_of(*slot)),
{
    proof {
        lemma_slot_pointers();
    }
    match slot.pointer("/entrant/participants/0/player/id") {
        Some(id) => id.as_i64(),
        None => None,
    }
}

/// The name of the entrant in a slot, if the slot gives one.
fn read_name(slot: &Value) -> (r: Option<String>)
    ensures
        match r {
            Some(name) => slot_name(json::json_of(*slot)) == Some(name@),
            None => slot_name(json::json_of(*slot)) is None,
        },
{
    proof {
        lemma_slot_pointers();
    }
    match slot.pointer("/entrant/name") {
        Some(name) => match name.as_str() {
            Some(text) => Some(text.to_owned()),
            None => None,
        },
        None => None,
    }
}

/// Reads a list of slots behind what was read before; `false` where it cannot be read.
fn read_slots(requester: i32, slots: &Value, found: &mut Vec<Sighting>) -> (r: bool)
    ensures
        r == slots_readable(requester, json::json_of(*slots)),
        r ==> views_of(final(found)@) == views_of(old(found)@) + slots_sightings(
            requester,
            json::json_of(*slots).items(),
        ),
{
    let items: &Vec<Value> = match slots.as_array() {
        Some(items) => items,
        None => return false,
    };
    let ghost all = json::jsons_of(items@);
    let ghost before = views_of(found@);
    let mut i: usize = 0;
    while i < items.len()
        invariant
            i <= items@.len(),
            all == json::jsons_of(items@),
            json::json_of(*slots) == Json::Array(all),
            forall|k: int| 0 <= k < i ==> slot_readable(requester, #[trigger] all[k]),
            views_of(found@) =~= before + slots_sightings(requester, all.take(i as int)),
        decreases items@.len() - i,
    {
        proof {
            assert(all[i as int] == json::json_of(items@[i as int]));
            assert(all.take(i + 1).drop_last() =~= all.take(i as int));
            assert(json::json_of(*slots).items()[i as int] == all[i as int]);
            assert(all.take(i + 1).last() == all[i as int]);
        }
        let id: i32 = match read_player(&items[i]) {
            Some(id) => #[verifier::truncate] (id as i32),
            None => return false,
        };
        if id != requester {
            let name: String = match read_name(&items[i]) {
                Some(name) => name,
                None => return false,
            };
            let ghost shown = (name@, id);
            let ghost earlier = views_of(found@);
            found.push(Sighting { name, player_id: id });
            assert(views_of(found@) =~= earlier.push(shown));
        }
        i += 1;
    }
    assert(all.take(all.len() as int) =~= all);
    true
}

/// Reads a set behind what was read before; `false` where it cannot be read.
fn read_set(requester: i32, set: &Value, found: &mut Vec<Sighting>) -> (r: bool)
    ensures
        r == set_readable(requester, json::json_of(*set)),
        r ==> views_of(final(found)@) == views_of(old(found)@) + set_sightings(
            requester,
            json::json_of(*set).entries(),
        ),
{
    let members: Vec<&Value> = match set.as_object() {
        Some(object) => json::object_values(object),
        None => return false,
    };
    let ghost all = json::json_of(*set).entries();
    let ghost before = views_of(found@);
    let mut i: usize = 0;
    while i < members.len()
        invariant
            i <= members@.len(),
            json::json_of(*set) is Object,
            all == json::json_of(*set).entries(),
            members@.len() == all.len(),
            forall|k: int|
                0 <= k < members@.len() ==> json::json_of(*#[trigger] members@[k]) == all[k].1,
            forall|k: int| 0 <= k < i ==> slots_readable(requester, (#[trigger] all[k]).1),
            views_of(found@) =~= before + set_sightings(requester, all.take(i as int)),
        decreases members@.len() - i,
    {
        proof {
            assert(all.take(i + 1).drop_last() =~= all.take(i as int));
            assert(json::json_of(*members@[i as int]) == all[i as int].1);
        }
        if !read_slots(requester, members[i], found) {
            return false;
        }
        i += 1;
    }
    assert(all.take(all.len() as int) =~= all);
    true
}

/// Reads a response behind what was read before; `false` where it cannot be read.
fn read_response(requester: i32, response: &Value, found: &mut Vec<Sighting>) -> (r: bool)
    ensures
        r == response_readable(requester, json::json_of(*response)),
        r ==> views_of(final(found)@) == views_of(old(found)@) + response_sightings(
            requester,
            json::json_of(*response).entries(),
        ),
{
    let sets: Vec<&Value> = match response.as_object() {
        Some(object) => json::object_values(object),
        None => return false,
    };
    let ghost all = json::json_of(*response).entries();
    let ghost before = views_of(found@);
    let mut i: usize = 0;
    while i < sets.len()
        invariant
            i <= sets@.len(),
            json::json_of(*response) is Object,
            all == json::json_of(*response).entries(),
            sets@.len() == all.len(),
            forall|k: int|
                0 <= k < sets@.len() ==> json::json_of(*#[trigger] sets@[k]) == all[k].1,
            forall|k: int| 0 <= k < i ==> set_readable(requester, (#[trigger] all[k]).1),
            views_of(found@) =~= before + response_sightings(requester, all.take(i as int)),
        decreases sets@.len() - i,
    {
        proof {
            assert(all.take(i + 1).drop_last() =~= all.take(i as int));
            assert(json::json_of(*sets@[i as int]) == all[i as int].1);
        }
        if !read_set(requester, sets[i], found) {
            return false;
        }
        i += 1;
    }
    assert(all.take(all.len() as int) =~= all);
    true
}

/// The opponents in all responses, in the order in which the responses show them; `None` exactly
/// where a response lacks what has to be read.
pub fn read_sightings(requester: i32, responses: &Vec<Value>) -> (r: Option<Vec<Sighting>>)
    ensures
        match r {
            Some(found) => responses_readable(requester, json::jsons_of(responses@)) && views_of(
                found@,
            ) == sightings_of(requester, json::jsons_of(responses@)),
            None => !responses_readable(requester, json::jsons_of(responses@)),
        },
        r matches Some(found) ==> {
            let shown = sightings_of(requester, json::jsons_of(responses@));
            &&& found@.len() == shown.len()
            &&& forall|i: int|
                0 <= i < found@.len() ==> (#[trigger] found@[i]).name@ == shown[i].0
                    && found@[i].player_id == shown[i].1
        },
{
    let ghost all = json::jsons_of(responses@);
    let mut found: Vec<Sighting> = Vec::new();
    let mut i: usize = 0;
    while i < responses.len()
        invariant
            i <= responses@.len(),
            all == json::jsons_of(responses@),
            forall|k: int| 0 <= k < i ==> response_readable(requester, #[trigger] all[k]),
            views_of(found@) =~= sightings_of(requester, all.take(i as int)),
        decreases responses@.len() - i,
    {
        proof {
            assert(all[i as int] == json::json_of(responses@[i as int]));
            assert(all.take(i + 1).drop_last() =~= all.take(i as int));
        }
        if !read_response(requester, &responses[i], &mut found) {
            return None;
        }
        i += 1;
    }
    assert(all.take(all.len() as int) =~= all);
    assert forall|k: int| 0 <= k < found@.len() implies (#[trigger] found@[k]).name@
        == sightings_of(requester, all)[k].0 && found@[k].player_id == sightings_of(
        requester,
        all,
    )[k].1 by {
        assert(views_of(found@)[k] == found@[k]@);
    }
    Some(found)
}

/// No sighting is of the requester.
pub open spec fn all_others(requester: i32, seen: Seq<(Seq<char>, i32)>) -> bool {
    forall|i: int| 0 <= i < seen.len() ==> (#[trigger] seen[i]).1 != requester
}

/// No slot of a list shows the requester as an opponent.
proof fn lemma_slots_skip_requester(requester: i32, slots: Seq<Json>)
    ensures
        all_others(requester, slots_sightings(requester, slots)),
    decreases slots.len(),
{
    if slots.len() > 0 {
        lemma_slots_skip_requester(requester, slots.drop_last());
    }
}

/// No set shows the requester as an opponent.
proof fn lemma_set_skips_requester(requester: i32, members: Seq<(Seq<char>, Json)>)
    ensures
        all_others(requester, set_sightings(requester, members)),
    decreases members.len(),
{
    if members.len() > 0 {
        lemma_set_skips_requester(requester, members.drop_last());
        lemma_slots_skip_requester(requester, members.last().1.items());
    }
}

/// No response shows the requester as an opponent.
proof fn lemma_response_skips_requester(requester: i32, sets: Seq<(Seq<char>, Json)>)
    ensures
        all_others(requester, response_sightings(requester, sets)),
    decreases sets.len(),
{
    if sets.len() > 0 {
        lemma_response_skips_requester(requester, sets.drop_last());
        lemma_set_skips_requester(requester, sets.last().1.entries());
    }
}

/// The requester is never among the opponents that the responses show.
pub proof fn requester_not_sighted(requester: i32, responses: Seq<Json>)
    ensures
        all_others(requester, sightings_of(requester, responses)),
    decreases responses.len(),
{
    if responses.len() > 0 {
        requester_not_sighted(requester, responses.drop_last());
        lemma_response_skips_requester(requester, responses.last().entries());
    }
}

/// Answers add up: what several lists of responses show is what each shows, one after another.
pub proof fn sightings_add_up(requester: i32, first: Seq<Json>, second: Seq<Json>)
    ensures
        sightings_of(requester, first + second) == sightings_of(requester, first) + sightings_of(
            requester,
            second,
        ),
    decreases second.len(),
{
    if second.len() == 0 {
        assert(first + second =~= first);
        assert(sightings_of(requester, first) + sightings_of(requester, second) =~= sightings_of(
            requester,
            first,
        ));
    } else {
        sightings_add_up(requester, first, second.drop_last());
        assert((first + second).drop_last() =~= first + second.drop_last());
        assert((first + second).last() == second.last());
        assert(sightings_of(requester, first + second) =~= sightings_of(requester, first)
            + sightings_of(requester, second));
    }
}

/// A sighting shows the name and the player that it holds, and a list shows its sightings one by
/// one.
pub proof fn sightings_show_fields(seen: Seq<Sighting>, i: int)
    requires
        0 <= i < seen.len(),
    ensures
        views_of(seen).len() == seen.len(),
        views_of(seen)[i].0 == seen[i].name@,
        views_of(seen)[i].1 == seen[i].player_id,
{
}

/// The id of the player in a slot is the number under `entrant`, `participants`, `0`, `player`,
/// `id`, and the name is the text under `entrant`, `name`.
pub proof fn slot_is_read_there(slot: Json, id: i64, name: Seq<char>)
    ensures
        slot_player(slot) == Some(id) <==> slot.at(
            seq!["entrant"@, "participants"@, "0"@, "player"@, "id"@],
        ) == Some(Json::Integer(id)),
        slot_name(slot) == Some(name) <==> slot.at(seq!["entrant"@, "name"@]) == Some(
            Json::Text(name),
        ),
{
}

/// The id of the player in a slot is read from the first participant of its entrant, whatever
/// else the slot holds.
pub proof fn player_id_is_read(
    slot: Seq<(Seq<char>, Json)>,
    a: int,
    entrant: Seq<(Seq<char>, Json)>,
    b: int,
    participants: Seq<Json>,
    participant: Seq<(Seq<char>, Json)>,
    c: int,
    player: Seq<(Seq<char>, Json)>,
    d: int,
    id: i64,
)
    requires
        0 <= a < slot.len(),
        slot[a] == ("entrant"@, Json::Object(entrant)),
        forall|j: int| 0 <= j < a ==> (#[trigger] slot[j]).0 != "entrant"@,
        0 <= b < entrant.len(),
        entrant[b] == ("participants"@, Json::Array(participants)),
        forall|j: int| 0 <= j < b ==> (#[trigger] entrant[j]).0 != "participants"@,
        participants.len() > 0,
        participants[0] == Json::Object(participant),
        0 <= c < participant.len(),
        participant[c] == ("player"@, Json::Object(player)),
        forall|j: int| 0 <= j < c ==> (#[trigger] participant[j]).0 != "player"@,
        0 <= d < player.len(),
        player[d] == ("id"@, Json::Integer(id)),
        forall|j: int| 0 <= j < d ==> (#[trigger] player[j]).0 != "id"@,
    ensures
        slot_player(Json::Object(slot)) == Some(id),
{
    json::member_found(slot, "entrant"@, a);
    json::member_found(entrant, "participants"@, b);
    json::item_found(participants, 0);
    json::member_found(participant, "player"@, c);
    json::member_found(player, "id"@, d);
    assert("0"@ =~= crate::decimal::decimal(0)) by {
        reveal_strlit("0");
    }
    let path = seq!["entrant"@, "participants"@, "0"@, "player"@, "id"@];
    assert(path =~= seq!["entrant"@] + seq!["participants"@, "0"@, "player"@, "id"@]);
    assert(seq!["participants"@, "0"@, "player"@, "id"@] =~= seq!["participants"@] + seq![
        "0"@,
        "player"@,
        "id"@,
    ]);
    assert(seq!["0"@, "player"@, "id"@] =~= seq!["0"@] + seq!["player"@, "id"@]);
    assert(seq!["player"@, "id"@] =~= seq!["player"@] + seq!["id"@]);
    assert(seq!["id"@] =~= seq!["id"@] + Seq::<Seq<char>>::empty());
    json::path_leads_on(
        Json::Object(slot),
        "entrant"@,
        seq!["participants"@, "0"@, "player"@, "id"@],
    );
    json::path_leads_on(Json::Object(entrant), "participants"@, seq!["0"@, "player"@, "id"@]);
    json::path_leads_on(Json::Array(participants), "0"@, seq!["player"@, "id"@]);
    json::path_leads_on(Json::Object(participant), "player"@, seq!["id"@]);
    json::path_leads_on(Json::Object(player), "id"@, Seq::empty());
    json::path_leads_on(Json::Integer(id), "id"@, Seq::empty());
    slot_is_read_there(Json::Object(slot), id, Seq::empty());
}

/// The name in a slot is read from its entrant, whatever else the slot holds.
pub proof fn name_is_read(
    slot: Seq<(Seq<char>, Json)>,
    a: int,
    entrant: Seq<(Seq<char>, Json)>,
    b: int,
    name: Seq<char>,
)
    requires
        0 <= a < slot.len(),
        slot[a] == ("entrant"@, Json::Object(entrant)),
        forall|j: int| 0 <= j < a ==> (#[trigger] slot[j]).0 != "entrant"@,
        0 <= b < entrant.len(),
        entrant[b] == ("name"@, Json::Text(name)),
        forall|j: int| 0 <= j < b ==> (#[trigger] entrant[j]).0 != "name"@,
    ensures
        slot_name(Json::Object(slot)) == Some(name),
{
    json::member_found(slot, "entrant"@, a);
    json::member_found(entrant, "name"@, b);
    assert(seq!["entrant"@, "name"@] =~= seq!["entrant"@] + seq!["name"@]);
    assert(seq!["name"@] =~= seq!["name"@] + Seq::<Seq<char>>::empty());
    json::path_leads_on(Json::Object(slot), "entrant"@, seq!["name"@]);
    json::path_leads_on(Json::Object(entrant), "name"@, Seq::empty());
    json::path_leads_on(Json::Text(name), "name"@, Seq::empty());
    slot_is_read_there(Json::Object(slot), 0, name);
}

/// A slot can be read exactly where it gives a number for the player and, unless that is the
/// requester, a text for the name.
pub proof fn slot_readable_exactly(requester: i32, slot: Json)
    ensures
        slot_readable(requester, slot) <==> match (slot.at(seq!["entrant"@, "participants"@, "0"@, "player"@, "id"@]), slot.at(seq!["entrant"@, "name"@])) {
            (Some(Json::Integer(_)), Some(Json::Text(_))) => true,
            (Some(Json::Integer(id)), _) => id as i32 == requester,
            _ => false,
        },
{
}

/// Responses can be read exactly where each is an object of objects of lists, and every slot in
/// the lists can be read.
pub proof fn responses_readable_exactly(requester: i32, responses: Seq<Json>)
    ensures
        responses_readable(requester, responses) <==> {
            &&& forall|a: int| 0 <= a < responses.len() ==> #[trigger] responses[a] is Object
            &&& forall|a: int, b: int|
                0 <= a < responses.len() && 0 <= b < responses[a].entries().len() ==> (
                #[trigger] responses[a].entries()[b]).1 is Object
            &&& forall|a: int, b: int, c: int|
                0 <= a < responses.len() && 0 <= b < responses[a].entries().len() && 0 <= c
                    < responses[a].entries()[b].1.entries().len() ==> (
                #[trigger] responses[a].entries()[b].1.entries()[c]).1 is Array
            &&& forall|a: int, b: int, c: int, d: int|
                0 <= a < responses.len() && 0 <= b < responses[a].entries().len() && 0 <= c
                    < responses[a].entries()[b].1.entries().len() && 0 <= d
                    < responses[a].entries()[b].1.entries()[c].1.items().len() ==> slot_readable(
                    requester,
                    #[trigger] responses[a].entries()[b].1.entries()[c].1.items()[d],
                )
        },
{
    let all = {
        &&& forall|a: int| 0 <= a < responses.len() ==> #[trigger] responses[a] is Object
        &&& forall|a: int, b: int|
            0 <= a < responses.len() && 0 <= b < responses[a].entries().len() ==> (
            #[trigger] responses[a].entries()[b]).1 is Object
        &&& forall|a: int, b: int, c: int|
            0 <= a < responses.len() && 0 <= b < responses[a].entries().len() && 0 <= c
                < responses[a].entries()[b].1.entries().len() ==> (
            #[trigger] responses[a].entries()[b].1.entries()[c]).1 is Array
        &&& forall|a: int, b: int, c: int, d: int|
            0 <= a < responses.len() && 0 <= b < responses[a].entries().len() && 0 <= c
                < responses[a].entries()[b].1.entries().len() && 0 <= d
                < responses[a].entries()[b].1.entries()[c].1.items().len() ==> slot_readable(
                requester,
                #[trigger] responses[a].entries()[b].1.entries()[c].1.items()[d],
            )
    };
    if all {
        assert forall|a: int| 0 <= a < responses.len() implies response_readable(
            requester,
            #[trigger] responses[a],
        ) by {
            assert forall|b: int| 0 <= b < responses[a].entries().len() implies set_readable(
                requester,
                (#[trigger] responses[a].entries()[b]).1,
            ) by {
                let set = responses[a].entries()[b].1;
                assert forall|c: int| 0 <= c < set.entries().len() implies slots_readable(
                    requester,
                    (#[trigger] set.entries()[c]).1,
                ) by {
                    let slots = responses[a].entries()[b].1.entries()[c].1;
                    assert(slots is Array);
                    assert forall|d: int| 0 <= d < slots.items().len() implies slot_readable(
                        requester,
                        #[trigger] slots.items()[d],
                    ) by {
                        assert(slot_readable(
                            requester,
                            responses[a].entries()[b].1.entries()[c].1.items()[d],
                        ));
                    }
                }
            }
        }
    }
    if responses_readable(requester, responses) {
        assert forall|a: int, b: int|
            0 <= a < responses.len() && 0 <= b < responses[a].entries().len() implies set_readable(
            requester,
            (#[trigger] responses[a].entries()[b]).1,
        ) by {
            assert(response_readable(requester, responses[a]));
        }
        assert forall|a: int, b: int, c: int|
            0 <= a < responses.len() && 0 <= b < responses[a].entries().len() && 0 <= c
                < responses[a].entries()[b].1.entries().len() implies slots_readable(
            requester,
            (#[trigger] responses[a].entries()[b].1.entries()[c]).1,
        ) by {
            assert(set_readable(requester, responses[a].entries()[b].1));
        }
        assert forall|a: int, b: int, c: int, d: int|
            0 <= a < responses.len() && 0 <= b < responses[a].entries().len() && 0 <= c
                < responses[a].entries()[b].1.entries().len() && 0 <= d
                < responses[a].entries()[b].1.entries()[c].1.items().len() implies slot_readable(
            requester,
            #[trigger] responses[a].entries()[b].1.entries()[c].1.items()[d],
        ) by {
            assert(slots_readable(requester, responses[a].entries()[b].1.entries()[c].1));
        }
    }
}

/// The opponents in a list of slots are those slots, in their order, whose player is not the
/// requester, each with the name and the player that stand in it.
pub proof fn slots_in_order(requester: i32, slots: Seq<Json>)
    requires
        forall|i: int| 0 <= i < slots.len() ==> slot_readable(requester, #[trigger] slots[i]),
    ensures
        slots_sightings(requester, slots) == slots.filter_map(
            |slot: Json|
                match (slot.at(seq!["entrant"@, "participants"@, "0"@, "player"@, "id"@]), slot.at(seq!["entrant"@, "name"@])) {
                    (Some(Json::Integer(id)), Some(Json::Text(name))) => if id as i32
                        == requester {
                        None
                    } else {
                        Some((name, id as i32))
                    },
                    _ => None,
                },
        ),
    decreases slots.len(),
{
    let f = |slot: Json|
        match (slot.at(seq!["entrant"@, "participants"@, "0"@, "player"@, "id"@]), slot.at(seq!["entrant"@, "name"@])) {
            (Some(Json::Integer(id)), Some(Json::Text(name))) => if id as i32 == requester {
                None
            } else {
                Some((name, id as i32))
            },
            _ => None,
        };
    if slots.len() > 0 {
        let before = slots.drop_last();
        assert forall|i: int| 0 <= i < before.len() implies slot_readable(
            requester,
            #[trigger] before[i],
        ) by {
            assert(before[i] == slots[i]);
        }
        slots_in_order(requester, before);
        assert(slot_readable(requester, slots[slots.len() - 1]));
    }
    assert(slots_sightings(requester, slots) =~= slots.filter_map(f));
}

/// The opponents of a set, of a response and of all responses are those of their parts, one after
/// another.
pub proof fn parts_in_order(
    requester: i32,
    members: Seq<(Seq<char>, Json)>,
    sets: Seq<(Seq<char>, Json)>,
    responses: Seq<Json>,
)
    ensures
        set_sightings(requester, members) == members.flat_map(
            |member: (Seq<char>, Json)| slots_sightings(requester, member.1.items()),
        ),
        response_sightings(requester, sets) == sets.flat_map(
            |set: (Seq<char>, Json)| set_sightings(requester, set.1.entries()),
        ),
        sightings_of(requester, responses) == responses.flat_map(
            |response: Json| response_sightings(requester, response.entries()),
        ),
{
    lemma_members_in_order(requester, members);
    lemma_sets_in_order(requester, sets);
    lemma_responses_in_order(requester, responses);
}

proof fn lemma_members_in_order(requester: i32, members: Seq<(Seq<char>, Json)>)
    ensures
        set_sightings(requester, members) == members.flat_map(
            |member: (Seq<char>, Json)| slots_sightings(requester, member.1.items()),
        ),
    decreases members.len(),
{
    let f = |member: (Seq<char>, Json)| slots_sightings(requester, member.1.items());
    if members.len() > 0 {
        lemma_members_in_order(requester, members.drop_last());
        members.drop_last().lemma_flat_map_push(f, members.last());
        assert(members.drop_last().push(members.last()) =~= members);
    }
    assert(set_sightings(requester, members) =~= members.flat_map(f));
}

proof fn lemma_sets_in_order(requester: i32, sets: Seq<(Seq<char>, Json)>)
    ensures
        response_sightings(requester, sets) == sets.flat_map(
            |set: (Seq<char>, Json)| set_sightings(requester, set.1.entries()),
        ),
    decreases sets.len(),
{
    let f = |set: (Seq<char>, Json)| set_sightings(requester, set.1.entries());
    if sets.len() > 0 {
        lemma_sets_in_order(requester, sets.drop_last());
        sets.drop_last().lemma_flat_map_push(f, sets.last());
        assert(sets.drop_last().push(sets.last()) =~= sets);
    }
    assert(response_sightings(requester, sets) =~= sets.flat_map(f));
}

proof fn lemma_responses_in_order(requester: i32, responses: Seq<Json>)
    ensures
        sightings_of(requester, responses) == responses.flat_map(
            |response: Json| response_sightings(requester, response.entries()),
        ),
    decreases responses.len(),
{
    let f = |response: Json| response_sightings(requester, response.entries());
    if responses.len() > 0 {
        lemma_responses_in_order(requester, responses.drop_last());
        responses.drop_last().lemma_flat_map_push(f, responses.last());
        assert(responses.drop_last().push(responses.last()) =~= responses);
    }
    assert(sightings_of(requester, responses) =~= responses.flat_map(f));
}

/// The slot behind a sighting in a list of slots.
proof fn lemma_slot_behind(requester: i32, slots: Seq<Json>, k: int) -> (d: int)
    requires
        forall|i: int| 0 <= i < slots.len() ==> slot_readable(requester, #[trigger] slots[i]),
        0 <= k < slots_sightings(requester, slots).len(),
    ensures
        0 <= d < slots.len(),
        slot_name(slots[d]) == Some(slots_sightings(requester, slots)[k].0),
        slot_player(slots[d]) is Some,
        slot_player(slots[d])->0 as i32 == slots_sightings(requester, slots)[k].1,
    decreases slots.len(),
{
    let before = slots.drop_last();
    if k < slots_sightings(requester, before).len() {
        assert forall|i: int| 0 <= i < before.len() implies slot_readable(
            requester,
            #[trigger] before[i],
        ) by {
            assert(before[i] == slots[i]);
        }
        lemma_slot_behind(requester, before, k)
    } else {
        assert(slot_readable(requester, slots[slots.len() - 1]));
        slots.len() - 1
    }
}

/// The member behind a sighting in a set.
proof fn lemma_member_behind(
    requester: i32,
    members: Seq<(Seq<char>, Json)>,
    k: int,
) -> (at: (int, int))
    requires
        0 <= k < set_sightings(requester, members).len(),
    ensures
        0 <= at.0 < members.len(),
        0 <= at.1 < slots_sightings(requester, members[at.0].1.items()).len(),
        slots_sightings(requester, members[at.0].1.items())[at.1] == set_sightings(
            requester,
            members,
        )[k],
    decreases members.len(),
{
    let before = set_sightings(requester, members.drop_last());
    if k < before.len() {
        lemma_member_behind(requester, members.drop_last(), k)
    } else {
        (members.len() - 1, k - before.len())
    }
}

/// The set behind a sighting in a response.
proof fn lemma_set_behind(
    requester: i32,
    sets: Seq<(Seq<char>, Json)>,
    k: int,
) -> (at: (int, int))
    requires
        0 <= k < response_sightings(requester, sets).len(),
    ensures
        0 <= at.0 < sets.len(),
        0 <= at.1 < set_sightings(requester, sets[at.0].1.entries()).len(),
        set_sightings(requester, sets[at.0].1.entries())[at.1] == response_sightings(
            requester,
            sets,
        )[k],
    decreases sets.len(),
{
    let before = response_sightings(requester, sets.drop_last());
    if k < before.len() {
        lemma_set_behind(requester, sets.drop_last(), k)
    } else {
        (sets.len() - 1, k - before.len())
    }
}

/// The response behind a sighting.
proof fn lemma_response_behind(requester: i32, responses: Seq<Json>, k: int) -> (at: (int, int))
    requires
        0 <= k < sightings_of(requester, responses).len(),
    ensures
        0 <= at.0 < responses.len(),
        0 <= at.1 < response_sightings(requester, responses[at.0].entries()).len(),
        response_sightings(requester, responses[at.0].entries())[at.1] == sightings_of(
            requester,
            responses,
        )[k],
    decreases responses.len(),
{
    let before = sightings_of(requester, responses.drop_last());
    if k < before.len() {
        lemma_response_behind(requester, responses.drop_last(), k)
    } else {
        (responses.len() - 1, k - before.len())
    }
}

/// Every sighting is a slot: the name and the player of each stand in some slot of the responses,
/// the player as a number that is cut to 32 bits and is not the requester.
pub proof fn sightings_come_from_slots(requester: i32, responses: Seq<Json>, k: int)
    requires
        responses_readable(requester, responses),
        0 <= k < sightings_of(requester, responses).len(),
    ensures
        exists|a: int, b: int, c: int, d: int|
            #![trigger responses[a].entries()[b].1.entries()[c].1.items()[d]]
            {
                &&& 0 <= a < responses.len()
                &&& 0 <= b < responses[a].entries().len()
                &&& 0 <= c < responses[a].entries()[b].1.entries().len()
                &&& 0 <= d < responses[a].entries()[b].1.entries()[c].1.items().len()
                &&& responses[a].entries()[b].1.entries()[c].1.items()[d].at(
                    seq!["entrant"@, "participants"@, "0"@, "player"@, "id"@],
                ) matches Some(Json::Integer(id)) && id as i32 == sightings_of(
                    requester,
                    responses,
                )[k].1
                &&& responses[a].entries()[b].1.entries()[c].1.items()[d].at(
                    seq!["entrant"@, "name"@],
                ) == Some(Json::Text(sightings_of(requester, responses)[k].0))
            },
        sightings_of(requester, responses)[k].1 != requester,
{
    let (a, i) = lemma_response_behind(requester, responses, k);
    let (b, j) = lemma_set_behind(requester, responses[a].entries(), i);
    let (c, l) = lemma_member_behind(requester, responses[a].entries()[b].1.entries(), j);
    assert(response_readable(requester, responses[a]));
    assert(set_readable(requester, responses[a].entries()[b].1));
    assert(slots_readable(requester, responses[a].entries()[b].1.entries()[c].1));
    let d = lemma_slot_behind(
        requester,
        responses[a].entries()[b].1.entries()[c].1.items(),
        l,
    );
    let slot = responses[a].entries()[b].1.entries()[c].1.items()[d];
    let id = slot_player(slot).unwrap();
    slot_is_read_there(slot, id, sightings_of(requester, responses)[k].0);
    requester_not_sighted(requester, responses);
}

/// A readable slot is sighted in its list.
proof fn lemma_slot_sighted(requester: i32, slots: Seq<Json>, d: int, name: Seq<char>, id: i64)
    requires
        0 <= d < slots.len(),
        slot_player(slots[d]) == Some(id),
        slot_name(slots[d]) == Some(name),
        id as i32 != requester,
    ensures
        slots_sightings(requester, slots).contains((name, id as i32)),
    decreases slots.len(),
{
    let before = slots_sightings(requester, slots.drop_last());
    let all = slots_sightings(requester, slots);
    if d < slots.len() - 1 {
        lemma_slot_sighted(requester, slots.drop_last(), d, name, id);
        let k = choose|k: int| 0 <= k < before.len() && before[k] == (name, id as i32);
        assert(all[k] == (name, id as i32));
    } else {
        assert(all[before.len() as int] == (name, id as i32));
    }
}

/// What is sighted in a member is sighted in the set.
proof fn lemma_member_sighted(
    requester: i32,
    members: Seq<(Seq<char>, Json)>,
    c: int,
    shown: (Seq<char>, i32),
)
    requires
        0 <= c < members.len(),
        slots_sightings(requester, members[c].1.items()).contains(shown),
    ensures
        set_sightings(requester, members).contains(shown),
    decreases members.len(),
{
    let before = set_sightings(requester, members.drop_last());
    let last = slots_sightings(requester, members.last().1.items());
    let all = set_sightings(requester, members);
    if c < members.len() - 1 {
        lemma_member_sighted(requester, members.drop_last(), c, shown);
        let k = choose|k: int| 0 <= k < before.len() && before[k] == shown;
        assert(all[k] == shown);
    } else {
        let k = choose|k: int| 0 <= k < last.len() && last[k] == shown;
        assert(all[before.len() + k] == shown);
    }
}

/// What is sighted in a set is sighted in the response.
proof fn lemma_set_sighted(
    requester: i32,
    sets: Seq<(Seq<char>, Json)>,
    b: int,
    shown: (Seq<char>, i32),
)
    requires
        0 <= b < sets.len(),
        set_sightings(requester, sets[b].1.entries()).contains(shown),
    ensures
        response_sightings(requester, sets).contains(shown),
    decreases sets.len(),
{
    let before = response_sightings(requester, sets.drop_last());
    let last = set_sightings(requester, sets.last().1.entries());
    let all = response_sightings(requester, sets);
    if b < sets.len() - 1 {
        lemma_set_sighted(requester, sets.drop_last(), b, shown);
        let k = choose|k: int| 0 <= k < before.len() && before[k] == shown;
        assert(all[k] == shown);
    } else {
        let k = choose|k: int| 0 <= k < last.len() && last[k] == shown;
        assert(all[before.len() + k] == shown);
    }
}

/// What is sighted in a response is sighted.
proof fn lemma_response_sighted(
    requester: i32,
    responses: Seq<Json>,
    a: int,
    shown: (Seq<char>, i32),
)
    requires
        0 <= a < responses.len(),
        response_sightings(requester, responses[a].entries()).contains(shown),
    ensures
        sightings_of(requester, responses).contains(shown),
    decreases responses.len(),
{
    let before = sightings_of(requester, responses.drop_last());
    let last = response_sightings(requester, responses.last().entries());
    let all = sightings_of(requester, responses);
    if a < responses.len() - 1 {
        lemma_response_sighted(requester, responses.drop_last(), a, shown);
        let k = choose|k: int| 0 <= k < before.len() && before[k] == shown;
        assert(all[k] == shown);
    } else {
        let k = choose|k: int| 0 <= k < last.len() && last[k] == shown;
        assert(all[before.len() + k] == shown);
    }
}

/// Every opponent is sighted: a slot of the responses whose player is not the requester has its
/// name and its player, cut to 32 bits, among the sightings.
pub proof fn opponents_are_sighted(
    requester: i32,
    responses: Seq<Json>,
    a: int,
    sets: Seq<(Seq<char>, Json)>,
    b: int,
    members: Seq<(Seq<char>, Json)>,
    c: int,
    slots: Seq<Json>,
    d: int,
    name: Seq<char>,
    id: i64,
)
    requires
        0 <= a < responses.len(),
        responses[a] == Json::Object(sets),
        0 <= b < sets.len(),
        sets[b].1 == Json::Object(members),
        0 <= c < members.len(),
        members[c].1 == Json::Array(slots),
        0 <= d < slots.len(),
        slots[d].at(seq!["entrant"@, "participants"@, "0"@, "player"@, "id"@]) == Some(Json::Integer(id)),
        slots[d].at(seq!["entrant"@, "name"@]) == Some(Json::Text(name)),
        id as i32 != requester,
    ensures
        sightings_of(requester, responses).contains((name, id as i32)),
{
    slot_is_read_there(slots[d], id, name);
    lemma_slot_sighted(requester, slots, d, name, id);
    lemma_member_sighted(requester, members, c, (name, id as i32));
    lemma_set_sighted(requester, sets, b, (name, id as i32));
    lemma_response_sighted(requester, responses, a, (name, id as i32));
}

} // verus!
