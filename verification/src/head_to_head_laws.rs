//! What holds of every head-to-head record.
use vstd::prelude::*;

use crate::head_to_head;
use crate::head_to_head::{HeadToHead, HeadToHeadResult, Tally};
use crate::json::Json;
use crate::names;
use crate::sightings;

verus! {

/// The counts of all rows together.
pub open spec fn total_of(rows: Seq<HeadToHead>) -> Tally
    decreases rows.len(),
{
    if rows.len() == 0 {
        Tally::zero()
    } else {
        total_of(rows.drop_last()).plus(rows.last().tally)
    }
}

/// Wins and losses are counts of different sets among all sets.
pub open spec fn is_balanced(tally: Tally) -> bool {
    0 <= tally.wins && 0 <= tally.losses && tally.wins + tally.losses <= tally.total_sets
}

/// The counts of the rows about the players of a list.
spec fn total_against(
    ids: Seq<i32>,
    players: Map<Seq<char>, i32>,
    rows: Seq<HeadToHead>,
) -> Tally
    decreases ids.len(),
{
    if ids.len() == 0 {
        Tally::zero()
    } else {
        total_against(ids.drop_last(), players, rows).plus(
            head_to_head::tally_against(players, rows, ids.last()),
        )
    }
}

/// The last row counts once, if its player is on the list.
proof fn lemma_last_row(ids: Seq<i32>, players: Map<Seq<char>, i32>, rows: Seq<HeadToHead>)
    requires
        ids.no_duplicates(),
        rows.len() > 0,
    ensures
        total_against(ids, players, rows) == (if ids.contains(players[rows.last().opponent_tag]) {
            total_against(ids, players, rows.drop_last()).plus(rows.last().tally)
        } else {
            total_against(ids, players, rows.drop_last())
        }),
    decreases ids.len(),
{
    let id = players[rows.last().opponent_tag];
    if ids.len() > 0 {
        let fewer = ids.drop_last();
        lemma_last_row(fewer, players, rows);
        if fewer.contains(id) {
            let k = choose|k: int| 0 <= k < fewer.len() && fewer[k] == id;
            assert(ids[k] == id);
        } else if ids.contains(id) {
            let k = choose|k: int| 0 <= k < ids.len() && ids[k] == id;
            if k < fewer.len() {
                assert(fewer[k] == id);
            }
        }
        if ids.last() == id {
            assert(ids[ids.len() - 1] == id);
        }
    }
}

/// The rows about the players of a list are all rows, where the list misses no player.
proof fn lemma_all_rows(ids: Seq<i32>, players: Map<Seq<char>, i32>, rows: Seq<HeadToHead>)
    requires
        ids.no_duplicates(),
        forall|i: int|
            0 <= i < rows.len() ==> ids.contains(players[(#[trigger] rows[i]).opponent_tag]),
    ensures
        total_against(ids, players, rows) == total_of(rows),
    decreases rows.len(),
{
    if rows.len() == 0 {
        lemma_no_rows(ids, players, rows);
    } else {
        let fewer = rows.drop_last();
        assert forall|i: int| 0 <= i < fewer.len() implies ids.contains(
            players[(#[trigger] fewer[i]).opponent_tag],
        ) by {
            assert(fewer[i] == rows[i]);
        }
        assert(ids.contains(players[rows[rows.len() - 1].opponent_tag]));
        lemma_all_rows(ids, players, fewer);
        lemma_last_row(ids, players, rows);
    }
}

/// Without rows nobody has sets.
proof fn lemma_no_rows(ids: Seq<i32>, players: Map<Seq<char>, i32>, rows: Seq<HeadToHead>)
    requires
        rows.len() == 0,
    ensures
        total_against(ids, players, rows) == Tally::zero(),
    decreases ids.len(),
{
    if ids.len() > 0 {
        lemma_no_rows(ids.drop_last(), players, rows);
    }
}

/// The total of a record is the total over its players.
proof fn lemma_record_total(
    result: Seq<HeadToHead>,
    ids: Seq<i32>,
    players: Map<Seq<char>, i32>,
    rows: Seq<HeadToHead>,
)
    requires
        ids.len() == result.len(),
        forall|i: int|
            0 <= i < result.len() ==> (#[trigger] result[i]).tally == head_to_head::tally_against(
                players,
                rows,
                ids[i],
            ),
    ensures
        total_of(result) == total_against(ids, players, rows),
    decreases result.len(),
{
    if result.len() > 0 {
        assert forall|i: int| 0 <= i < result.drop_last().len() implies (
        #[trigger] result.drop_last()[i]).tally == head_to_head::tally_against(
            players,
            rows,
            ids.drop_last()[i],
        ) by {
            assert(result[i].tally == head_to_head::tally_against(players, rows, ids[i]));
        }
        lemma_record_total(result.drop_last(), ids.drop_last(), players, rows);
        assert(result[result.len() - 1] == result.last());
    }
}

/// No set is lost and none is counted twice: a record has as many sets, wins and losses in all
/// as the rows that it was made of.
pub proof fn totals_preserved(
    result: Seq<HeadToHead>,
    players: Map<Seq<char>, i32>,
    rows: Seq<HeadToHead>,
)
    requires
        head_to_head::is_head_to_head_record(result, players, rows),
    ensures
        total_of(result) == total_of(rows),
{
    let ids = choose|ids: Seq<i32>| #[trigger]
        head_to_head::is_record_of(result, ids, players, rows);
    assert forall|i: int| 0 <= i < rows.len() implies ids.contains(
        players[(#[trigger] rows[i]).opponent_tag],
    ) by {
        assert(head_to_head::occurs(players, rows, players[rows[i].opponent_tag]));
    }
    lemma_record_total(result, ids, players, rows);
    lemma_all_rows(ids, players, rows);
}

/// An opponent has one row only: no two rows of a record are under names of one player, nor
/// under one name.
pub proof fn opponents_distinct(
    result: Seq<HeadToHead>,
    players: Map<Seq<char>, i32>,
    rows: Seq<HeadToHead>,
    i: int,
    j: int,
)
    requires
        head_to_head::is_head_to_head_record(result, players, rows),
        0 <= i < result.len(),
        0 <= j < result.len(),
        i != j,
    ensures
        players[result[i].opponent_tag] != players[result[j].opponent_tag],
        result[i].opponent_tag != result[j].opponent_tag,
{
}

/// Every row of the database is part of the record: some row of the record is about its player.
pub proof fn opponents_complete(
    result: Seq<HeadToHead>,
    players: Map<Seq<char>, i32>,
    rows: Seq<HeadToHead>,
    i: int,
)
    requires
        head_to_head::is_head_to_head_record(result, players, rows),
        0 <= i < rows.len(),
    ensures
        exists|k: int|
            0 <= k < result.len() && players[(#[trigger] result[k]).opponent_tag]
                == players[rows[i].opponent_tag],
{
    let ids = choose|ids: Seq<i32>| #[trigger]
        head_to_head::is_record_of(result, ids, players, rows);
    let id = players[rows[i].opponent_tag];
    assert(head_to_head::occurs(players, rows, id));
    assert(ids.contains(id));
    let k = choose|k: int| 0 <= k < ids.len() && ids[k] == id;
    assert(players[result[k].opponent_tag] == id);
}

/// A record has no more rows than it was made of.
pub proof fn no_more_rows(
    result: Seq<HeadToHead>,
    players: Map<Seq<char>, i32>,
    rows: Seq<HeadToHead>,
)
    requires
        head_to_head::is_head_to_head_record(result, players, rows),
    ensures
        result.len() <= rows.len(),
{
    let ids = choose|ids: Seq<i32>| #[trigger]
        head_to_head::is_record_of(result, ids, players, rows);
    let all = Seq::new(rows.len(), |i: int| players[rows[i].opponent_tag]);
    assert forall|id: i32| ids.to_set().contains(id) implies all.to_set().contains(id) by {
        assert(ids.contains(id));
        let i = choose|i: int|
            0 <= i < rows.len() && players[(#[trigger] rows[i]).opponent_tag] == id;
        assert(all[i] == id);
    }
    ids.unique_seq_to_set();
    all.lemma_cardinality_of_set();
    vstd::seq_lib::seq_to_set_is_finite(all);
    vstd::set_lib::lemma_len_subset(ids.to_set(), all.to_set());
}

/// Adding balanced rows up gives balanced counts.
proof fn lemma_balanced(players: Map<Seq<char>, i32>, rows: Seq<HeadToHead>, id: i32)
    requires
        forall|i: int| 0 <= i < rows.len() ==> is_balanced((#[trigger] rows[i]).tally),
    ensures
        is_balanced(head_to_head::tally_against(players, rows, id)),
    decreases rows.len(),
{
    if rows.len() > 0 {
        assert forall|i: int| 0 <= i < rows.drop_last().len() implies is_balanced(
            (#[trigger] rows.drop_last()[i]).tally,
        ) by {
            assert(is_balanced(rows[i].tally));
        }
        lemma_balanced(players, rows.drop_last(), id);
        assert(is_balanced(rows[rows.len() - 1].tally));
    }
}

/// Where no row has more wins and losses than sets, no row of the record has.
pub proof fn balance_preserved(
    result: Seq<HeadToHead>,
    players: Map<Seq<char>, i32>,
    rows: Seq<HeadToHead>,
)
    requires
        head_to_head::is_head_to_head_record(result, players, rows),
        forall|i: int| 0 <= i < rows.len() ==> is_balanced((#[trigger] rows[i]).tally),
    ensures
        forall|i: int| 0 <= i < result.len() ==> is_balanced((#[trigger] result[i]).tally),
{
    let ids = choose|ids: Seq<i32>| #[trigger]
        head_to_head::is_record_of(result, ids, players, rows);
    assert forall|i: int| 0 <= i < result.len() implies is_balanced(
        (#[trigger] result[i]).tally,
    ) by {
        lemma_balanced(players, rows, ids[i]);
    }
}

/// What one row adds to the counts against a player.
spec fn share(players: Map<Seq<char>, i32>, row: HeadToHead, id: i32) -> Tally {
    if players[row.opponent_tag] == id {
        row.tally
    } else {
        Tally::zero()
    }
}

/// A row adds its share from wherever it stands.
proof fn lemma_tally_remove(
    players: Map<Seq<char>, i32>,
    rows: Seq<HeadToHead>,
    k: int,
    id: i32,
)
    requires
        0 <= k < rows.len(),
    ensures
        head_to_head::tally_against(players, rows, id) == head_to_head::tally_against(
            players,
            rows.remove(k),
            id,
        ).plus(share(players, rows[k], id)),
    decreases rows.len(),
{
    if k == rows.len() - 1 {
        assert(rows.remove(k) =~= rows.drop_last());
    } else {
        lemma_tally_remove(players, rows.drop_last(), k, id);
        assert(rows.remove(k).drop_last() =~= rows.drop_last().remove(k));
        assert(rows.remove(k).last() == rows.last());
    }
}

/// The order of the rows does not matter to the counts.
proof fn lemma_tally_reordered(
    players: Map<Seq<char>, i32>,
    rows: Seq<HeadToHead>,
    other: Seq<HeadToHead>,
    id: i32,
)
    requires
        rows.to_multiset() == other.to_multiset(),
    ensures
        head_to_head::tally_against(players, rows, id) == head_to_head::tally_against(
            players,
            other,
            id,
        ),
    decreases rows.len(),
{
    vstd::seq_lib::to_multiset_len(rows);
    vstd::seq_lib::to_multiset_len(other);
    if rows.len() > 0 {
        let last = rows.len() - 1;
        vstd::seq_lib::to_multiset_contains(rows, rows[last]);
        vstd::seq_lib::to_multiset_contains(other, rows[last]);
        let k = choose|k: int| 0 <= k < other.len() && other[k] == rows[last];
        vstd::seq_lib::to_multiset_remove(rows, last);
        vstd::seq_lib::to_multiset_remove(other, k);
        lemma_tally_reordered(players, rows.remove(last), other.remove(k), id);
        lemma_tally_remove(players, rows, last, id);
        lemma_tally_remove(players, other, k, id);
    }
}

/// The order of the rows does not matter to who occurs.
proof fn lemma_occurs_reordered(
    players: Map<Seq<char>, i32>,
    rows: Seq<HeadToHead>,
    other: Seq<HeadToHead>,
    id: i32,
)
    requires
        rows.to_multiset() == other.to_multiset(),
        head_to_head::occurs(players, rows, id),
    ensures
        head_to_head::occurs(players, other, id),
{
    let i = choose|i: int|
        0 <= i < rows.len() && players[(#[trigger] rows[i]).opponent_tag] == id;
    vstd::seq_lib::to_multiset_contains(rows, rows[i]);
    vstd::seq_lib::to_multiset_contains(other, rows[i]);
    let k = choose|k: int| 0 <= k < other.len() && other[k] == rows[i];
    assert(players[other[k].opponent_tag] == id);
}

/// The database hands its rows over in a random order; a record of the rows in one order is a
/// record of them in every other.
pub proof fn row_order_irrelevant(
    result: Seq<HeadToHead>,
    players: Map<Seq<char>, i32>,
    rows: Seq<HeadToHead>,
    other: Seq<HeadToHead>,
)
    requires
        rows.to_multiset() == other.to_multiset(),
        head_to_head::is_head_to_head_record(result, players, rows),
    ensures
        head_to_head::is_head_to_head_record(result, players, other),
{
    let ids = choose|ids: Seq<i32>| #[trigger]
        head_to_head::is_record_of(result, ids, players, rows);
    assert forall|id: i32| #[trigger] ids.contains(id) <==> head_to_head::occurs(
        players,
        other,
        id,
    ) by {
        if head_to_head::occurs(players, rows, id) {
            lemma_occurs_reordered(players, rows, other, id);
        }
        if head_to_head::occurs(players, other, id) {
            lemma_occurs_reordered(players, other, rows, id);
        }
    }
    assert forall|i: int| 0 <= i < result.len() implies (#[trigger] result[i]).tally
        == head_to_head::tally_against(players, other, ids[i]) by {
        lemma_tally_reordered(players, rows, other, ids[i]);
    }
    assert(head_to_head::is_record_of(result, ids, players, other));
}

/// An opponent with one name and one row is left alone: the row stands in the record as it was.
pub proof fn single_rows_kept(
    result: Seq<HeadToHead>,
    players: Map<Seq<char>, i32>,
    rows: Seq<HeadToHead>,
    i: int,
)
    requires
        head_to_head::is_head_to_head_record(result, players, rows),
        0 <= i < rows.len(),
        forall|k: int|
            0 <= k < rows.len() && k != i ==> players[(#[trigger] rows[k]).opponent_tag]
                != players[rows[i].opponent_tag],
        forall|name: Seq<char>| #[trigger]
            players.contains_key(name) && players[name] == players[rows[i].opponent_tag] ==> name
                == rows[i].opponent_tag,
    ensures
        result.contains(rows[i]),
{
    let ids = choose|ids: Seq<i32>| #[trigger]
        head_to_head::is_record_of(result, ids, players, rows);
    let id = players[rows[i].opponent_tag];
    assert(head_to_head::occurs(players, rows, id));
    assert(ids.contains(id));
    let k = choose|k: int| 0 <= k < ids.len() && ids[k] == id;
    let rest = rows.remove(i);
    assert forall|j: int| 0 <= j < rest.len() implies players[(#[trigger] rest[j]).opponent_tag]
        != id by {
        if j < i {
            assert(rest[j] == rows[j]);
        } else {
            assert(rest[j] == rows[j + 1]);
        }
    }
    head_to_head::lemma_absent(players, rest, id);
    lemma_tally_remove(players, rows, i, id);
    assert(players.contains_key(result[k].opponent_tag));
    assert(result[k] == rows[i]);
}

/// Two records of the same rows say the same of every opponent: what is about a player in one
/// stands in the other with the same counts.
pub proof fn records_agree(
    result: Seq<HeadToHead>,
    again: Seq<HeadToHead>,
    players: Map<Seq<char>, i32>,
    rows: Seq<HeadToHead>,
    i: int,
)
    requires
        head_to_head::is_head_to_head_record(result, players, rows),
        head_to_head::is_head_to_head_record(again, players, rows),
        0 <= i < result.len(),
    ensures
        exists|k: int|
            0 <= k < again.len() && (#[trigger] again[k]).tally == result[i].tally
                && players[again[k].opponent_tag] == players[result[i].opponent_tag],
{
    let ids = choose|ids: Seq<i32>| #[trigger]
        head_to_head::is_record_of(result, ids, players, rows);
    let other = choose|ids: Seq<i32>| #[trigger]
        head_to_head::is_record_of(again, ids, players, rows);
    assert(ids.contains(ids[i]));
    assert(other.contains(ids[i]));
    let k = choose|k: int| 0 <= k < other.len() && other[k] == ids[i];
    assert(again[k].tally == result[i].tally);
}

/// Nobody has a record against themselves: no row is about the requester.
pub proof fn requester_is_no_opponent(
    requester: i32,
    responses: Seq<Json>,
    rows: Seq<HeadToHead>,
    result: Seq<HeadToHead>,
    i: int,
)
    requires
        head_to_head::is_head_to_head_record(
            result,
            names::players_by_name(sightings::sightings_of(requester, responses)),
            rows,
        ),
        0 <= i < result.len(),
    ensures
        names::players_by_name(
            sightings::sightings_of(requester, responses),
        )[result[i].opponent_tag] != requester,
{
    let seen = sightings::sightings_of(requester, responses);
    let players = names::players_by_name(seen);
    let ids = choose|ids: Seq<i32>| #[trigger]
        head_to_head::is_record_of(result, ids, players, rows);
    let tag = result[i].opponent_tag;
    assert(players.contains_key(tag));
    sightings::requester_not_sighted(requester, responses);
    names::players_were_seen(seen, tag);
    let k = choose|k: int| 0 <= k < seen.len() && seen[k] == (tag, players[tag]);
    assert(seen[k].1 != requester);
}

/// A row shows its own name and its own counts, each in its place.
pub proof fn rows_show_fields(rows: Seq<HeadToHeadResult>, i: int)
    requires
        0 <= i < rows.len(),
    ensures
        head_to_head::views_of(rows).len() == rows.len(),
        head_to_head::views_of(rows)[i].opponent_tag == rows[i].opponent_tag@,
        head_to_head::views_of(rows)[i].tally.total_sets == rows[i].total_sets,
        head_to_head::views_of(rows)[i].tally.wins == rows[i].wins,
        head_to_head::views_of(rows)[i].tally.losses == rows[i].losses,
{
}

/// Counts are added field by field, and they fit where each field is a 64-bit integer.
pub proof fn counts_are_added_plainly(a: Tally, b: Tally)
    ensures
        a.plus(b).total_sets == a.total_sets + b.total_sets,
        a.plus(b).wins == a.wins + b.wins,
        a.plus(b).losses == a.losses + b.losses,
        Tally::zero().total_sets == 0 && Tally::zero().wins == 0 && Tally::zero().losses == 0,
        a.fits() <==> {
            &&& i64::MIN <= a.total_sets <= i64::MAX
            &&& i64::MIN <= a.wins <= i64::MAX
            &&& i64::MIN <= a.losses <= i64::MAX
        },
{
}

/// The counts against a player are plain sums over the rows about the player: the sets of the
/// sets, the wins of the wins, the losses of the losses.
pub proof fn counts_are_plain_sums(
    players: Map<Seq<char>, i32>,
    rows: Seq<HeadToHeadResult>,
    id: i32,
)
    ensures
        head_to_head::tally_against(players, head_to_head::views_of(rows), id).total_sets
            == rows.fold_left(
                0,
                |sum: int, row: HeadToHeadResult|
                    if players[row.opponent_tag@] == id {
                        sum + row.total_sets
                    } else {
                        sum
                    },
            ),
        head_to_head::tally_against(players, head_to_head::views_of(rows), id).wins
            == rows.fold_left(
                0,
                |sum: int, row: HeadToHeadResult|
                    if players[row.opponent_tag@] == id {
                        sum + row.wins
                    } else {
                        sum
                    },
            ),
        head_to_head::tally_against(players, head_to_head::views_of(rows), id).losses
            == rows.fold_left(
                0,
                |sum: int, row: HeadToHeadResult|
                    if players[row.opponent_tag@] == id {
                        sum + row.losses
                    } else {
                        sum
                    },
            ),
    decreases rows.len(),
{
    let all = head_to_head::views_of(rows);
    if rows.len() > 0 {
        counts_are_plain_sums(players, rows.drop_last(), id);
        assert(all.drop_last() =~= head_to_head::views_of(rows.drop_last()));
        assert(all.last() == rows.last()@);
        counts_are_added_plainly(
            head_to_head::tally_against(players, all.drop_last(), id),
            rows.last()@.tally,
        );
    }
}

/// Each row of a record holds the plain sums, field by field, over the rows about its player: no
/// field takes from another, however large the counts are.
pub proof fn fields_add_up(
    result: Seq<HeadToHeadResult>,
    players: Map<Seq<char>, i32>,
    rows: Seq<HeadToHeadResult>,
    k: int,
    id: i32,
)
    requires
        head_to_head::is_head_to_head_record(
            head_to_head::views_of(result),
            players,
            head_to_head::views_of(rows),
        ),
        0 <= k < result.len(),
        id == players[result[k].opponent_tag@],
    ensures
        result[k].total_sets == rows.fold_left(
                0,
                |sum: int, row: HeadToHeadResult|
                    if players[row.opponent_tag@] == id {
                        sum + row.total_sets
                    } else {
                        sum
                    },
            ),
        result[k].wins == rows.fold_left(
                0,
                |sum: int, row: HeadToHeadResult|
                    if players[row.opponent_tag@] == id {
                        sum + row.wins
                    } else {
                        sum
                    },
            ),
        result[k].losses == rows.fold_left(
                0,
                |sum: int, row: HeadToHeadResult|
                    if players[row.opponent_tag@] == id {
                        sum + row.losses
                    } else {
                        sum
                    },
            ),
        players.contains_key(result[k].opponent_tag@),
        exists|i: int|
            0 <= i < rows.len() && players[(#[trigger] rows[i]).opponent_tag@] == id,
{
    let list = head_to_head::views_of(result);
    let all = head_to_head::views_of(rows);
    let ids = choose|ids: Seq<i32>| #[trigger]
        head_to_head::is_record_of(list, ids, players, all);
    rows_show_fields(result, k);
    counts_are_plain_sums(players, rows, id);
    assert(list[k].opponent_tag == result[k].opponent_tag@);
    assert(ids[k] == id);
    assert(ids.contains(id));
    let i = choose|i: int|
        0 <= i < all.len() && players[(#[trigger] all[i]).opponent_tag] == id;
    rows_show_fields(rows, i);
    assert(players[rows[i].opponent_tag@] == id);
}

/// The plain sums of all rows.
proof fn lemma_total_is_plain(rows: Seq<HeadToHeadResult>)
    ensures
        total_of(head_to_head::views_of(rows)).total_sets == rows.fold_left(0, |sum: int, row: HeadToHeadResult| sum + row.total_sets),
        total_of(head_to_head::views_of(rows)).wins == rows.fold_left(0, |sum: int, row: HeadToHeadResult| sum + row.wins),
        total_of(head_to_head::views_of(rows)).losses == rows.fold_left(0, |sum: int, row: HeadToHeadResult| sum + row.losses),
    decreases rows.len(),
{
    let all = head_to_head::views_of(rows);
    if rows.len() > 0 {
        lemma_total_is_plain(rows.drop_last());
        assert(all.drop_last() =~= head_to_head::views_of(rows.drop_last()));
        assert(all.last() == rows.last()@);
        counts_are_added_plainly(total_of(all.drop_last()), rows.last()@.tally);
    }
}

/// Over all rows of a record there are as many sets, as many wins and as many losses as over the
/// rows that it was made of.
pub proof fn fields_preserved(
    result: Seq<HeadToHeadResult>,
    players: Map<Seq<char>, i32>,
    rows: Seq<HeadToHeadResult>,
)
    requires
        head_to_head::is_head_to_head_record(
            head_to_head::views_of(result),
            players,
            head_to_head::views_of(rows),
        ),
    ensures
        result.fold_left(0, |sum: int, row: HeadToHeadResult| sum + row.total_sets)
            == rows.fold_left(0, |sum: int, row: HeadToHeadResult| sum + row.total_sets),
        result.fold_left(0, |sum: int, row: HeadToHeadResult| sum + row.wins)
            == rows.fold_left(0, |sum: int, row: HeadToHeadResult| sum + row.wins),
        result.fold_left(0, |sum: int, row: HeadToHeadResult| sum + row.losses)
            == rows.fold_left(0, |sum: int, row: HeadToHeadResult| sum + row.losses),
{
    totals_preserved(head_to_head::views_of(result), players, head_to_head::views_of(rows));
    lemma_total_is_plain(result);
    lemma_total_is_plain(rows);
}

/// Two rows of one opponent make one row, with the sets, the wins and the losses of both.
pub proof fn two_names_one_row(
    result: Seq<HeadToHeadResult>,
    players: Map<Seq<char>, i32>,
    a: HeadToHeadResult,
    b: HeadToHeadResult,
)
    requires
        players[a.opponent_tag@] == players[b.opponent_tag@],
        head_to_head::is_head_to_head_record(
            head_to_head::views_of(result),
            players,
            head_to_head::views_of(seq![a, b]),
        ),
    ensures
        result.len() == 1,
        result[0].total_sets == a.total_sets + b.total_sets,
        result[0].wins == a.wins + b.wins,
        result[0].losses == a.losses + b.losses,
{
    let rows = seq![a, b];
    let list = head_to_head::views_of(result);
    let all = head_to_head::views_of(rows);
    rows_show_fields(rows, 0);
    rows_show_fields(rows, 1);
    opponents_complete(list, players, all, 0);
    let id = players[a.opponent_tag@];
    if result.len() > 1 {
        fields_add_up(result, players, rows, 0, players[result[0].opponent_tag@]);
        fields_add_up(result, players, rows, 1, players[result[1].opponent_tag@]);
        opponents_distinct(list, players, all, 0, 1);
    }
    fields_add_up(result, players, rows, 0, players[result[0].opponent_tag@]);
    assert(rows.drop_last() =~= seq![a]);
    assert(seq![a].drop_last() =~= Seq::<HeadToHeadResult>::empty());
    reveal_with_fuel(Seq::<_>::fold_left, 3);
}

/// One more row about a player raises the counts against that player by its own, field by field,
/// and leaves the counts against everybody else.
pub proof fn one_more_row(
    players: Map<Seq<char>, i32>,
    rows: Seq<HeadToHeadResult>,
    row: HeadToHeadResult,
    id: i32,
)
    ensures
        ({
            let before = head_to_head::tally_against(players, head_to_head::views_of(rows), id);
            let after = head_to_head::tally_against(
                players,
                head_to_head::views_of(rows.push(row)),
                id,
            );
            if players[row.opponent_tag@] == id {
                &&& after.total_sets == before.total_sets + row.total_sets
                &&& after.wins == before.wins + row.wins
                &&& after.losses == before.losses + row.losses
            } else {
                after == before
            }
        }),
{
    let all = head_to_head::views_of(rows.push(row));
    assert(all.drop_last() =~= head_to_head::views_of(rows));
    assert(all.last() == row@);
    counts_are_added_plainly(
        head_to_head::tally_against(players, head_to_head::views_of(rows), id),
        row@.tally,
    );
}

/// Rows can be merged exactly where each is under a known name, and adding up one after another,
/// field by field, the rows of its player up to it gives 64-bit integers.
pub proof fn mergeable_exactly(players: Map<Seq<char>, i32>, rows: Seq<HeadToHeadResult>)
    ensures
        head_to_head::mergeable(players, head_to_head::views_of(rows)) <==> forall|i: int|
            0 <= i < rows.len() ==> {
                let id = players[rows[i].opponent_tag@];
                &&& players.contains_key((#[trigger] rows[i]).opponent_tag@)
                &&& i64::MIN <= rows.take(i + 1).fold_left(
                0,
                |sum: int, row: HeadToHeadResult|
                    if players[row.opponent_tag@] == id {
                        sum + row.total_sets
                    } else {
                        sum
                    },
            ) <= i64::MAX
                &&& i64::MIN <= rows.take(i + 1).fold_left(
                0,
                |sum: int, row: HeadToHeadResult|
                    if players[row.opponent_tag@] == id {
                        sum + row.wins
                    } else {
                        sum
                    },
            ) <= i64::MAX
                &&& i64::MIN <= rows.take(i + 1).fold_left(
                0,
                |sum: int, row: HeadToHeadResult|
                    if players[row.opponent_tag@] == id {
                        sum + row.losses
                    } else {
                        sum
                    },
            ) <= i64::MAX
            },
{
    let all = head_to_head::views_of(rows);
    assert forall|i: int| 0 <= i < rows.len() implies head_to_head::row_mergeable(players, all, i)
        == ({
        let id = players[rows[i].opponent_tag@];
        &&& players.contains_key((#[trigger] rows[i]).opponent_tag@)
        &&& i64::MIN <= rows.take(i + 1).fold_left(
                0,
                |sum: int, row: HeadToHeadResult|
                    if players[row.opponent_tag@] == id {
                        sum + row.total_sets
                    } else {
                        sum
                    },
            ) <= i64::MAX
        &&& i64::MIN <= rows.take(i + 1).fold_left(
                0,
                |sum: int, row: HeadToHeadResult|
                    if players[row.opponent_tag@] == id {
                        sum + row.wins
                    } else {
                        sum
                    },
            ) <= i64::MAX
        &&& i64::MIN <= rows.take(i + 1).fold_left(
                0,
                |sum: int, row: HeadToHeadResult|
                    if players[row.opponent_tag@] == id {
                        sum + row.losses
                    } else {
                        sum
                    },
            ) <= i64::MAX
    }) by {
        let id = players[rows[i].opponent_tag@];
        rows_show_fields(rows, i);
        assert(all.take(i + 1) =~= head_to_head::views_of(rows.take(i + 1)));
        counts_are_plain_sums(players, rows.take(i + 1), id);
        counts_are_added_plainly(
            head_to_head::tally_against(players, all.take(i + 1), id),
            Tally::zero(),
        );
    }
    if head_to_head::mergeable(players, all) {
        assert forall|i: int| 0 <= i < rows.len() implies head_to_head::row_mergeable(
            players,
            all,
            i,
        ) && players.contains_key((#[trigger] rows[i]).opponent_tag@) by {
            assert(head_to_head::row_mergeable(players, all, i));
        }
    } else {
        let i = choose|i: int| 0 <= i < all.len() && !head_to_head::row_mergeable(players, all, i);
        rows_show_fields(rows, i);
    }
}

/// Responses cover the rows exactly where they can be read and the rows can be merged under the
/// names that they show.
pub proof fn covers_exactly(requester: i32, responses: Seq<Json>, rows: Seq<HeadToHead>)
    ensures
        head_to_head::covers(requester, responses, rows) <==> {
            &&& sightings::responses_readable(requester, responses)
            &&& head_to_head::mergeable(
                names::players_by_name(sightings::sightings_of(requester, responses)),
                rows,
            )
        },
{
}

/// A player occurs in the rows exactly where one of them is under a name of the player.
pub proof fn occurs_exactly(players: Map<Seq<char>, i32>, rows: Seq<HeadToHeadResult>, id: i32)
    ensures
        head_to_head::occurs(players, head_to_head::views_of(rows), id) <==> exists|i: int|
            0 <= i < rows.len() && players[(#[trigger] rows[i]).opponent_tag@] == id,
{
    let all = head_to_head::views_of(rows);
    if head_to_head::occurs(players, all, id) {
        let i = choose|i: int|
            0 <= i < all.len() && players[(#[trigger] all[i]).opponent_tag] == id;
        assert(players[rows[i].opponent_tag@] == id);
    }
    if exists|i: int| 0 <= i < rows.len() && players[(#[trigger] rows[i]).opponent_tag@] == id {
        let i = choose|i: int|
            0 <= i < rows.len() && players[(#[trigger] rows[i]).opponent_tag@] == id;
        assert(players[all[i].opponent_tag] == id);
    }
}

/// The name in the first row about a player.
proof fn lemma_first_tag(players: Map<Seq<char>, i32>, rows: Seq<HeadToHead>, id: i32, i: int)
    requires
        0 <= i < rows.len(),
        players[rows[i].opponent_tag] == id,
        forall|j: int| 0 <= j < i ==> players[(#[trigger] rows[j]).opponent_tag] != id,
    ensures
        head_to_head::first_tag(players, rows, id) == rows[i].opponent_tag,
    decreases rows.len(),
{
    if i > 0 {
        assert(players[rows[0].opponent_tag] != id);
        let rest = rows.drop_first();
        assert forall|j: int| 0 <= j < i - 1 implies players[(#[trigger] rest[j]).opponent_tag]
            != id by {
            assert(players[rows[j + 1].opponent_tag] != id);
        }
        lemma_first_tag(players, rest, id, i - 1);
    }
}

/// The record against a player is under the label of the player, and without a label under the
/// name of the player's first row, and its counts are the plain sums over the player's rows.
pub proof fn record_exactly(
    players: Map<Seq<char>, i32>,
    labels: Map<i32, Seq<char>>,
    rows: Seq<HeadToHeadResult>,
    i: int,
    id: i32,
)
    requires
        0 <= i < rows.len(),
        id == players[rows[i].opponent_tag@],
        forall|j: int| 0 <= j < i ==> players[(#[trigger] rows[j]).opponent_tag@] != id,
    ensures
        ({
            let record = head_to_head::record_against(
                players,
                labels,
                head_to_head::views_of(rows),
                id,
            );
            &&& labels.contains_key(id) ==> record.opponent_tag == labels[id]
            &&& !labels.contains_key(id) ==> record.opponent_tag == rows[i].opponent_tag@
            &&& record.tally.total_sets == rows.fold_left(
                0,
                |sum: int, row: HeadToHeadResult|
                    if players[row.opponent_tag@] == id {
                        sum + row.total_sets
                    } else {
                        sum
                    },
            )
            &&& record.tally.wins == rows.fold_left(
                0,
                |sum: int, row: HeadToHeadResult|
                    if players[row.opponent_tag@] == id {
                        sum + row.wins
                    } else {
                        sum
                    },
            )
            &&& record.tally.losses == rows.fold_left(
                0,
                |sum: int, row: HeadToHeadResult|
                    if players[row.opponent_tag@] == id {
                        sum + row.losses
                    } else {
                        sum
                    },
            )
        }),
{
    let all = head_to_head::views_of(rows);
    assert forall|j: int| 0 <= j < i implies players[(#[trigger] all[j]).opponent_tag] != id by {
        assert(players[rows[j].opponent_tag@] != id);
    }
    lemma_first_tag(players, all, id, i);
    counts_are_plain_sums(players, rows, id);
}

} // verus!
