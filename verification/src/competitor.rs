//! How far a player usually gets in an event.
use vstd::prelude::*;

verus! {

/// One event of a player: the event, the sets won and the sets lost, without those decided by a
/// disqualification.
pub type EventRow = (i32, i64, i64);

/// The events in which a set was won or lost, with counts of 32 bits.
pub open spec fn played_in(rows: Seq<EventRow>) -> Seq<(i32, u32, u32)>
    decreases rows.len(),
{
    if rows.len() == 0 {
        Seq::empty()
    } else {
        let before = played_in(rows.drop_last());
        let wins = rows.last().1 as u32;
        let losses = rows.last().2 as u32;
        if wins != 0 || losses != 0 {
            before.push((rows.last().0, wins, losses))
        } else {
            before
        }
    }
}

/// The sets won in all events.
pub open spec fn wins_in(events: Seq<(i32, u32, u32)>) -> nat
    decreases events.len(),
{
    if events.len() == 0 {
        0
    } else {
        wins_in(events.drop_last()) + events.last().1 as nat
    }
}

/// The sets lost in all events.
pub open spec fn losses_in(events: Seq<(i32, u32, u32)>) -> nat
    decreases events.len(),
{
    if events.len() == 0 {
        0
    } else {
        losses_in(events.drop_last()) + events.last().2 as nat
    }
}

/// The sets won and lost, and the number of events that they were played in.
#[derive(Debug, Clone, Copy, PartialEq, Eq, Structural)]
pub struct CompetitorTotals {
    pub wins: u32,
    pub losses: u32,
    pub events: usize,
}

/// The sums of the wins and of the losses are 32-bit integers.
pub open spec fn totals_fit(rows: Seq<EventRow>) -> bool {
    wins_in(played_in(rows)) <= u32::MAX && losses_in(played_in(rows)) <= u32::MAX
}

/// The totals of the events in which a set was won or lost.
pub open spec fn are_totals_of(totals: CompetitorTotals, rows: Seq<EventRow>) -> bool {
    &&& totals.wins == wins_in(played_in(rows))
    &&& totals.losses == losses_in(played_in(rows))
    &&& totals.events == played_in(rows).len()
}

/// The events in which a set was won or lost; the counts are taken as 32-bit integers.
pub fn played_events(rows: &Vec<EventRow>) -> (r: Vec<(i32, u32, u32)>)
    ensures
        r@ == played_in(rows@),
        r@ == rows@.filter_map(
            |row: EventRow|
                if row.1 as u32 != 0 || row.2 as u32 != 0 {
                    Some((row.0, row.1 as u32, row.2 as u32))
                } else {
                    None
                },
        ),
{
    let mut played: Vec<(i32, u32, u32)> = Vec::new();
    let mut i: usize = 0;
    while i < rows.len()
        invariant
            i <= rows@.len(),
            played@ == played_in(rows@.take(i as int)),
        decreases rows@.len() - i,
    {
        let (event_id, win_count, loss_count) = rows[i];
        let wins: u32 = #[verifier::truncate] (win_count as u32);
        let losses: u32 = #[verifier::truncate] (loss_count as u32);
        assert(rows@.take(i + 1).drop_last() =~= rows@.take(i as int));
        if wins != 0 || losses != 0 {
            played.push((event_id, wins, losses));
        }
        i += 1;
    }
    assert(rows@.take(rows@.len() as int) =~= rows@);
    proof {
        played_events_kept(rows@);
    }
    played
}

/// Sums over fewer events are no larger.
proof fn lemma_sums_grow(events: Seq<(i32, u32, u32)>, n: int)
    requires
        0 <= n <= events.len(),
    ensures
        wins_in(events.take(n)) <= wins_in(events),
        losses_in(events.take(n)) <= losses_in(events),
    decreases events.len(),
{
    if n == events.len() {
        assert(events.take(n) =~= events);
    } else {
        lemma_sums_grow(events.drop_last(), n);
        assert(events.drop_last().take(n) =~= events.take(n));
    }
}

/// The totals of the events in which a set was won or lost; `None` exactly where a sum is no
/// 32-bit integer.
pub fn checked_competitor_totals(rows: &Vec<EventRow>) -> (r: Option<CompetitorTotals>)
    ensures
        match r {
            Some(totals) => totals_fit(rows@) && are_totals_of(totals, rows@),
            None => !totals_fit(rows@),
        },
        r matches Some(totals) ==> {
            &&& totals.wins == rows@.fold_left(0, |sum: int, row: EventRow| sum + row.1 as u32)
            &&& totals.losses == rows@.fold_left(0, |sum: int, row: EventRow| sum + row.2 as u32)
            &&& totals.events == rows@.filter(
                |row: EventRow| row.1 as u32 != 0 || row.2 as u32 != 0,
            ).len()
        },
{
    let played: Vec<(i32, u32, u32)> = played_events(rows);
    let mut wins: u32 = 0;
    let mut losses: u32 = 0;
    let mut i: usize = 0;
    while i < played.len()
        invariant
            i <= played@.len(),
            played@ == played_in(rows@),
            wins == wins_in(played@.take(i as int)),
            losses == losses_in(played@.take(i as int)),
        decreases played@.len() - i,
    {
        proof {
            assert(played@.take(i + 1).drop_last() =~= played@.take(i as int));
            lemma_sums_grow(played@, i + 1);
        }
        wins = match wins.checked_add(played[i].1) {
            Some(sum) => sum,
            None => return None,
        };
        losses = match losses.checked_add(played[i].2) {
            Some(sum) => sum,
            None => return None,
        };
        i += 1;
    }
    assert(played@.take(played@.len() as int) =~= played@);
    proof {
        sums_are_plain(rows@);
        lemma_played_count(rows@);
    }
    Some(CompetitorTotals { wins, losses, events: played.len() })
}

/// The totals of the events in which a set was won or lost.
pub fn competitor_totals(rows: &Vec<EventRow>) -> (r: CompetitorTotals)
    requires
        totals_fit(rows@),
    ensures
        are_totals_of(r, rows@),
        r.wins == rows@.fold_left(0, |sum: int, row: EventRow| sum + row.1 as u32),
        r.losses == rows@.fold_left(0, |sum: int, row: EventRow| sum + row.2 as u32),
        r.events == rows@.filter(|row: EventRow| row.1 as u32 != 0 || row.2 as u32 != 0).len(),
{
    checked_competitor_totals(rows).unwrap()
}

/// Every event with counts of 32 bits.
pub open spec fn all_events(rows: Seq<EventRow>) -> Seq<(i32, u32, u32)> {
    Seq::new(rows.len(), |i: int| (rows[i].0, rows[i].1 as u32, rows[i].2 as u32))
}

/// Leaving out the events without a set changes neither sum, and there are no more events left
/// than there were.
pub proof fn unplayed_events_add_nothing(rows: Seq<EventRow>)
    ensures
        wins_in(played_in(rows)) == wins_in(all_events(rows)),
        losses_in(played_in(rows)) == losses_in(all_events(rows)),
        played_in(rows).len() <= rows.len(),
    decreases rows.len(),
{
    if rows.len() > 0 {
        unplayed_events_add_nothing(rows.drop_last());
        assert(all_events(rows).drop_last() =~= all_events(rows.drop_last()));
        let row = (rows.last().0, rows.last().1 as u32, rows.last().2 as u32);
        assert(all_events(rows).last() == row);
        let before = played_in(rows.drop_last());
        assert(before.push(row).drop_last() =~= before);
    }
}

/// In every event left a set was won or lost, so there are no more of them than sets.
pub proof fn played_events_count(rows: Seq<EventRow>)
    ensures
        forall|i: int|
            0 <= i < played_in(rows).len() ==> (#[trigger] played_in(rows)[i]).1 != 0 || played_in(
                rows,
            )[i].2 != 0,
        played_in(rows).len() <= wins_in(played_in(rows)) + losses_in(played_in(rows)),
    decreases rows.len(),
{
    if rows.len() > 0 {
        played_events_count(rows.drop_last());
        let row = (rows.last().0, rows.last().1 as u32, rows.last().2 as u32);
        let before = played_in(rows.drop_last());
        assert(before.push(row).drop_last() =~= before);
    }
}

/// The events left are those in which a count is not zero once it is cut to 32 bits, in their
/// order, each with its own counts.
pub proof fn played_events_kept(rows: Seq<EventRow>)
    ensures
        played_in(rows) == rows.filter_map(
            |row: EventRow|
                if row.1 as u32 != 0 || row.2 as u32 != 0 {
                    Some((row.0, row.1 as u32, row.2 as u32))
                } else {
                    None
                },
        ),
    decreases rows.len(),
{
    if rows.len() > 0 {
        played_events_kept(rows.drop_last());
    }
    assert(played_in(rows) =~= rows.filter_map(
        |row: EventRow|
            if row.1 as u32 != 0 || row.2 as u32 != 0 {
                Some((row.0, row.1 as u32, row.2 as u32))
            } else {
                None
            },
    ));
}

/// The sums over events are plain sums: of the first count for the wins, of the second for the
/// losses, whatever the other count is.
pub proof fn event_sums_are_plain(events: Seq<(i32, u32, u32)>)
    ensures
        wins_in(events) == events.fold_left(0, |sum: int, event: (i32, u32, u32)| sum + event.1),
        losses_in(events) == events.fold_left(0, |sum: int, event: (i32, u32, u32)| sum + event.2),
    decreases events.len(),
{
    if events.len() > 0 {
        event_sums_are_plain(events.drop_last());
    }
}

/// The totals are plain sums over all rows: of the win counts, and of the loss counts, each cut
/// to 32 bits.
pub proof fn sums_are_plain(rows: Seq<EventRow>)
    ensures
        wins_in(played_in(rows)) == rows.fold_left(
            0,
            |sum: int, row: EventRow| sum + row.1 as u32,
        ),
        losses_in(played_in(rows)) == rows.fold_left(
            0,
            |sum: int, row: EventRow| sum + row.2 as u32,
        ),
    decreases rows.len(),
{
    if rows.len() > 0 {
        sums_are_plain(rows.drop_last());
        let row = (rows.last().0, rows.last().1 as u32, rows.last().2 as u32);
        let before = played_in(rows.drop_last());
        assert(before.push(row).drop_last() =~= before);
    }
}

/// One more event adds its wins to the wins and its losses to the losses, and counts as an event
/// where it has any.
pub proof fn one_more_event(
    rows: Seq<EventRow>,
    row: EventRow,
    before: CompetitorTotals,
    after: CompetitorTotals,
)
    requires
        are_totals_of(before, rows),
        are_totals_of(after, rows.push(row)),
    ensures
        after.wins == before.wins + row.1 as u32,
        after.losses == before.losses + row.2 as u32,
        after.events == before.events + (if row.1 as u32 == 0 && row.2 as u32 == 0 {
            0int
        } else {
            1int
        }),
{
    let more = rows.push(row);
    assert(more.drop_last() =~= rows);
    sums_are_plain(rows);
    sums_are_plain(more);
}

/// The totals of no event are zero, and the totals of events in one order are their totals in
/// every other.
pub proof fn event_order_irrelevant(
    rows: Seq<EventRow>,
    other: Seq<EventRow>,
    a: CompetitorTotals,
    b: CompetitorTotals,
)
    requires
        rows.to_multiset() == other.to_multiset(),
        are_totals_of(a, rows),
        are_totals_of(b, other),
    ensures
        a == b,
        rows.len() == 0 ==> a.wins == 0 && a.losses == 0 && a.events == 0,
{
    lemma_reordered(rows, other);
}

/// The sums and the number of events do not depend on the order.
proof fn lemma_reordered(rows: Seq<EventRow>, other: Seq<EventRow>)
    requires
        rows.to_multiset() == other.to_multiset(),
    ensures
        wins_in(played_in(rows)) == wins_in(played_in(other)),
        losses_in(played_in(rows)) == losses_in(played_in(other)),
        played_in(rows).len() == played_in(other).len(),
    decreases rows.len(),
{
    vstd::seq_lib::to_multiset_len(rows);
    vstd::seq_lib::to_multiset_len(other);
    if rows.len() > 0 {
        let last = rows.len() - 1;
        vstd::seq_lib::to_multiset_contains(rows, rows[last]);
        vstd::seq_lib::to_multiset_contains(other, rows[last]);
        let k = choose|k: int| 0 <= k < other.len() && other[k] == rows[last];
        vstd::seq_lib::to_multiset_remove(rows, last);
        vstd::seq_lib::to_multiset_remove(other, k);
        lemma_reordered(rows.remove(last), other.remove(k));
        lemma_without(rows, last);
        lemma_without(other, k);
    }
}

/// An event adds its counts from wherever it stands.
proof fn lemma_without(rows: Seq<EventRow>, k: int)
    requires
        0 <= k < rows.len(),
    ensures
        wins_in(played_in(rows)) == wins_in(played_in(rows.remove(k))) + rows[k].1 as u32,
        losses_in(played_in(rows)) == losses_in(played_in(rows.remove(k))) + rows[k].2 as u32,
        played_in(rows).len() == played_in(rows.remove(k)).len() + (if rows[k].1 as u32 == 0
            && rows[k].2 as u32 == 0 {
            0int
        } else {
            1int
        }),
    decreases rows.len(),
{
    let row = (rows.last().0, rows.last().1 as u32, rows.last().2 as u32);
    let before = played_in(rows.drop_last());
    assert(before.push(row).drop_last() =~= before);
    if k == rows.len() - 1 {
        assert(rows.remove(k) =~= rows.drop_last());
    } else {
        let fewer = rows.remove(k);
        lemma_without(rows.drop_last(), k);
        assert(fewer.drop_last() =~= rows.drop_last().remove(k));
        assert(fewer.last() == rows.last());
        let less = played_in(fewer.drop_last());
        assert(less.push(row).drop_last() =~= less);
    }
}

/// The totals fit exactly where both plain sums are 32-bit integers.
pub proof fn totals_fit_exactly(rows: Seq<EventRow>)
    ensures
        totals_fit(rows) <==> {
            &&& rows.fold_left(0, |sum: int, row: EventRow| sum + row.1 as u32) <= u32::MAX
            &&& rows.fold_left(0, |sum: int, row: EventRow| sum + row.2 as u32) <= u32::MAX
        },
{
    sums_are_plain(rows);
}

/// Totals hold the plain sums and the number of events left.
pub proof fn totals_exactly(totals: CompetitorTotals, rows: Seq<EventRow>)
    ensures
        are_totals_of(totals, rows) <==> {
            &&& totals.wins == rows.fold_left(0, |sum: int, row: EventRow| sum + row.1 as u32)
            &&& totals.losses == rows.fold_left(0, |sum: int, row: EventRow| sum + row.2 as u32)
            &&& totals.events == rows.filter(
                |row: EventRow| row.1 as u32 != 0 || row.2 as u32 != 0,
            ).len()
        },
{
    sums_are_plain(rows);
    lemma_played_count(rows);
}

/// How many events are left.
proof fn lemma_played_count(rows: Seq<EventRow>)
    ensures
        played_in(rows).len() == rows.filter(
            |row: EventRow| row.1 as u32 != 0 || row.2 as u32 != 0,
        ).len(),
    decreases rows.len(),
{
    reveal(Seq::filter);
    if rows.len() > 0 {
        lemma_played_count(rows.drop_last());
    }
}

} // verus!
