//! The sets of a player as the database keeps them.
use vstd::prelude::*;

verus! {

/// A set of a player, the requester, against an opponent.
#[derive(Debug)]
pub struct PlayerSet {
    pub id: i32,
    pub requester_id: i32,
    pub event_id: i32,
    pub opponent_tag_with_prefix: String,
    pub requester_score: i32,
    pub opponent_score: i32,
    pub result_type: i32,
    pub completed_at: i64,
}

/// How a set ended for the requester.
#[derive(Debug, Clone, Copy, PartialEq, Eq, Structural)]
pub enum SetOutcome {
    /// Won by playing.
    Win,
    /// Lost by playing.
    Loss,
    /// Won because the opponent was disqualified.
    WinByDq,
    /// Lost because the requester was disqualified.
    LossByDq,
}

impl SetOutcome {
    /// The number that stands for an outcome in the database.
    pub open spec fn code(self) -> int {
        match self {
            SetOutcome::Win => 2,
            SetOutcome::Loss => -2,
            SetOutcome::WinByDq => 1,
            SetOutcome::LossByDq => -1,
        }
    }

    /// The number that stands for an outcome in the database.
    pub fn result_type(self) -> (r: i32)
        ensures
            r == self.code(),
            self is Win ==> r == 2,
            self is Loss ==> r == -2,
            self is WinByDq ==> r == 1,
            self is LossByDq ==> r == -1,
    {
        match self {
            SetOutcome::Win => 2,
            SetOutcome::Loss => -2,
            SetOutcome::WinByDq => 1,
            SetOutcome::LossByDq => -1,
        }
    }
}

/// The time from which new sets are to be asked for: two past the completion of the last set in
/// the cache, and none where the cache is empty.
pub open spec fn is_last_completed_at(cache: Seq<PlayerSet>, time: Option<i64>) -> bool {
    match time {
        Some(t) => {
            &&& exists|i: int| 0 <= i < cache.len() && t == (#[trigger] cache[i]).completed_at + 2
            &&& forall|i: int|
                0 <= i < cache.len() ==> (#[trigger] cache[i]).completed_at + 2 <= t
        },
        None => cache.len() == 0,
    }
}

/// The time from which new sets are to be asked for.
pub fn get_last_completed_at(cache: Vec<PlayerSet>) -> (r: Option<i64>)
    requires
        forall|i: int|
            0 <= i < cache@.len() ==> (#[trigger] cache@[i]).completed_at + 2 <= i64::MAX,
    ensures
        is_last_completed_at(cache@, r),
        r is None <==> cache@.len() == 0,
        r matches Some(t) ==> {
            &&& exists|i: int|
                0 <= i < cache@.len() && (#[trigger] cache@[i]).completed_at == t - 2
            &&& forall|i: int|
                0 <= i < cache@.len() ==> (#[trigger] cache@[i]).completed_at <= t - 2
        },
{
    if cache.is_empty() {
        return None;
    }
    let mut last: i64 = cache[0].completed_at;
    let mut i: usize = 1;
    while i < cache.len()
        invariant
            1 <= i <= cache@.len(),
            exists|k: int| 0 <= k < i && last == (#[trigger] cache@[k]).completed_at,
            forall|k: int| 0 <= k < i ==> (#[trigger] cache@[k]).completed_at <= last,
        decreases cache@.len() - i,
    {
        if cache[i].completed_at >= last {
            last = cache[i].completed_at;
        }
        i += 1;
    }
    Some(last + 2)
}

/// There is one such time for a cache.
pub proof fn last_completed_at_unique(cache: Seq<PlayerSet>, a: Option<i64>, b: Option<i64>)
    requires
        is_last_completed_at(cache, a),
        is_last_completed_at(cache, b),
    ensures
        a == b,
{
}

/// The time lies behind every set in the cache: none of them is asked for again.
pub proof fn cached_sets_left_out(cache: Seq<PlayerSet>, time: Option<i64>, i: int)
    requires
        is_last_completed_at(cache, time),
        0 <= i < cache.len(),
    ensures
        time is Some,
        cache[i].completed_at < time->0,
{
}

/// A cache that grows never moves the time back, and the order of its sets does not matter.
pub proof fn last_completed_at_monotone(
    cache: Seq<PlayerSet>,
    larger: Seq<PlayerSet>,
    before: Option<i64>,
    after: Option<i64>,
)
    requires
        is_last_completed_at(cache, before),
        is_last_completed_at(larger, after),
        forall|i: int| 0 <= i < cache.len() ==> larger.contains(#[trigger] cache[i]),
    ensures
        before is Some ==> after is Some && before->0 <= after->0,
        (forall|i: int| 0 <= i < larger.len() ==> cache.contains(#[trigger] larger[i])) ==> before
            == after,
{
    if before is Some {
        let i = choose|i: int|
            0 <= i < cache.len() && before->0 == (#[trigger] cache[i]).completed_at + 2;
        let k = choose|k: int| 0 <= k < larger.len() && larger[k] == cache[i];
        assert(larger[k].completed_at + 2 == before->0);
    }
    if forall|i: int| 0 <= i < larger.len() ==> cache.contains(#[trigger] larger[i]) {
        if after is Some {
            let i = choose|i: int|
                0 <= i < larger.len() && after->0 == (#[trigger] larger[i]).completed_at + 2;
            let k = choose|k: int| 0 <= k < cache.len() && cache[k] == larger[i];
            assert(cache[k].completed_at + 2 == after->0);
        }
    }
}

/// Different outcomes have different numbers.
pub proof fn codes_distinct(a: SetOutcome, b: SetOutcome)
    requires
        a.code() == b.code(),
    ensures
        a == b,
{
}

/// Sets that were played lie beyond those decided by a disqualification, wins on one side and
/// losses on the other.
pub proof fn played_codes(outcome: SetOutcome)
    ensures
        outcome.code() > 1 <==> outcome is Win,
        outcome.code() < -1 <==> outcome is Loss,
{
}

/// The time is two past the largest completion time in the cache, whatever else the sets hold.
pub proof fn last_completed_at_exactly(cache: Seq<PlayerSet>, t: i64)
    ensures
        is_last_completed_at(cache, Some(t)) <==> {
            let times = cache.map_values(|set: PlayerSet| set.completed_at as int);
            &&& times.contains(t - 2)
            &&& forall|i: int| 0 <= i < times.len() ==> #[trigger] times[i] <= t - 2
        },
        is_last_completed_at(cache, None) <==> cache.len() == 0,
{
    let times = cache.map_values(|set: PlayerSet| set.completed_at as int);
    assert forall|i: int| 0 <= i < cache.len() implies #[trigger] times[i]
        == cache[i].completed_at by {}
    if is_last_completed_at(cache, Some(t)) {
        let i = choose|i: int|
            0 <= i < cache.len() && t == (#[trigger] cache[i]).completed_at + 2;
        assert(times[i] == t - 2);
    }
    if times.contains(t - 2) && (forall|i: int| 0 <= i < times.len() ==> #[trigger] times[i] <= t
        - 2) {
        let i = choose|i: int| 0 <= i < times.len() && times[i] == t - 2;
        assert(t == cache[i].completed_at + 2);
        assert forall|k: int| 0 <= k < cache.len() implies (#[trigger] cache[k]).completed_at + 2
            <= t by {
            assert(times[k] <= t - 2);
        }
    }
}

/// One more set moves the time to two past its own completion where it is the latest, and leaves
/// the time otherwise.
pub proof fn one_more_set(
    cache: Seq<PlayerSet>,
    set: PlayerSet,
    before: Option<i64>,
    after: Option<i64>,
)
    requires
        is_last_completed_at(cache, before),
        is_last_completed_at(cache.push(set), after),
    ensures
        after is Some,
        before is None ==> after->0 == set.completed_at + 2,
        before is Some && set.completed_at + 2 > before->0 ==> after->0 == set.completed_at + 2,
        before is Some && set.completed_at + 2 <= before->0 ==> after == before,
{
    let more = cache.push(set);
    assert(more[cache.len() as int] == set);
    let k = choose|k: int| 0 <= k < more.len() && after->0 == (#[trigger] more[k]).completed_at + 2;
    if before is Some {
        let i = choose|i: int|
            0 <= i < cache.len() && before->0 == (#[trigger] cache[i]).completed_at + 2;
        assert(more[i] == cache[i]);
    }
    if k < cache.len() {
        assert(cache[k] == more[k]);
    }
}

/// The numbers of the outcomes.
pub proof fn codes_of_outcomes(outcome: SetOutcome)
    ensures
        outcome is Win <==> outcome.code() == 2,
        outcome is Loss <==> outcome.code() == -2,
        outcome is WinByDq <==> outcome.code() == 1,
        outcome is LossByDq <==> outcome.code() == -1,
{
}

} // verus!
