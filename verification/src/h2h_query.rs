//! The requests to start.gg behind a head-to-head record: their texts, and how many sets each
//! of them asks for.
use serde_json::Value;
use vstd::prelude::*;

use crate::decimal;
use crate::head_to_head;
use crate::head_to_head::HeadToHeadResult;
use crate::json;
use crate::names;
use crate::sightings;

verus! {

/// How many sets one request asks for: start.gg answers at most 1000 objects, and a set takes
/// nine of them.
pub const SETS_PER_REQUEST: usize = 111;

/// What stands before the selections of a request.
pub const REQUEST_HEAD: &'static str = r#"
        fragment setFields on Set {
            slots {
                entrant {
                name
                participants {
                    player {
                    id
                    }
                }
                }
            }
        }
        query InProgressSet {
        "#;

/// What stands before the alias of a selection.
pub const BEFORE_ALIAS: &'static str = r#"
                    s"#;

/// What stands between the alias of a selection and the id of its set.
pub const BEFORE_ID: &'static str = r#": set(id: ""#;

/// What stands behind the id of a set.
pub const BEHIND_ID: &'static str = r#"") {
                        ...setFields
                    }"#;

/// The sets that the next request asks for.
pub open spec fn batch(set_ids: Seq<i32>) -> Seq<i32> {
    if set_ids.len() <= SETS_PER_REQUEST {
        set_ids
    } else {
        set_ids.take(SETS_PER_REQUEST as int)
    }
}

/// One selection of a request: a set under an alias.
pub open spec fn selection(alias: int, set_id: i32) -> Seq<char> {
    BEFORE_ALIAS@ + decimal::decimal(alias) + BEFORE_ID@ + decimal::decimal(set_id as int)
        + BEHIND_ID@
}

/// The selections of a request, with their indices as aliases.
pub open spec fn selections(set_ids: Seq<i32>) -> Seq<char>
    decreases set_ids.len(),
{
    if set_ids.len() == 0 {
        Seq::empty()
    } else {
        selections(set_ids.drop_last()) + selection(set_ids.len() - 1, set_ids.last())
    }
}

/// The text of a request for a batch of sets.
pub open spec fn request_text(set_ids: Seq<i32>) -> Seq<char> {
    REQUEST_HEAD@ + selections(batch(set_ids)) + seq!['}']
}

/// How many requests it takes to ask for one set against each of a number of opponents.
pub open spec fn requests_for(opponents: nat) -> nat {
    (opponents + SETS_PER_REQUEST - 1) as nat / SETS_PER_REQUEST as nat
}

/// The sets still to be asked for after a request: an answered batch is done, unless it was the
/// last one, and a failed one is still to be asked for.
pub open spec fn still_to_ask(set_ids: Seq<i32>, answered: bool) -> Seq<i32> {
    if answered && set_ids.len() > SETS_PER_REQUEST {
        set_ids.skip(SETS_PER_REQUEST as int)
    } else {
        set_ids
    }
}

/// How many requests it takes to ask for one set against each of a number of opponents.
pub fn num_of_requests(opponents: u64) -> (r: u64)
    ensures
        r == requests_for(opponents as nat),
{
    let size: u64 = SETS_PER_REQUEST as u64;
    let whole: u64 = opponents / size;
    if opponents % size == 0 {
        whole
    } else {
        whole + 1
    }
}

/// The text of the request for the next batch of sets.
pub fn build_request(set_ids: &Vec<i32>) -> (r: String)
    ensures
        r@ == request_text(set_ids@),
        r@ == REQUEST_HEAD@ + Seq::new(
                if set_ids@.len() <= SETS_PER_REQUEST {
                    set_ids@.len()
                } else {
                    SETS_PER_REQUEST as nat
                },
                |i: int|
                    BEFORE_ALIAS@ + decimal::decimal(i) + BEFORE_ID@ + decimal::decimal(
                        set_ids@[i] as int,
                    ) + BEHIND_ID@,
            ).flatten() + seq!['}'],
{
    proof {
        request_exactly(set_ids@);
    }
    let count: usize = if set_ids.len() <= SETS_PER_REQUEST {
        set_ids.len()
    } else {
        SETS_PER_REQUEST
    };
    let mut text: String = REQUEST_HEAD.to_owned();
    let mut i: usize = 0;
    let ghost asked = batch(set_ids@);
    assert(asked =~= set_ids@.take(count as int));
    while i < count
        invariant
            i <= count <= set_ids@.len(),
            count <= SETS_PER_REQUEST,
            asked == set_ids@.take(count as int),
            text@ =~= REQUEST_HEAD@ + selections(asked.take(i as int)),
        decreases count - i,
    {
        text.append(BEFORE_ALIAS);
        decimal::push_decimal(&mut text, i as i32);
        text.append(BEFORE_ID);
        decimal::push_decimal(&mut text, set_ids[i]);
        text.append(BEHIND_ID);
        proof {
            assert(asked.take(i + 1).drop_last() =~= asked.take(i as int));
            assert(asked.take(i + 1).last() == set_ids@[i as int]);
        }
        i += 1;
    }
    assert(asked.take(count as int) =~= asked);
    text.push('}');
    text
}

/// The names of all opponents in the rows of the database.
pub fn opponent_tags(results: &Vec<HeadToHeadResult>) -> (r: Vec<String>)
    ensures
        r@.len() == results@.len(),
        forall|i: int| 0 <= i < r@.len() ==> #[trigger] r@[i]@ == results@[i].opponent_tag@,
{
    let mut tags: Vec<String> = Vec::new();
    let mut i: usize = 0;
    while i < results.len()
        invariant
            i <= results@.len(),
            tags@.len() == i,
            forall|k: int| 0 <= k < i ==> #[trigger] tags@[k]@ == results@[k].opponent_tag@,
        decreases results@.len() - i,
    {
        tags.push(results[i].opponent_tag.clone());
        i += 1;
    }
    tags
}

/// What came of a request.
#[derive(Debug)]
pub enum Outcome {
    /// start.gg answered.
    Answered(Value),
    /// The request failed.
    Failed,
}

/// The collection of a head-to-head record: the rows of the database, the sets still to be asked
/// for, and what start.gg answered so far.
pub struct HeadToHeadSession {
    pub requester_id: i32,
    pub results: Vec<HeadToHeadResult>,
    pub set_ids: Vec<i32>,
    pub responses: Vec<Value>,
    pub requests_left: u64,
}

impl HeadToHeadSession {
    /// The answers so far and the requests left are the requests that the rows of the database
    /// take.
    pub open spec fn wf(&self) -> bool {
        self.responses@.len() + self.requests_left == requests_for(self.results@.len())
    }

    /// What a request does to a session: an answer is kept and takes one of the requests left; a
    /// failure changes nothing, so that the same request comes next.
    pub open spec fn steps_to(self, outcome: Outcome, next: HeadToHeadSession) -> bool {
        &&& next.requester_id == self.requester_id
        &&& next.results == self.results
        &&& next.requests_left == self.requests_left - (if outcome is Answered {
            1int
        } else {
            0int
        })
        &&& next.set_ids@ == still_to_ask(self.set_ids@, outcome is Answered)
        &&& next.responses@ == (match outcome {
            Outcome::Answered(response) => self.responses@.push(response),
            Outcome::Failed => self.responses@,
        })
    }

    /// The names of the players in the answers.
    pub open spec fn players(&self) -> Map<Seq<char>, i32> {
        names::players_by_name(
            sightings::sightings_of(self.requester_id, json::jsons_of(self.responses@)),
        )
    }

    /// The start: every request is still to be made.
    pub fn new(requester_id: i32, results: Vec<HeadToHeadResult>, set_ids: Vec<i32>) -> (r: Self)
        ensures
            r.wf(),
            r.requester_id == requester_id,
            r.results == results,
            r.set_ids == set_ids,
            r.responses@ == Seq::<Value>::empty(),
            r.requests_left == requests_for(results@.len()),
    {
        let requests_left: u64 = num_of_requests(results.len() as u64);
        HeadToHeadSession { requester_id, results, set_ids, responses: Vec::new(), requests_left }
    }

    /// The text of the next request; `None` exactly where no request is left.
    pub fn next_request(&self) -> (r: Option<String>)
        ensures
            match r {
                Some(text) => self.requests_left > 0 && text@ == request_text(self.set_ids@),
                None => self.requests_left == 0,
            },
    {
        if self.requests_left == 0 {
            None
        } else {
            Some(build_request(&self.set_ids))
        }
    }

    /// Takes note of what came of a request.
    pub fn record(&mut self, outcome: Outcome)
        requires
            outcome is Answered ==> old(self).requests_left > 0,
        ensures
            old(self).steps_to(outcome, *final(self)),
            old(self).wf() ==> final(self).wf(),
            final(self).requester_id == old(self).requester_id,
            final(self).results == old(self).results,
            outcome matches Outcome::Answered(response) ==> {
                &&& final(self).requests_left == old(self).requests_left - 1
                &&& final(self).responses@ == old(self).responses@.push(response)
                &&& final(self).set_ids@ == if old(self).set_ids@.len() > SETS_PER_REQUEST {
                    old(self).set_ids@.skip(SETS_PER_REQUEST as int)
                } else {
                    old(self).set_ids@
                }
            },
            outcome is Failed ==> {
                &&& final(self).requests_left == old(self).requests_left
                &&& final(self).responses@ == old(self).responses@
                &&& final(self).set_ids@ == old(self).set_ids@
            },
    {
        match outcome {
            Outcome::Answered(response) => {
                self.requests_left = self.requests_left - 1;
                self.responses.push(response);
                if self.set_ids.len() > SETS_PER_REQUEST {
                    self.set_ids = self.set_ids.split_off(SETS_PER_REQUEST);
                }
            },
            Outcome::Failed => {},
        }
    }

    /// The record, from what start.gg answered; `None` exactly where an answer lacks what has to
    /// be read, a row is under a name that no answer shows, or a sum leaves the 64-bit integers.
    pub fn finish(&self) -> (r: Option<Vec<HeadToHeadResult>>)
        ensures
            match r {
                Some(result) => {
                    &&& head_to_head::covers(
                        self.requester_id,
                        json::jsons_of(self.responses@),
                        head_to_head::views_of(self.results@),
                    )
                    &&& head_to_head::is_head_to_head_record(
                        head_to_head::views_of(result@),
                        self.players(),
                        head_to_head::views_of(self.results@),
                    )
                },
                None => !head_to_head::covers(
                    self.requester_id,
                    json::jsons_of(self.responses@),
                    head_to_head::views_of(self.results@),
                ),
            },
    {
        head_to_head::checked_sgg_h2h_response_to_results(
            self.requester_id,
            &self.responses,
            &self.results,
        )
    }
}

/// The sets still to be asked for after a number of answered requests.
pub open spec fn after_answers(set_ids: Seq<i32>, answers: nat) -> Seq<i32>
    decreases answers,
{
    if answers == 0 {
        set_ids
    } else {
        still_to_ask(after_answers(set_ids, (answers - 1) as nat), true)
    }
}

/// The sets still to be asked for after requests with given outcomes: answered or not.
pub open spec fn after_outcomes(set_ids: Seq<i32>, outcomes: Seq<bool>) -> Seq<i32>
    decreases outcomes.len(),
{
    if outcomes.len() == 0 {
        set_ids
    } else {
        still_to_ask(after_outcomes(set_ids, outcomes.drop_last()), outcomes.last())
    }
}

/// How many outcomes are answers.
pub open spec fn answers_in(outcomes: Seq<bool>) -> nat
    decreases outcomes.len(),
{
    if outcomes.len() == 0 {
        0
    } else {
        answers_in(outcomes.drop_last()) + if outcomes.last() {
            1nat
        } else {
            0nat
        }
    }
}

/// Answered requests take the batches one after another.
proof fn lemma_batches(set_ids: Seq<i32>, answers: nat)
    requires
        answers * SETS_PER_REQUEST < set_ids.len(),
    ensures
        after_answers(set_ids, answers) == set_ids.skip((answers * SETS_PER_REQUEST) as int),
    decreases answers,
{
    if answers == 0 {
        assert(set_ids.skip(0) =~= set_ids);
    } else {
        lemma_batches(set_ids, (answers - 1) as nat);
        assert(after_answers(set_ids, answers) =~= set_ids.skip(
            (answers * SETS_PER_REQUEST) as int,
        ));
    }
}

/// Failures change nothing about which sets are asked for next: only the answers count.
pub proof fn failures_change_nothing(set_ids: Seq<i32>, outcomes: Seq<bool>)
    ensures
        after_outcomes(set_ids, outcomes) == after_answers(set_ids, answers_in(outcomes)),
    decreases outcomes.len(),
{
    if outcomes.len() > 0 {
        failures_change_nothing(set_ids, outcomes.drop_last());
    }
}

/// Whatever failed before, a request asks for the stretch of the sets behind those answered for:
/// with as many sets as opponents every set is asked for in the requests of one stretch.
pub proof fn batches_partition(set_ids: Seq<i32>, outcomes: Seq<bool>)
    requires
        answers_in(outcomes) < requests_for(set_ids.len()),
    ensures
        batch(after_outcomes(set_ids, outcomes)) == set_ids.subrange(
            answers_in(outcomes) * SETS_PER_REQUEST,
            if (answers_in(outcomes) + 1) * SETS_PER_REQUEST <= set_ids.len() {
                (answers_in(outcomes) + 1) * SETS_PER_REQUEST
            } else {
                set_ids.len() as int
            },
        ),
{
    let answers = answers_in(outcomes);
    failures_change_nothing(set_ids, outcomes);
    lemma_batches(set_ids, answers);
    let start = answers * SETS_PER_REQUEST;
    let end = if start + SETS_PER_REQUEST <= set_ids.len() {
        start + SETS_PER_REQUEST
    } else {
        set_ids.len() as int
    };
    assert(batch(set_ids.skip(start)) =~= set_ids.subrange(start, end));
}

/// Each of the answers has its place among the outcomes.
proof fn lemma_answer_place(outcomes: Seq<bool>, answer: nat) -> (k: int)
    requires
        answer < answers_in(outcomes),
    ensures
        0 <= k < outcomes.len(),
        outcomes[k],
        answers_in(outcomes.take(k)) == answer,
    decreases outcomes.len(),
{
    let before = outcomes.drop_last();
    if answer < answers_in(before) {
        let k = lemma_answer_place(before, answer);
        assert(before.take(k) =~= outcomes.take(k));
        k
    } else {
        assert(outcomes.take(outcomes.len() - 1) =~= before);
        outcomes.len() - 1
    }
}

/// Every set is asked for: with no more sets than opponents, and whatever failed on the way, once
/// as many requests are answered as the opponents take, the set at each index stood in an
/// answered one.
pub proof fn every_set_asked(set_ids: Seq<i32>, opponents: nat, outcomes: Seq<bool>, i: int)
    requires
        set_ids.len() <= opponents,
        answers_in(outcomes) == requests_for(opponents),
        0 <= i < set_ids.len(),
    ensures
        exists|k: int|
            0 <= k < outcomes.len() && outcomes[k] && asks_for(
                #[trigger] after_outcomes(set_ids, outcomes.take(k)),
                set_ids,
                i,
            ),
{
    let answer = (i / SETS_PER_REQUEST as int) as nat;
    let k = lemma_answer_place(outcomes, answer);
    failures_change_nothing(set_ids, outcomes.take(k));
    lemma_batches(set_ids, answer);
    assert(asks_for(after_outcomes(set_ids, outcomes.take(k)), set_ids, i));
}

/// The request for the sets left asks for the set at an index of all sets.
pub open spec fn asks_for(left: Seq<i32>, set_ids: Seq<i32>, i: int) -> bool {
    &&& (i % SETS_PER_REQUEST as int) < batch(left).len()
    &&& batch(left)[i % SETS_PER_REQUEST as int] == set_ids[i]
}

/// The states of a session from its start, with the outcome of the request between each two.
pub open spec fn is_run(states: Seq<HeadToHeadSession>, outcomes: Seq<Outcome>) -> bool {
    &&& states.len() == outcomes.len() + 1
    &&& states[0].responses@.len() == 0
    &&& states[0].wf()
    &&& forall|k: int|
        0 <= k < outcomes.len() ==> (#[trigger] states[k]).steps_to(outcomes[k], states[k + 1])
}

/// Which outcomes are answers.
pub open spec fn answered(outcomes: Seq<Outcome>) -> Seq<bool> {
    Seq::new(outcomes.len(), |k: int| outcomes[k] is Answered)
}

/// Where a run stands after some of its requests.
proof fn lemma_run(states: Seq<HeadToHeadSession>, outcomes: Seq<Outcome>, k: int)
    requires
        is_run(states, outcomes),
        0 <= k <= outcomes.len(),
    ensures
        states[k].set_ids@ == after_outcomes(states[0].set_ids@, answered(outcomes).take(k)),
        states[k].requests_left == states[0].requests_left - answers_in(
            answered(outcomes).take(k),
        ),
        states[k].results == states[0].results,
        states[k].wf(),
    decreases k,
{
    let flags = answered(outcomes);
    if k > 0 {
        lemma_run(states, outcomes, k - 1);
        assert(states[k - 1].steps_to(outcomes[k - 1], states[k - 1 + 1]));
        assert(flags.take(k).drop_last() =~= flags.take(k - 1));
        assert(flags.take(k).last() == flags[k - 1]);
    }
}

/// A session that is done has asked for every set: with no more sets than opponents, and however
/// many requests failed on the way, each set stood in a request that was answered.
pub proof fn done_session_asked_all(
    states: Seq<HeadToHeadSession>,
    outcomes: Seq<Outcome>,
    i: int,
)
    requires
        is_run(states, outcomes),
        states.last().requests_left == 0,
        states[0].set_ids@.len() <= states[0].results@.len(),
        0 <= i < states[0].set_ids@.len(),
    ensures
        exists|k: int|
            0 <= k < outcomes.len() && outcomes[k] is Answered && asks_for(
                (#[trigger] states[k]).set_ids@,
                states[0].set_ids@,
                i,
            ),
{
    let flags = answered(outcomes);
    let set_ids = states[0].set_ids@;
    lemma_run(states, outcomes, outcomes.len() as int);
    assert(flags.take(outcomes.len() as int) =~= flags);
    every_set_asked(set_ids, states[0].results@.len(), flags, i);
    let k = choose|k: int|
        0 <= k < flags.len() && flags[k] && asks_for(
            #[trigger] after_outcomes(set_ids, flags.take(k)),
            set_ids,
            i,
        );
    lemma_run(states, outcomes, k);
    assert(asks_for(states[k].set_ids@, set_ids, i));
}

/// A session is done exactly when every request that the opponents take was answered.
pub proof fn done_when_all_answered(states: Seq<HeadToHeadSession>, outcomes: Seq<Outcome>)
    requires
        is_run(states, outcomes),
    ensures
        states.last().requests_left == 0 <==> states.last().responses@.len() == requests_for(
            states[0].results@.len(),
        ),
{
    lemma_run(states, outcomes, outcomes.len() as int);
}

/// A failed request is made again at once: the session still has a request left, and it is the
/// same one.
pub proof fn failure_is_retried(before: HeadToHeadSession, after: HeadToHeadSession)
    requires
        before.requests_left > 0,
        before.steps_to(Outcome::Failed, after),
    ensures
        after.requests_left > 0,
        request_text(after.set_ids@) == request_text(before.set_ids@),
{
}

/// No request asks for more objects than start.gg answers, and one more set would be too many.
pub proof fn within_object_limit(set_ids: Seq<i32>)
    ensures
        9 * batch(set_ids).len() <= 1000,
        9 * (SETS_PER_REQUEST + 1) > 1000,
{
}

/// The aliases of a request are distinct.
pub proof fn aliases_distinct(i: int, j: int)
    requires
        i != j,
    ensures
        decimal::decimal(i) != decimal::decimal(j),
{
    if decimal::decimal(i) == decimal::decimal(j) {
        decimal::decimal_injective(i, j);
    }
}

/// Without opponents no request is made, and otherwise as few as can ask for all of them.
pub proof fn fewest_requests(opponents: nat)
    ensures
        opponents <= requests_for(opponents) * SETS_PER_REQUEST,
        opponents == 0 ==> requests_for(opponents) == 0,
        opponents > 0 ==> (requests_for(opponents) - 1) * SETS_PER_REQUEST < opponents,
{
}

/// A batch is the first of the sets, as many as one request asks for.
pub proof fn batch_exactly(set_ids: Seq<i32>)
    ensures
        batch(set_ids).len() == if set_ids.len() <= 111 {
            set_ids.len()
        } else {
            111
        },
        forall|i: int| 0 <= i < batch(set_ids).len() ==> #[trigger] batch(set_ids)[i] == set_ids[i],
{
}

/// An answered batch is taken off the sets unless it is the last, and a failure takes nothing off.
pub proof fn asked_sets_taken_off(set_ids: Seq<i32>)
    ensures
        set_ids.len() > 111 ==> batch(set_ids) + still_to_ask(set_ids, true) == set_ids,
        set_ids.len() <= 111 ==> still_to_ask(set_ids, true) == set_ids,
        still_to_ask(set_ids, false) == set_ids,
{
    if set_ids.len() > 111 {
        assert(batch(set_ids) + still_to_ask(set_ids, true) =~= set_ids);
    }
}

/// A request changes a session only by its answer: the answer is kept behind the earlier ones,
/// takes one of the requests left and its batch off the sets unless that is the last.
pub proof fn step_exactly(before: HeadToHeadSession, outcome: Outcome, after: HeadToHeadSession)
    requires
        before.steps_to(outcome, after),
    ensures
        after.requester_id == before.requester_id,
        after.results == before.results,
        outcome matches Outcome::Answered(response) ==> {
            &&& after.requests_left == before.requests_left - 1
            &&& after.responses@ == before.responses@.push(response)
            &&& before.set_ids@.len() > 111 ==> after.set_ids@ == before.set_ids@.skip(111)
            &&& before.set_ids@.len() <= 111 ==> after.set_ids@ == before.set_ids@
        },
        outcome is Failed ==> {
            &&& after.requests_left == before.requests_left
            &&& after.responses@ == before.responses@
            &&& after.set_ids@ == before.set_ids@
        },
{
}

/// The players of a session are those that its answers show, behind the names in the answers.
pub proof fn session_players(session: HeadToHeadSession)
    ensures
        session.players() == names::players_by_name(
            sightings::sightings_of(session.requester_id, json::jsons_of(session.responses@)),
        ),
{
}

/// The answers among outcomes are the outcomes that are answers.
pub proof fn answers_exactly(outcomes: Seq<bool>)
    ensures
        answers_in(outcomes) == outcomes.filter(|answered: bool| answered).len(),
    decreases outcomes.len(),
{
    reveal(Seq::filter);
    if outcomes.len() > 0 {
        answers_exactly(outcomes.drop_last());
    }
}

/// The selections stand one behind another.
proof fn lemma_selections(set_ids: Seq<i32>)
    ensures
        selections(set_ids) == Seq::new(
            set_ids.len(),
            |i: int|
                BEFORE_ALIAS@ + decimal::decimal(i) + BEFORE_ID@ + decimal::decimal(
                    set_ids[i] as int,
                ) + BEHIND_ID@,
        ).flatten(),
    decreases set_ids.len(),
{
    let parts = Seq::new(
        set_ids.len(),
        |i: int|
            BEFORE_ALIAS@ + decimal::decimal(i) + BEFORE_ID@ + decimal::decimal(set_ids[i] as int)
                + BEHIND_ID@,
    );
    if set_ids.len() > 0 {
        let fewer = set_ids.drop_last();
        let before = Seq::new(
            fewer.len(),
            |i: int|
                BEFORE_ALIAS@ + decimal::decimal(i) + BEFORE_ID@ + decimal::decimal(
                    fewer[i] as int,
                ) + BEHIND_ID@,
        );
        lemma_selections(fewer);
        assert(parts =~= before.push(parts.last()));
        before.lemma_flatten_push(parts.last());
    }
    assert(selections(set_ids) =~= parts.flatten());
}

/// A request is its head, then for each set of the batch a selection under the alias `s` with the
/// index of the set, asking for the id of the set, and a closing brace.
pub proof fn request_exactly(set_ids: Seq<i32>)
    ensures
        request_text(set_ids) == REQUEST_HEAD@ + Seq::new(
                if set_ids.len() <= SETS_PER_REQUEST {
                    set_ids.len()
                } else {
                    SETS_PER_REQUEST as nat
                },
                |i: int|
                    BEFORE_ALIAS@ + decimal::decimal(i) + BEFORE_ID@ + decimal::decimal(
                        set_ids[i] as int,
                    ) + BEHIND_ID@,
            ).flatten() + seq!['}'],
{
    let parts = Seq::new(
                if set_ids.len() <= SETS_PER_REQUEST {
                    set_ids.len()
                } else {
                    SETS_PER_REQUEST as nat
                },
                |i: int|
                    BEFORE_ALIAS@ + decimal::decimal(i) + BEFORE_ID@ + decimal::decimal(
                        set_ids[i] as int,
                    ) + BEHIND_ID@,
            );
    let asked = batch(set_ids);
    lemma_selections(asked);
    assert(parts =~= Seq::new(
        asked.len(),
        |i: int|
            BEFORE_ALIAS@ + decimal::decimal(i) + BEFORE_ID@ + decimal::decimal(asked[i] as int)
                + BEHIND_ID@,
    ));
}

/// One more set puts one more selection before the closing brace, under the next alias; a full
/// request stays as it is.
pub proof fn request_grows(set_ids: Seq<i32>, set_id: i32)
    ensures
        set_ids.len() < 111 ==> request_text(set_ids.push(set_id)) == request_text(
            set_ids,
        ).drop_last() + BEFORE_ALIAS@ + decimal::decimal(set_ids.len() as int) + BEFORE_ID@
            + decimal::decimal(set_id as int) + BEHIND_ID@ + seq!['}'],
        set_ids.len() >= 111 ==> request_text(set_ids.push(set_id)) == request_text(set_ids),
        request_text(Seq::empty()) == REQUEST_HEAD@ + seq!['}'],
{
    let more = set_ids.push(set_id);
    if set_ids.len() < 111 {
        assert(batch(more) =~= more);
        assert(more.drop_last() =~= set_ids);
        assert(request_text(set_ids).drop_last() =~= REQUEST_HEAD@ + selections(set_ids));
        assert(request_text(more) =~= request_text(set_ids).drop_last() + BEFORE_ALIAS@
            + decimal::decimal(set_ids.len() as int) + BEFORE_ID@ + decimal::decimal(set_id as int)
            + BEHIND_ID@ + seq!['}']);
    } else {
        assert(batch(more) =~= batch(set_ids));
    }
    assert(batch(Seq::<i32>::empty()) =~= Seq::<i32>::empty());
    assert(request_text(Seq::empty()) =~= REQUEST_HEAD@ + seq!['}']);
}

/// The text before a selection is the start of the selections.
proof fn lemma_selections_start(set_ids: Seq<i32>, i: int)
    requires
        0 <= i <= set_ids.len(),
    ensures
        selections(set_ids.take(i)).is_prefix_of(selections(set_ids)),
    decreases set_ids.len(),
{
    if i == set_ids.len() {
        assert(set_ids.take(i) =~= set_ids);
    } else {
        let fewer = set_ids.drop_last();
        lemma_selections_start(fewer, i);
        assert(fewer.take(i) =~= set_ids.take(i));
        let start = selections(set_ids.take(i));
        assert(start =~= selections(set_ids).subrange(0, start.len() as int)) by {
            assert(start =~= selections(fewer).subrange(0, start.len() as int));
        }
    }
}

/// Where a selection stands in the text of a request.
proof fn lemma_selection_place(set_ids: Seq<i32>, i: int)
    requires
        0 <= i < set_ids.len(),
        i < 111,
    ensures
        ({
            let start = REQUEST_HEAD@.len() + selections(set_ids.take(i)).len();
            let part = BEFORE_ALIAS@ + decimal::decimal(i) + BEFORE_ID@ + decimal::decimal(
                set_ids[i] as int,
            ) + BEHIND_ID@;
            &&& start + part.len() == REQUEST_HEAD@.len() + selections(set_ids.take(i + 1)).len()
            &&& start + part.len() < request_text(set_ids).len()
            &&& request_text(set_ids).subrange(start as int, (start + part.len()) as int) == part
        }),
{
    let asked = batch(set_ids);
    let text = request_text(set_ids);
    let before = selections(set_ids.take(i));
    let upto = selections(set_ids.take(i + 1));
    let part = BEFORE_ALIAS@ + decimal::decimal(i) + BEFORE_ID@ + decimal::decimal(
        set_ids[i] as int,
    ) + BEHIND_ID@;
    assert(asked.take(i + 1) =~= set_ids.take(i + 1));
    assert(set_ids.take(i + 1).drop_last() =~= set_ids.take(i));
    assert(upto =~= before + part);
    lemma_selections_start(asked, i + 1);
    let start = REQUEST_HEAD@.len() + before.len();
    assert(upto =~= selections(asked).subrange(0, upto.len() as int));
    assert(text.subrange(start as int, (start + part.len()) as int) =~= part) by {
        assert forall|k: int| 0 <= k < part.len() implies text[start + k] == part[k] by {
            assert(text[start + k] == selections(asked)[before.len() + k]);
            assert(selections(asked)[before.len() + k] == upto[before.len() + k]);
        }
    }
}

/// What stands before a later selection is longer.
proof fn lemma_places_ordered(set_ids: Seq<i32>, i: int, j: int)
    requires
        0 <= i <= j <= set_ids.len(),
    ensures
        selections(set_ids.take(i)).len() <= selections(set_ids.take(j)).len(),
{
    lemma_selections_start(set_ids.take(j), i);
    assert(set_ids.take(j).take(i) =~= set_ids.take(i));
}

/// The aliases that stand in a request are distinct: any two sets of the batch stand in its text
/// one behind the other, each under the alias `s` with its own index, and the two aliases differ.
pub proof fn aliases_in_text_distinct(set_ids: Seq<i32>, i: int, j: int)
    requires
        0 <= i < j < set_ids.len(),
        j < 111,
    ensures
        exists|a: int, b: int, c: int, d: int|
            0 <= a <= b <= c <= d <= request_text(set_ids).len() && #[trigger] request_text(
                set_ids,
            ).subrange(a, b) == BEFORE_ALIAS@ + decimal::decimal(i) + BEFORE_ID@
                + decimal::decimal(set_ids[i] as int) + BEHIND_ID@ && #[trigger] request_text(
                set_ids,
            ).subrange(c, d) == BEFORE_ALIAS@ + decimal::decimal(j) + BEFORE_ID@
                + decimal::decimal(set_ids[j] as int) + BEHIND_ID@,
        BEFORE_ALIAS@ + decimal::decimal(i) != BEFORE_ALIAS@ + decimal::decimal(j),
{
    lemma_selection_place(set_ids, i);
    lemma_selection_place(set_ids, j);
    lemma_places_ordered(set_ids, i + 1, j);
    let text = request_text(set_ids);
    let a = REQUEST_HEAD@.len() + selections(set_ids.take(i)).len();
    let b = REQUEST_HEAD@.len() + selections(set_ids.take(i + 1)).len();
    let c = REQUEST_HEAD@.len() + selections(set_ids.take(j)).len();
    let d = REQUEST_HEAD@.len() + selections(set_ids.take(j + 1)).len();
    assert(text.subrange(a as int, b as int) == BEFORE_ALIAS@ + decimal::decimal(i) + BEFORE_ID@
        + decimal::decimal(set_ids[i] as int) + BEHIND_ID@);
    assert(text.subrange(c as int, d as int) == BEFORE_ALIAS@ + decimal::decimal(j) + BEFORE_ID@
        + decimal::decimal(set_ids[j] as int) + BEHIND_ID@);
    aliases_distinct(i, j);
    if BEFORE_ALIAS@ + decimal::decimal(i) == BEFORE_ALIAS@ + decimal::decimal(j) {
        let n = BEFORE_ALIAS@.len() as int;
        assert((BEFORE_ALIAS@ + decimal::decimal(i)).skip(n) =~= decimal::decimal(i));
        assert((BEFORE_ALIAS@ + decimal::decimal(j)).skip(n) =~= decimal::decimal(j));
    }
}

} // verus!
