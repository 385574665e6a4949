use serde_json::Value;
use smithe_lib::decimal::push_decimal;
use smithe_lib::h2h_query::{
    build_request, num_of_requests, opponent_tags, HeadToHeadSession, Outcome, SETS_PER_REQUEST,
};
use smithe_lib::head_to_head::HeadToHeadResult;

const HEAD: &str = "
        fragment setFields on Set {
            slots {
                entrant {
                name
                participants {
                    player {
                    id
                    }
                }
                }
            }
        }
        query InProgressSet {
        ";

fn expected(set_ids: &[i32]) -> String {
    let mut text = String::from(HEAD);
    for (alias, set_id) in set_ids.iter().enumerate() {
        text.push_str(&format!(
            r#"
                    s{}: set(id: "{}") {{
                        ...setFields
                    }}"#,
            alias, set_id
        ));
    }
    text.push('}');
    text
}

fn row(tag: &str) -> HeadToHeadResult {
    HeadToHeadResult { opponent_tag: tag.to_string(), total_sets: 1, wins: 1, losses: 0 }
}

fn rows(n: usize) -> Vec<HeadToHeadResult> {
    (0..n).map(|i| row(&format!("tag{}", i))).collect()
}

fn ids(n: i32) -> Vec<i32> {
    (0..n).map(|i| 1000 + i).collect()
}

fn empty_answer() -> Outcome {
    Outcome::Answered(serde_json::from_str("{}").unwrap())
}

#[test]
fn integers_in_decimal() {
    for n in [0, 1, 9, 10, 99, 100, 110, 65536, i32::MAX, -1, -10, i32::MIN] {
        let mut text = String::from("s");
        push_decimal(&mut text, n);
        assert_eq!(text, format!("s{}", n));
    }
}

#[test]
fn text_of_a_request() {
    assert_eq!(build_request(&vec![]), expected(&[]));
    assert_eq!(build_request(&vec![61847301]), expected(&[61847301]));
    assert_eq!(build_request(&vec![7, -3, i32::MAX]), expected(&[7, -3, i32::MAX]));
    assert!(build_request(&vec![5]).contains("s0: set(id: \"5\") {"));
}

#[test]
fn a_request_asks_for_a_batch_only() {
    let all = ids(300);
    assert_eq!(SETS_PER_REQUEST, 111);
    assert_eq!(build_request(&all), expected(&all[..111]));
    assert_eq!(build_request(&ids(111)), expected(&ids(111)));
    assert_eq!(build_request(&ids(112)), expected(&ids(111)));
}

#[test]
fn aliases_of_a_request_are_distinct() {
    let text = build_request(&ids(111));
    for alias in 0..111 {
        assert_eq!(text.matches(&format!("s{}: set(", alias)).count(), 1);
    }
    assert!(!text.contains("s111: set("));
}

#[test]
fn number_of_requests() {
    assert_eq!(num_of_requests(0), 0);
    assert_eq!(num_of_requests(1), 1);
    assert_eq!(num_of_requests(111), 1);
    assert_eq!(num_of_requests(112), 2);
    assert_eq!(num_of_requests(222), 2);
    assert_eq!(num_of_requests(223), 3);
    assert_eq!(num_of_requests(u64::MAX), u64::MAX.div_ceil(111));
}

#[test]
fn tags_of_all_opponents() {
    assert_eq!(opponent_tags(&vec![row("a"), row("T | b")]), vec!["a", "T | b"]);
    assert!(opponent_tags(&vec![]).is_empty());
}

#[test]
fn every_set_is_asked_for_once() {
    let all = ids(250);
    let mut session = HeadToHeadSession::new(1, rows(250), all.clone());
    let mut texts = vec![];
    while let Some(text) = session.next_request() {
        texts.push(text);
        session.record(empty_answer());
    }
    assert_eq!(
        texts,
        vec![expected(&all[..111]), expected(&all[111..222]), expected(&all[222..])]
    );
    assert_eq!(session.responses.len(), 3);
}

#[test]
fn a_whole_number_of_batches() {
    let all = ids(222);
    let mut session = HeadToHeadSession::new(1, rows(222), all.clone());
    assert_eq!(session.next_request(), Some(expected(&all[..111])));
    session.record(empty_answer());
    assert_eq!(session.next_request(), Some(expected(&all[111..])));
    session.record(empty_answer());
    assert_eq!(session.next_request(), None);
    assert_eq!(session.set_ids, all[111..].to_vec());
}

#[test]
fn a_failed_request_is_made_again() {
    let all = ids(150);
    let mut session = HeadToHeadSession::new(1, rows(150), all.clone());
    assert_eq!(session.next_request(), Some(expected(&all[..111])));
    session.record(Outcome::Failed);
    assert_eq!(session.next_request(), Some(expected(&all[..111])));
    session.record(empty_answer());
    assert_eq!(session.next_request(), Some(expected(&all[111..])));
    session.record(Outcome::Failed);
    session.record(Outcome::Failed);
    assert_eq!(session.next_request(), Some(expected(&all[111..])));
    assert_eq!(session.requests_left, 1);
    session.record(empty_answer());
    assert_eq!(session.next_request(), None);
    assert_eq!(session.responses.len(), 2);
}

#[test]
fn the_only_request_is_made_again_after_a_failure() {
    for opponents in [1, 111] {
        let all = ids(opponents);
        let mut session = HeadToHeadSession::new(1, rows(opponents as usize), all.clone());
        assert_eq!(session.next_request(), Some(expected(&all)));
        session.record(Outcome::Failed);
        assert_eq!(session.next_request(), Some(expected(&all)));
        assert!(session.responses.is_empty());
        session.record(empty_answer());
        assert_eq!(session.next_request(), None);
    }
}

#[test]
fn no_request_without_opponents() {
    let session = HeadToHeadSession::new(1, vec![], vec![]);
    assert_eq!(session.next_request(), None);
    assert_eq!(session.finish().unwrap().len(), 0);
}

#[test]
fn a_session_from_start_to_finish() {
    let mut session = HeadToHeadSession::new(1, rows(1), vec![77]);
    assert_eq!(session.next_request(), Some(expected(&[77])));
    session.record(Outcome::Failed);
    assert_eq!(session.next_request(), Some(expected(&[77])));
    let answer: Value = serde_json::from_str(
        r#"{"s0": {"slots": [
            {"entrant": {"name": "me", "participants": [{"player": {"id": 1}}]}},
            {"entrant": {"name": "tag0", "participants": [{"player": {"id": 2}}]}}
        ]}}"#,
    )
    .unwrap();
    session.record(Outcome::Answered(answer));
    assert_eq!(session.next_request(), None);
    let result = session.finish().unwrap();
    assert_eq!(result.len(), 1);
    assert_eq!(result[0].opponent_tag, "tag0");
    assert_eq!(result[0].total_sets, 1);
}

#[test]
fn a_session_without_the_answers_it_needs() {
    let mut session = HeadToHeadSession::new(1, rows(1), vec![77]);
    session.record(Outcome::Failed);
    assert_eq!(session.next_request(), Some(expected(&[77])));
    assert!(session.finish().is_none());
    session.record(empty_answer());
    assert_eq!(session.next_request(), None);
    assert!(session.finish().is_none());
}

#[test]
fn requests_stay_within_the_object_limit() {
    assert!(9 * SETS_PER_REQUEST <= 1000);
    assert!(9 * (SETS_PER_REQUEST + 1) > 1000);
    assert_eq!(build_request(&ids(400)).matches(": set(id: ").count(), SETS_PER_REQUEST);
}
