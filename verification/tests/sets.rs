use smithe_lib::sets::{get_last_completed_at, PlayerSet, SetOutcome};

fn completed(completed_at: i64) -> PlayerSet {
    PlayerSet {
        id: 1,
        requester_id: 1178271,
        event_id: 5,
        opponent_tag_with_prefix: "opponent".to_string(),
        requester_score: 2,
        opponent_score: 1,
        result_type: 2,
        completed_at,
    }
}

#[test]
fn no_time_for_an_empty_cache() {
    assert_eq!(get_last_completed_at(vec![]), None);
}

#[test]
fn two_past_the_last_set() {
    assert_eq!(
        get_last_completed_at(vec![completed(10), completed(1700000000), completed(20)]),
        Some(1700000002)
    );
    assert_eq!(get_last_completed_at(vec![completed(0)]), Some(2));
    assert_eq!(get_last_completed_at(vec![completed(-9), completed(-5)]), Some(-3));
}

#[test]
fn largest_time_that_fits() {
    assert_eq!(get_last_completed_at(vec![completed(i64::MAX - 2)]), Some(i64::MAX));
    assert_eq!(get_last_completed_at(vec![completed(i64::MIN)]), Some(i64::MIN + 2));
}

#[test]
fn order_of_the_cache_does_not_matter() {
    assert_eq!(get_last_completed_at(vec![completed(3), completed(8)]), Some(10));
    assert_eq!(get_last_completed_at(vec![completed(8), completed(3)]), Some(10));
    assert_eq!(get_last_completed_at(vec![completed(8), completed(3), completed(9)]), Some(11));
}

#[test]
fn numbers_of_outcomes() {
    assert_eq!(SetOutcome::Win.result_type(), 2);
    assert_eq!(SetOutcome::Loss.result_type(), -2);
    assert_eq!(SetOutcome::WinByDq.result_type(), 1);
    assert_eq!(SetOutcome::LossByDq.result_type(), -1);
}
