use smithe_lib::slots::{
    get_opponent_set_slot, get_requester_set_slot, SGGEntrant, SGGSet, SGGSetSlot,
};

fn slot(id: i32, name: &str, seed: i32, score: i32) -> SGGSetSlot {
    SGGSetSlot {
        entrant: Some(SGGEntrant {
            id: Some(id),
            name: Some(name.to_string()),
            seed: Some(seed),
        }),
        score: Some(score),
    }
}

fn empty_slot() -> SGGSetSlot {
    SGGSetSlot { entrant: None, score: None }
}

fn unidentified_slot() -> SGGSetSlot {
    SGGSetSlot {
        entrant: Some(SGGEntrant { id: None, name: None, seed: None }),
        score: None,
    }
}

fn get_sggset_test_data() -> SGGSet {
    SGGSet { slots: vec![slot(9410060, "DANTOTTO", 3, 2), slot(9412484, "TeamY | Gato", 14, -1)] }
}

#[test]
fn test_get_requester_set_slot() {
    let set = get_sggset_test_data();
    let found = get_requester_set_slot(9410060, &set).expect("failed to get requester set slot");
    let entrant = found.entrant.unwrap();
    assert_eq!(entrant.id, Some(9410060));
    assert_eq!(entrant.name.as_deref(), Some("DANTOTTO"));
    assert_eq!(entrant.seed, Some(3));
    assert_eq!(found.score, Some(2));
}

#[test]
fn test_get_opponent_set_slot() {
    let set = get_sggset_test_data();
    let found = get_opponent_set_slot(9412484, &set).expect("failed to get opponent set slot");
    let entrant = found.entrant.unwrap();
    assert_eq!(entrant.id, Some(9410060));
    assert_eq!(entrant.name.as_deref(), Some("DANTOTTO"));
    assert_eq!(found.score, Some(2));
}

#[test]
fn roles_swap_between_two_entrants() {
    let set = get_sggset_test_data();
    let as_requester = get_requester_set_slot(9412484, &set).unwrap();
    let as_opponent = get_opponent_set_slot(9410060, &set).unwrap();
    assert_eq!(as_requester.score, Some(-1));
    assert_eq!(as_opponent.score, Some(-1));
    assert_eq!(as_requester.entrant.unwrap().seed, Some(14));
    assert_eq!(as_opponent.entrant.unwrap().seed, Some(14));
}

#[test]
fn nobody_found_in_a_set_without_the_entrant() {
    let set = get_sggset_test_data();
    assert!(get_requester_set_slot(1, &set).is_none());
    let alone = SGGSet { slots: vec![slot(7, "a", 1, 0)] };
    assert!(get_opponent_set_slot(7, &alone).is_none());
    let nobody = SGGSet { slots: vec![] };
    assert!(get_requester_set_slot(7, &nobody).is_none());
    assert!(get_opponent_set_slot(7, &nobody).is_none());
}

#[test]
fn empty_slots_are_passed_over() {
    let set = SGGSet { slots: vec![empty_slot(), slot(7, "a", 1, 0), empty_slot(), slot(8, "b", 2, 3)] };
    assert_eq!(get_requester_set_slot(8, &set).unwrap().score, Some(3));
    assert_eq!(get_opponent_set_slot(8, &set).unwrap().score, Some(0));
    assert_eq!(get_opponent_set_slot(7, &set).unwrap().score, Some(3));
}

#[test]
fn first_of_several_is_found() {
    let set = SGGSet { slots: vec![slot(7, "a", 1, 0), slot(8, "b", 2, 1), slot(9, "c", 3, 2)] };
    assert_eq!(get_opponent_set_slot(9, &set).unwrap().score, Some(0));
    assert_eq!(get_opponent_set_slot(7, &set).unwrap().score, Some(1));
}

#[test]
fn entrants_behind_the_slot_need_no_id() {
    let set = SGGSet { slots: vec![slot(7, "a", 1, 4), unidentified_slot()] };
    assert_eq!(get_requester_set_slot(7, &set).unwrap().score, Some(4));
    assert_eq!(get_opponent_set_slot(8, &set).unwrap().score, Some(4));
}
