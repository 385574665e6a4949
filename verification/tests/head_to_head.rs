use serde_json::Value;
use smithe_lib::head_to_head::{
    checked_sgg_h2h_response_to_results, list_records, merge_by_player, merge_results,
    sgg_h2h_response_to_results, HeadToHeadResult,
};
use smithe_lib::names::{name_players, NameTable};
use smithe_lib::sightings::{read_sightings, Sighting};
use std::collections::HashMap;

fn parse(text: &str) -> Value {
    serde_json::from_str(text).unwrap()
}

fn slot(name: &str, id: i64) -> String {
    format!(
        r#"{{"entrant": {{"name": "{}", "participants": [{{"player": {{"id": {}}}}}]}}}}"#,
        name, id
    )
}

fn set(slots: &[String]) -> String {
    format!(r#"{{"slots": [{}]}}"#, slots.join(","))
}

fn response(sets: &[String]) -> Value {
    let members: Vec<String> =
        sets.iter().enumerate().map(|(i, set)| format!(r#""s{}": {}"#, i, set)).collect();
    parse(&format!("{{{}}}", members.join(",")))
}

fn row(tag: &str, total_sets: i64, wins: i64, losses: i64) -> HeadToHeadResult {
    HeadToHeadResult { opponent_tag: tag.to_string(), total_sets, wins, losses }
}

fn plain(rows: &[HeadToHeadResult]) -> Vec<(String, i64, i64, i64)> {
    let mut all: Vec<(String, i64, i64, i64)> = rows
        .iter()
        .map(|r| (r.opponent_tag.clone(), r.total_sets, r.wins, r.losses))
        .collect();
    all.sort();
    all
}

fn sighting(name: &str, player_id: i32) -> Sighting {
    Sighting { name: name.to_string(), player_id }
}

fn pairs(seen: &[Sighting]) -> Vec<(String, i32)> {
    seen.iter().map(|s| (s.name.clone(), s.player_id)).collect()
}

#[test]
fn sightings_of_all_responses_without_the_requester() {
    let data = vec![
        response(&[
            set(&[slot("me", 1), slot("a", 2)]),
            set(&[slot("T | b", 3), slot("me", 1)]),
        ]),
        response(&[set(&[slot("c", 4), slot("other me", 1)])]),
    ];
    let seen = read_sightings(1, &data).unwrap();
    assert_eq!(
        pairs(&seen),
        vec![("a".to_string(), 2), ("T | b".to_string(), 3), ("c".to_string(), 4)]
    );
    assert!(read_sightings(1, &vec![]).unwrap().is_empty());
    assert!(read_sightings(1, &vec![parse("{}")]).unwrap().is_empty());
    assert!(read_sightings(1, &vec![parse(r#"{"s0": {}}"#)]).unwrap().is_empty());
}

#[test]
fn members_are_read_in_the_order_of_their_keys() {
    let data = vec![parse(&format!(
        r#"{{"s1": {}, "s0": {}}}"#,
        set(&[slot("late", 2)]),
        set(&[slot("early", 3)])
    ))];
    let seen = read_sightings(1, &data).unwrap();
    assert_eq!(pairs(&seen), vec![("early".to_string(), 3), ("late".to_string(), 2)]);
}

#[test]
fn the_requester_needs_no_name() {
    let nameless = r#"{"entrant": {"participants": [{"player": {"id": 1}}]}}"#.to_string();
    let data = vec![response(&[set(&[nameless, slot("a", 2)])])];
    assert_eq!(pairs(&read_sightings(1, &data).unwrap()), vec![("a".to_string(), 2)]);
    assert!(read_sightings(5, &data).is_none());
}

#[test]
fn only_the_first_participant_counts() {
    let team = r#"{"entrant": {"name": "duo", "participants":
        [{"player": {"id": 8}}, {"player": {"id": 9}}]}}"#
        .to_string();
    let data = vec![response(&[set(&[team])])];
    assert_eq!(pairs(&read_sightings(1, &data).unwrap()), vec![("duo".to_string(), 8)]);
}

#[test]
fn ids_are_cut_to_32_bits() {
    let data = vec![response(&[set(&[slot("a", 4294967298), slot("me", 4294967297)])])];
    assert_eq!(pairs(&read_sightings(1, &data).unwrap()), vec![("a".to_string(), 2)]);
}

#[test]
fn responses_that_cannot_be_read() {
    let broken = [
        "null",
        "[]",
        r#"{"s0": null}"#,
        r#"{"s0": []}"#,
        r#"{"s0": {"slots": null}}"#,
        r#"{"s0": {"slots": {}}}"#,
        r#"{"s0": {"slots": [null]}}"#,
        r#"{"s0": {"slots": [{"entrant": null}]}}"#,
        r#"{"s0": {"slots": [{"entrant": {"name": "a", "participants": []}}]}}"#,
        r#"{"s0": {"slots": [{"entrant": {"name": "a", "participants": [{"player": {"id": "2"}}]}}]}}"#,
        r#"{"s0": {"slots": [{"entrant": {"name": "a", "participants": [{"player": {"id": 2.5}}]}}]}}"#,
        r#"{"s0": {"slots": [{"entrant": {"name": "a", "participants": [{"player": {"id": 9223372036854775808}}]}}]}}"#,
        r#"{"s0": {"slots": [{"entrant": {"name": "a", "participants": {"player": {"id": 2}}}}]}}"#,
        r#"{"s0": {"slots": [{"entrant": {"name": 3, "participants": [{"player": {"id": 2}}]}}]}}"#,
        r#"{"s0": {"slots": [{"entrant": {"participants": [{"player": {"id": 2}}]}}]}}"#,
    ];
    for text in broken {
        assert!(read_sightings(1, &vec![parse(text)]).is_none());
        assert!(checked_sgg_h2h_response_to_results(1, &vec![parse(text)], &vec![]).is_none());
    }
    let members = r#"{"s0": {"slots": [{"entrant": {"name": "a",
        "participants": {"0": {"player": {"id": 2}}}}}]}}"#;
    assert_eq!(
        pairs(&read_sightings(1, &vec![parse(members)]).unwrap()),
        vec![("a".to_string(), 2)]
    );
}

#[test]
fn one_row_for_each_opponent() {
    let data = vec![response(&[
        set(&[slot("me", 1), slot("a", 2)]),
        set(&[slot("me", 1), slot("b", 3)]),
    ])];
    let rows = vec![row("a", 5, 3, 2), row("b", 4, 1, 2)];
    let result = sgg_h2h_response_to_results(1, data, &rows);
    assert_eq!(
        plain(&result),
        vec![("a".to_string(), 5, 3, 2), ("b".to_string(), 4, 1, 2)]
    );
}

#[test]
fn names_of_one_opponent_are_added_up() {
    let data = vec![
        response(&[set(&[slot("me", 1), slot("old", 2)]), set(&[slot("b", 3), slot("me", 1)])]),
        response(&[set(&[slot("new", 2), slot("me", 1)])]),
    ];
    let rows = vec![row("old", 5, 3, 2), row("b", 4, 1, 2), row("new", 10, 0, 9)];
    let result = sgg_h2h_response_to_results(1, data, &rows);
    assert_eq!(result.len(), 2);
    let merged = result.iter().find(|r| r.opponent_tag != "b").unwrap();
    assert!(merged.opponent_tag == "old" || merged.opponent_tag == "new");
    assert_eq!((merged.total_sets, merged.wins, merged.losses), (15, 3, 11));
    let total: i64 = result.iter().map(|r| r.total_sets).sum();
    assert_eq!(total, 19);
}

#[test]
fn order_of_the_rows_does_not_matter() {
    let seen = vec![sighting("x", 7), sighting("y", 8), sighting("z", 9)];
    let rows = vec![row("x", 5, 3, 2), row("y", 4, 1, 2), row("z", 1, 1, 0)];
    let turned = vec![row("z", 1, 1, 0), row("x", 5, 3, 2), row("y", 4, 1, 2)];
    assert_eq!(
        plain(&merge_results(&seen, &rows).unwrap()),
        plain(&merge_results(&seen, &turned).unwrap())
    );
}

#[test]
fn the_last_sighting_of_a_name_decides() {
    let seen = vec![sighting("x", 7), sighting("y", 8), sighting("x", 8)];
    let rows = vec![row("x", 5, 3, 2), row("y", 4, 1, 2)];
    let result = merge_results(&seen, &rows).unwrap();
    assert_eq!(result.len(), 1);
    assert_eq!((result[0].total_sets, result[0].wins, result[0].losses), (9, 4, 4));
}

#[test]
fn opponents_without_a_row_are_left_out() {
    let seen = vec![sighting("x", 7), sighting("y", 8)];
    assert!(merge_results(&seen, &vec![]).unwrap().is_empty());
    assert_eq!(
        plain(&merge_results(&seen, &vec![row("y", 1, 0, 1)]).unwrap()),
        vec![("y".to_string(), 1, 0, 1)]
    );
}

#[test]
fn rows_under_unknown_names() {
    let seen = vec![sighting("x", 7)];
    assert!(merge_results(&seen, &vec![row("x", 1, 1, 0), row("y", 1, 1, 0)]).is_none());
    let data = vec![response(&[set(&[slot("me", 1), slot("x", 7)])])];
    assert!(checked_sgg_h2h_response_to_results(1, &data, &vec![row("me", 1, 1, 0)]).is_none());
}

#[test]
fn sums_have_to_fit() {
    let seen = vec![sighting("x", 7), sighting("y", 7)];
    let max = i64::MAX;
    assert!(merge_results(&seen, &vec![row("x", max, 0, 0), row("y", 1, 0, 0)]).is_none());
    assert!(merge_results(&seen, &vec![row("x", 0, max, 0), row("y", 0, 1, 0)]).is_none());
    assert!(merge_results(&seen, &vec![row("x", 0, 0, i64::MIN), row("y", 0, 0, -1)]).is_none());
    let result = merge_results(&seen, &vec![row("x", max, 0, 0), row("y", 0, 1, 1)]).unwrap();
    assert_eq!((result[0].total_sets, result[0].wins, result[0].losses), (max, 1, 1));
}

#[test]
fn labels_name_the_rows() {
    let table = NameTable::from_sightings(&vec![sighting("x", 7), sighting("y", 7), sighting("z", 8)]);
    let rows = vec![row("y", 1, 1, 0), row("z", 2, 1, 1), row("x", 3, 0, 3)];
    let labels = name_players(&vec![sighting("x", 7), sighting("y", 7), sighting("x", 7)]);
    let merged = merge_by_player(&table, &labels, &rows).unwrap();
    assert_eq!(merged.len(), 2);
    assert_eq!(merged[&7].opponent_tag, "x");
    assert_eq!(merged[&7].total_sets, 4);
    assert_eq!(merged[&8].opponent_tag, "z");
    let unlabelled = merge_by_player(&table, &HashMap::new(), &rows).unwrap();
    assert_eq!(unlabelled[&7].opponent_tag, "y");
    assert_eq!(plain(&list_records(&merged)).len(), 2);
}

#[test]
fn the_last_name_of_a_walk_stays() {
    let names = name_players(&vec![sighting("x", 7), sighting("z", 8), sighting("y", 7)]);
    assert_eq!(names.len(), 2);
    assert_eq!(names[&7], "y");
    assert_eq!(names[&8], "z");
}

#[test]
fn a_table_of_names() {
    let mut table = NameTable::new();
    assert_eq!(table.get("x"), None);
    table.insert("x".to_string(), 7);
    table.insert("y".to_string(), 8);
    table.insert("x".to_string(), 9);
    assert_eq!(table.get("x"), Some(9));
    assert_eq!(table.get("y"), Some(8));
    let mut walk = pairs(&table.walk());
    walk.sort();
    assert_eq!(walk, vec![("x".to_string(), 9), ("y".to_string(), 8)]);
}

#[test]
fn answers_add_up() {
    let first = response(&[set(&[slot("me", 1), slot("a", 2)])]);
    let second = response(&[set(&[slot("b", 3), slot("me", 1)])]);
    let mut apart = pairs(&read_sightings(1, &vec![first.clone()]).unwrap());
    apart.extend(pairs(&read_sightings(1, &vec![second.clone()]).unwrap()));
    assert_eq!(pairs(&read_sightings(1, &vec![first, second]).unwrap()), apart);
}

#[test]
fn no_more_rows_and_no_more_decided_sets_than_before() {
    let seen = vec![sighting("x", 7), sighting("y", 7), sighting("z", 9)];
    let rows = vec![row("x", 5, 3, 2), row("y", 4, 1, 2), row("z", 1, 0, 0)];
    let result = merge_results(&seen, &rows).unwrap();
    assert_eq!(result.len(), 2);
    assert!(result.iter().all(|r| r.wins + r.losses <= r.total_sets));
    assert!(result.iter().any(|r| r.opponent_tag == "z" && r.total_sets == 1));
}
