use smithe_lib::competitor::{
    checked_competitor_totals, competitor_totals, played_events, CompetitorTotals,
};

#[test]
fn events_without_a_set_are_left_out() {
    let rows = vec![(1, 3, 2), (2, 0, 0), (3, 0, 2), (4, 5, 0)];
    assert_eq!(played_events(&rows), vec![(1, 3, 2), (3, 0, 2), (4, 5, 0)]);
    assert_eq!(
        competitor_totals(&rows),
        CompetitorTotals { wins: 8, losses: 4, events: 3 }
    );
}

#[test]
fn nothing_played() {
    let none = CompetitorTotals { wins: 0, losses: 0, events: 0 };
    assert_eq!(checked_competitor_totals(&vec![]), Some(none));
    assert_eq!(checked_competitor_totals(&vec![(1, 0, 0)]), Some(none));
}

#[test]
fn counts_are_taken_as_32_bit_integers() {
    let rows = vec![(1, 4294967296, 4294967297), (2, 4294967296, 0), (3, -1, 0)];
    assert_eq!(played_events(&rows), vec![(1, 0, 1), (3, u32::MAX, 0)]);
}

#[test]
fn totals_have_to_fit() {
    let max = u32::MAX as i64;
    assert_eq!(
        checked_competitor_totals(&vec![(1, max, 0), (2, 0, max)]),
        Some(CompetitorTotals { wins: u32::MAX, losses: u32::MAX, events: 2 })
    );
    assert_eq!(checked_competitor_totals(&vec![(1, max, 0), (2, 1, 0)]), None);
    assert_eq!(checked_competitor_totals(&vec![(1, 0, max), (2, 0, 1)]), None);
}
