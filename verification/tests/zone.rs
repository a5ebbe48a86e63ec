use strop::zone::{zone_candidates, zone_stack, ZoneRef};

#[test]
fn zone_shows_up_to_three_rows_as_they_are() {
    assert_eq!(zone_stack(&vec![]), (vec![], 0));
    assert_eq!(zone_stack(&vec![900]), (vec![0], 0));
    assert_eq!(zone_stack(&vec![50, 10, 70]), (vec![0, 1, 2], 0));
}

#[test]
fn zone_keeps_the_three_nearest_in_reading_order() {
    // Distances from the viewport's middle, in reading order.
    let d = vec![400, 20, 300, 5, 60];
    assert_eq!(zone_stack(&d), (vec![1, 3, 4], 2));
}

#[test]
fn zone_ties_go_to_the_earlier_reference() {
    let d = vec![10, 10, 10, 10];
    assert_eq!(zone_stack(&d), (vec![0, 1, 2], 1));
    // A footnote without a painted position is farthest of all.
    let d = vec![u64::MAX, 7, u64::MAX, 3, 9];
    assert_eq!(zone_stack(&d), (vec![1, 3, 4], 2));
}

fn zref(chars: (usize, usize), byte: usize, number: Option<usize>, def: Option<(usize, usize)>) -> ZoneRef {
    ZoneRef { chars, byte, number, def }
}

#[test]
fn zone_lists_visible_references_with_off_screen_definitions_in_reading_order() {
    // In view: characters 10..50, bytes 10..60. Definitions sit far below.
    let refs = vec![
        zref((40, 41), 45, Some(2), Some((900, 950))),
        zref((12, 13), 12, Some(1), Some((800, 850))),
        // Out of view.
        zref((70, 71), 80, Some(3), Some((960, 990))),
        // The same footnote referenced twice: listed once.
        zref((30, 31), 33, Some(1), Some((800, 850))),
        // Its definition is on screen: no mirror in the zone.
        zref((20, 21), 22, Some(4), Some((50, 55))),
        // No number or no definition: nothing to list.
        zref((25, 26), 27, None, Some((700, 710))),
        zref((26, 27), 28, Some(5), None),
    ];
    assert_eq!(zone_candidates(&refs, (10, 50), (10, 60)), vec![1, 0]);
    assert!(zone_candidates(&refs, (100, 200), (100, 200)).is_empty());
}
