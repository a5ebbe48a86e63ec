use strop::lane::{anchor_cull, AnchorPlace, CARD_OVERSCAN};
use strop::lane::{
    card_slot, place_margin_cards, reveal_scroll, CardSlot, PlaceItem, CARD_BOTTOM_MARGIN,
    CARD_LINE_H, REVEAL_INSET,
};

const FLOOR: i64 = 44;
const VP_BOTTOM: i64 = 800;
const GAP: i64 = 16;

fn card(anchor: i64, height: i64, pin: bool, active: bool) -> PlaceItem {
    PlaceItem { anchor, height, pin, active }
}

#[test]
fn cards_stack_below_each_other_from_the_floor() {
    let items = [card(10, 100, false, false), card(50, 100, false, false), card(400, 50, false, false)];
    assert_eq!(place_margin_cards(&items, FLOOR, VP_BOTTOM, GAP), vec![44, 160, 400]);
}

#[test]
fn a_pin_rises_only_as_far_as_the_run_above_it_allows() {
    let items = [card(100, 100, false, false), card(150, 100, false, false), card(200, 60, true, false)];
    assert_eq!(place_margin_cards(&items, FLOOR, VP_BOTTOM, GAP), vec![44, 160, 276]);
}

#[test]
fn the_active_card_is_clamped_into_view() {
    let items = [card(100, 300, true, false), card(500, 200, false, false), card(780, 100, true, true)];
    let tops = place_margin_cards(&items, FLOOR, VP_BOTTOM, GAP);
    assert_eq!(tops, vec![100, 476, 692]);
    assert!(tops[2] + 100 <= VP_BOTTOM - CARD_BOTTOM_MARGIN);
}

#[test]
fn the_active_card_displaces_the_cards_above_it_upward() {
    let items = [card(0, 400, false, false), card(100, 400, false, false), card(200, 80, true, true)];
    // The first card is pushed off the top edge rather than overlapped.
    assert_eq!(place_margin_cards(&items, FLOOR, VP_BOTTOM, GAP), vec![-120, 296, 712]);
}

/// A small deterministic generator standing in for random card stacks.
struct Lcg(u64);

impl Lcg {
    fn next(&mut self, bound: u64) -> u64 {
        self.0 = self.0.wrapping_mul(6364136223846793005).wrapping_add(1442695040888963407);
        (self.0 >> 33) % bound
    }
}

fn random_stack(rng: &mut Lcg, max_n: u64, max_h: u64) -> (Vec<PlaceItem>, Option<usize>) {
    let n = rng.next(max_n) as usize;
    let active = if n == 0 { None } else { Some(rng.next(n as u64) as usize) };
    let mut items: Vec<PlaceItem> = (0..n)
        .map(|i| {
            let anchor = rng.next(3000) as i64;
            let height = 20 + rng.next(max_h - 20) as i64;
            let note = rng.next(2) == 1;
            card(anchor, height, note || Some(i) == active, Some(i) == active)
        })
        .collect();
    items.sort_by_key(|it| it.anchor);
    let active_idx = items.iter().position(|it| it.active);
    (items, active_idx)
}

#[test]
fn packed_cards_never_overlap_and_clear_the_floor() {
    let mut rng = Lcg(7);
    for _ in 0..2000 {
        let (items, active) = random_stack(&mut rng, 12, 400);
        let tops = place_margin_cards(&items, FLOOR, VP_BOTTOM, GAP);
        assert_eq!(tops.len(), items.len());
        for i in 0..tops.len() {
            if active.map_or(true, |a| i >= a) {
                assert!(tops[i] >= FLOOR, "card {i} above floor");
            }
            if i + 1 < tops.len() {
                assert!(tops[i + 1] >= tops[i] + items[i].height + GAP, "cards {i}/{} overlap", i + 1);
            }
        }
    }
}

#[test]
fn selected_card_stays_fully_in_view() {
    let mut rng = Lcg(11);
    for _ in 0..2000 {
        let (items, active) = random_stack(&mut rng, 6, 100);
        let Some(a) = active else { continue };
        let h = items[a].height;
        if h > VP_BOTTOM - FLOOR - CARD_BOTTOM_MARGIN {
            continue;
        }
        let tops = place_margin_cards(&items, FLOOR, VP_BOTTOM, GAP);
        assert!(tops[a] >= FLOOR, "active card under the floor");
        assert!(tops[a] + h <= VP_BOTTOM, "active card overruns the viewport");
    }
}

#[test]
fn card_visibility_is_honest() {
    let (vp_top, vp_bottom) = (44, 800);
    assert_eq!(card_slot(100, 50, vp_top, vp_bottom), CardSlot::Shown);
    assert_eq!(card_slot(-100, 150, vp_top, vp_bottom), CardSlot::Above);
    assert_eq!(card_slot(790, 50, vp_top, vp_bottom), CardSlot::Below);
    for top in (-1500..1500).step_by(7) {
        for height in (10..300).step_by(13) {
            match card_slot(top, height, vp_top, vp_bottom) {
                CardSlot::Shown => assert!(top + height > vp_top && top < vp_bottom),
                CardSlot::Above => assert!(top + height <= vp_top + CARD_LINE_H),
                CardSlot::Below => assert!(top >= vp_bottom - CARD_LINE_H),
            }
        }
    }
}

#[test]
fn reveal_scroll_lands_at_the_near_edge() {
    // Below: the anchor lands REVEAL_INSET above the bottom edge.
    assert_eq!(reveal_scroll(2000, 700, 5000, true), 2000 - 700 + REVEAL_INSET);
    // Above: REVEAL_INSET below the top edge.
    assert_eq!(reveal_scroll(2000, 700, 5000, false), 2000 - REVEAL_INSET);
    // Clamped to the scrollable range.
    assert_eq!(reveal_scroll(50, 700, 5000, false), 0);
    assert_eq!(reveal_scroll(4900, 200, 1000, false), 1000);
}

#[test]
fn anchors_far_off_screen_leave_the_lane_for_their_edge() {
    let (top, bottom) = (44, 800);
    assert_eq!(CARD_OVERSCAN, 120);
    assert_eq!(anchor_cull(300, top, bottom, false, true), AnchorPlace::Lane);
    // Within the overscan the card stays.
    assert_eq!(anchor_cull(top - 120, top, bottom, false, true), AnchorPlace::Lane);
    assert_eq!(anchor_cull(bottom + 120, top, bottom, false, true), AnchorPlace::Lane);
    assert_eq!(anchor_cull(top - 121, top, bottom, false, true), AnchorPlace::Above);
    assert_eq!(anchor_cull(bottom + 121, top, bottom, false, true), AnchorPlace::Below);
    // The active card stays, and a lane that does not cull keeps them all.
    assert_eq!(anchor_cull(-5000, top, bottom, true, true), AnchorPlace::Lane);
    assert_eq!(anchor_cull(-5000, top, bottom, false, false), AnchorPlace::Lane);
}
