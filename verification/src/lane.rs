//! The margin lane: where the cards beside the text sit, whether a card is on
//! screen, and how far to scroll to bring one into view.
//!
//! Coordinates are whole pixels, measured down from the top of the viewport.

use vstd::prelude::*;

verus! {

/// Room kept under the active card at the bottom of the viewport.
pub const CARD_BOTTOM_MARGIN: i64 = 8;
/// One line of a card: a card counts as on screen when a line of it is.
pub const CARD_LINE_H: i64 = 18;
/// How far inside the near edge a revealed card's anchor lands.
pub const REVEAL_INSET: i64 = 120;

/// The largest coordinate (anchor, floor, viewport bottom) the packer takes.
pub const COORD_LIMIT: i64 = 1_099_511_627_776;
/// The largest card height or gap the packer takes.
pub const SIZE_LIMIT: i64 = 4_294_967_296;
/// The most cards one lane holds.
pub const STACK_LIMIT: usize = 1_048_576;
/// Twice the size limit: what one card and its gap can take up.
pub const SPAN: i64 = 8_589_934_592;

/// A margin card's placement inputs: the viewport-space top it wants, its
/// measured height, whether it holds its anchor (a writer note or the active
/// card), and whether it is the active card.
#[derive(Clone, Copy, Debug)]
pub struct PlaceItem {
    pub anchor: i64,
    pub height: i64,
    pub pin: bool,
    pub active: bool,
}

/// The inputs are within the ranges the packer computes with exactly. The
/// bounds are this library's own, chosen so that all of the packer's sums
/// stay inside `i64`; they are far beyond any screen.
pub open spec fn lane_fits(items: Seq<PlaceItem>, floor: i64, viewport_bottom: i64, gap: i64) -> bool {
    &&& items.len() <= STACK_LIMIT
    &&& -COORD_LIMIT <= floor <= COORD_LIMIT
    &&& -COORD_LIMIT <= viewport_bottom <= COORD_LIMIT
    &&& 0 <= gap <= SIZE_LIMIT
    &&& forall|i: int|
        #![trigger items[i]]
        0 <= i < items.len() ==> -COORD_LIMIT <= items[i].anchor <= COORD_LIMIT && 0
            <= items[i].height <= SIZE_LIMIT
}

/// `a` is the first active card.
pub open spec fn first_active(items: Seq<PlaceItem>, a: int) -> bool {
    &&& 0 <= a < items.len()
    &&& items[a].active
    &&& forall|b: int| 0 <= b < a ==> !(#[trigger] items[b].active)
}

/// Card `i` and the card after it do not overlap.
pub open spec fn clear_of_next(items: Seq<PlaceItem>, tops: Seq<i64>, gap: i64, i: int) -> bool {
    tops[i] + items[i].height + gap <= tops[i + 1]
}

/// The room that cards `k..m` take, each with its gap.
pub open spec fn run_need(items: Seq<PlaceItem>, gap: int, k: int, m: int) -> int
    decreases m - k,
{
    if m <= k {
        0
    } else {
        run_need(items, gap, k, m - 1) + items[m - 1].height + gap
    }
}

proof fn lemma_run_need_bounds(items: Seq<PlaceItem>, gap: i64, k: int, m: int)
    requires
        0 <= k,
        m <= items.len(),
        0 <= gap <= SIZE_LIMIT,
        forall|i: int| #![trigger items[i]] 0 <= i < items.len() ==> 0 <= items[i].height <= SIZE_LIMIT,
    ensures
        0 <= run_need(items, gap as int, k, m),
        k <= m ==> run_need(items, gap as int, k, m) <= (m - k) * SPAN,
    decreases m - k,
{
    if m > k {
        lemma_run_need_bounds(items, gap, k, m - 1);
    }
}

/// The top a card aims for: its anchor, never above the floor; the active
/// card's is first raised so that the whole card fits above the viewport's
/// bottom.
pub open spec fn anchor_target(it: PlaceItem, floor: int, viewport_bottom: int) -> int {
    let a = if it.anchor >= floor { it.anchor as int } else { floor };
    if it.active {
        let lift = viewport_bottom - it.height - CARD_BOTTOM_MARGIN;
        let m = if lift <= a { lift } else { a };
        if m >= floor { m } else { floor }
    } else {
        a
    }
}

/// The first pass over the first `i` cards: each at its target, or just
/// below the card before it (the first no higher than the floor).
pub open spec fn first_pass(items: Seq<PlaceItem>, floor: int, viewport_bottom: int, gap: int, i: int) -> Seq<
    int,
>
    decreases i,
{
    if i <= 0 {
        Seq::empty()
    } else {
        let prev = first_pass(items, floor, viewport_bottom, gap, i - 1);
        let bottom = if i == 1 { floor } else { prev[i - 2] + items[i - 2].height + gap };
        let a = anchor_target(items[i - 1], floor, viewport_bottom);
        prev.push(if a >= bottom { a } else { bottom })
    }
}

/// Pushes cards `k..j` up as far as each must go to clear the card below
/// it, from card `j - 1` upward; card `j` stays.
pub open spec fn squeeze(items: Seq<PlaceItem>, gap: int, s: Seq<int>, k: int, j: int) -> Seq<int>
    decreases j - k,
{
    if j <= k {
        s
    } else {
        let cap = s[j] - items[j - 1].height - gap;
        squeeze(items, gap, s.update(j - 1, if s[j - 1] > cap { cap } else { s[j - 1] }), k, j - 1)
    }
}

/// The first card of the run of unpinned cards directly above card `p`.
pub open spec fn run_start(items: Seq<PlaceItem>, p: int) -> int
    decreases p,
{
    if p <= 0 || items[p - 1].pin {
        p
    } else {
        run_start(items, p - 1)
    }
}

/// A pinned card below its target rises toward it, as far as the run of
/// cards above it still fits between it and the card (or floor) above the
/// run; the run is then squeezed into the room left.
pub open spec fn pin_step(items: Seq<PlaceItem>, floor: int, viewport_bottom: int, gap: int, s: Seq<int>, p: int) -> Seq<
    int,
> {
    let a = anchor_target(items[p], floor, viewport_bottom);
    if !items[p].pin || s[p] <= a {
        s
    } else {
        let k = run_start(items, p);
        let base = if k > 0 { s[k - 1] + items[k - 1].height + gap } else { floor };
        let lowest = base + run_need(items, gap, k, p);
        let raised = if a >= lowest { a } else { lowest };
        let t = if raised <= s[p] { raised } else { s[p] };
        squeeze(items, gap, s.update(p, t), k, p)
    }
}

/// The second pass: the pin steps of cards `i - 1` down to `0`, in turn.
pub open spec fn second_pass(items: Seq<PlaceItem>, floor: int, viewport_bottom: int, gap: int, s: Seq<int>, i: int) -> Seq<
    int,
>
    decreases i,
{
    if i <= 0 {
        s
    } else {
        second_pass(
            items,
            floor,
            viewport_bottom,
            gap,
            pin_step(items, floor, viewport_bottom, gap, s, i - 1),
            i - 1,
        )
    }
}

/// The third pass: the first active card comes up until it fits above the
/// viewport's bottom (never above the floor), and the cards above it are
/// pushed up to clear it.
pub open spec fn third_pass(items: Seq<PlaceItem>, floor: int, viewport_bottom: int, gap: int, s: Seq<int>) -> Seq<int> {
    if exists|a: int| first_active(items, a) {
        let a = choose|a: int| first_active(items, a);
        let lift = viewport_bottom - items[a].height - CARD_BOTTOM_MARGIN;
        let ceil = if lift >= floor { lift } else { floor };
        let t = if s[a] > ceil { ceil } else { s[a] };
        squeeze(items, gap, s.update(a, t), 0, a)
    } else {
        s
    }
}

/// Where the packer puts each card.
pub open spec fn placement(items: Seq<PlaceItem>, floor: int, viewport_bottom: int, gap: int) -> Seq<int> {
    let n = items.len() as int;
    third_pass(
        items,
        floor,
        viewport_bottom,
        gap,
        second_pass(
            items,
            floor,
            viewport_bottom,
            gap,
            first_pass(items, floor, viewport_bottom, gap, n),
            n,
        ),
    )
}

/// The placed tops, read as integers, are `st`.
pub open spec fn tops_are(top: Seq<i64>, st: Seq<int>) -> bool {
    &&& top.len() == st.len()
    &&& forall|j: int| 0 <= j < top.len() ==> top[j] == #[trigger] st[j]
}

fn max_i64(a: i64, b: i64) -> (r: i64)
    ensures
        r == (if a >= b { a } else { b }),
{
    if a >= b { a } else { b }
}

fn min_i64(a: i64, b: i64) -> (r: i64)
    ensures
        r == (if a <= b { a } else { b }),
{
    if a <= b { a } else { b }
}

/// The top each card aims for: its anchor, never above the floor; the
/// active card's is first raised so that the whole card fits above the
/// viewport's bottom.
fn anchor_targets(items: &[PlaceItem], floor: i64, viewport_bottom: i64) -> (r: Vec<i64>)
    requires
        lane_fits(items@, floor, viewport_bottom, 0),
    ensures
        r.len() == items.len(),
        forall|i: int|
            0 <= i < r.len() ==> floor <= #[trigger] r@[i] <= COORD_LIMIT && r@[i] == anchor_target(
                items@[i],
                floor as int,
                viewport_bottom as int,
            ),
{
    let mut r: Vec<i64> = Vec::new();
    let n = items.len();
    for i in 0..n
        invariant
            n == items.len(),
            lane_fits(items@, floor, viewport_bottom, 0),
            r.len() == i,
            forall|j: int|
                0 <= j < i ==> floor <= #[trigger] r@[j] <= COORD_LIMIT && r@[j] == anchor_target(
                    items@[j],
                    floor as int,
                    viewport_bottom as int,
                ),
    {
        let it = items[i];
        assert(-COORD_LIMIT <= items@[i as int].anchor <= COORD_LIMIT);
        let a = max_i64(it.anchor, floor);
        if it.active {
            let lift = viewport_bottom - it.height - CARD_BOTTOM_MARGIN;
            r.push(max_i64(min_i64(lift, a), floor));
        } else {
            r.push(a);
        }
    }
    r
}

/// Places the margin cards in one pass and returns each card's top, in input
/// order (the cards come in anchor order). Writer notes and the active card
/// hold their anchors; other cards yield around them. No two cards overlap;
/// every card clears the floor except those the active card pushed up off
/// the top edge; and the active card lies fully between the floor and the
/// viewport's bottom whenever its height fits there.
pub fn place_margin_cards(items: &[PlaceItem], floor: i64, viewport_bottom: i64, gap: i64) -> (tops:
    Vec<i64>)
    requires
        lane_fits(items@, floor, viewport_bottom, gap),
    ensures
        tops.len() == items.len(),
        forall|i: int| 0 <= i < items.len() - 1 ==> clear_of_next(items@, tops@, gap, i),
        forall|i: int|
            0 <= i < items.len() && (forall|a: int| #[trigger] first_active(items@, a) ==> a <= i)
                ==> floor <= tops@[i],
        forall|a: int|
            first_active(items@, a) && items@[a].height <= viewport_bottom - floor
                - CARD_BOTTOM_MARGIN ==> floor <= tops@[a] && tops@[a] + items@[a].height
                <= viewport_bottom,
        tops_are(tops@, placement(items@, floor as int, viewport_bottom as int, gap as int)),
{
    let n = items.len();
    let anchor = anchor_targets(items, floor, viewport_bottom);

    // Pass 1: from the floor down, each card at its anchor or just below the
    // card before it.
    let mut top: Vec<i64> = Vec::new();
    let mut bottom: i64 = floor;
    let ghost mut st: Seq<int> = Seq::empty();
    for i in 0..n
        invariant
            n == items.len(),
            anchor.len() == n,
            lane_fits(items@, floor, viewport_bottom, gap),
            forall|j: int|
                0 <= j < n ==> floor <= #[trigger] anchor@[j] <= COORD_LIMIT && anchor@[j]
                    == anchor_target(items@[j], floor as int, viewport_bottom as int),
            top.len() == i,
            tops_are(top@, st),
            st == first_pass(items@, floor as int, viewport_bottom as int, gap as int, i as int),
            floor <= bottom <= COORD_LIMIT + i * SPAN,
            i > 0 ==> bottom == top@[i - 1] + items@[i - 1].height + gap,
            i == 0 ==> bottom == floor,
            forall|j: int| 0 <= j < i ==> floor <= #[trigger] top@[j] <= COORD_LIMIT + j * SPAN,
            forall|j: int| 0 <= j < i - 1 ==> clear_of_next(items@, top@, gap, j),
    {
        assert(0 <= items@[i as int].height <= SIZE_LIMIT);
        let t = max_i64(anchor[i], bottom);
        let ghost prev = top@;
        top.push(t);
        bottom = t + items[i].height + gap;
        proof {
            st = st.push(t as int);
            assert forall|j: int| 0 <= j < i implies clear_of_next(items@, top@, gap, j) by {
                if j < i - 1 {
                    assert(clear_of_next(items@, prev, gap, j));
                }
            }
        }
    }

    // Pass 2: raise each pinned card toward its anchor, squeezing the cards
    // directly above it into the slack between them; lowest pin first.
    let ghost first = st;
    let mut i: usize = n;
    while i > 0
        invariant
            n == items.len(),
            anchor.len() == n,
            top.len() == n,
            i <= n,
            lane_fits(items@, floor, viewport_bottom, gap),
            forall|j: int|
                0 <= j < n ==> floor <= #[trigger] anchor@[j] <= COORD_LIMIT && anchor@[j]
                    == anchor_target(items@[j], floor as int, viewport_bottom as int),
            tops_are(top@, st),
            second_pass(items@, floor as int, viewport_bottom as int, gap as int, st, i as int)
                == second_pass(items@, floor as int, viewport_bottom as int, gap as int, first, n as int),
            forall|j: int| 0 <= j < n ==> floor <= #[trigger] top@[j] <= COORD_LIMIT + j * SPAN,
            forall|j: int| 0 <= j < n - 1 ==> clear_of_next(items@, top@, gap, j),
        decreases i,
    {
        i -= 1;
        let ghost st0 = st;
        if !items[i].pin || top[i] <= anchor[i] {
            continue;
        }
        let mut k: usize = i;
        while k > 0 && !items[k - 1].pin
            invariant
                k <= i < n,
                n == items.len(),
                run_start(items@, k as int) == run_start(items@, i as int),
            decreases k,
        {
            k -= 1;
        }
        let base = if k > 0 {
            assert(0 <= items@[k - 1].height <= SIZE_LIMIT);
            top[k - 1] + items[k - 1].height + gap
        } else {
            floor
        };
        proof {
            lemma_chain_from(items@, top@, gap, k as int, i as int);
        }
        let mut need: i64 = 0;
        let mut j: usize = k;
        while j < i
            invariant
                k <= j <= i,
                i < n,
                n == items.len(),
                lane_fits(items@, floor, viewport_bottom, gap),
                need == run_need(items@, gap as int, k as int, j as int),
            decreases i - j,
        {
            proof {
                lemma_run_need_bounds(items@, gap, k as int, j as int);
            }
            assert(0 <= items@[j as int].height <= SIZE_LIMIT);
            need = need + items[j].height + gap;
            j += 1;
        }
        proof {
            lemma_run_need_bounds(items@, gap, k as int, i as int);
        }
        let t = min_i64(max_i64(anchor[i], base + need), top[i]);
        let ghost before = top@;
        top.set(i, t);
        proof {
            st = st.update(i as int, t as int);
            assert forall|m: int| 0 <= m < n - 1 && m != i - 1 implies clear_of_next(
                items@,
                top@,
                gap,
                m,
            ) by {
                assert(clear_of_next(items@, before, gap, m));
            }
            if k > 0 {
                assert(clear_of_next(items@, before, gap, k - 1));
            }
            assert forall|m: int| k <= m <= i implies base + run_need(items@, gap as int, k as int, m)
                <= #[trigger] top@[m] by {
                assert(before[k as int] + run_need(items@, gap as int, k as int, m) <= before[m]);
            }
        }
        let mut limit: i64 = t;
        let mut j: usize = i;
        while j > k
            invariant
                k <= j <= i,
                i < n,
                n == items.len(),
                top.len() == n,
                lane_fits(items@, floor, viewport_bottom, gap),
                limit == top@[j as int],
                floor <= base,
                tops_are(top@, st),
                squeeze(items@, gap as int, st, k as int, j as int) == squeeze(
                    items@,
                    gap as int,
                    st0.update(i as int, t as int),
                    k as int,
                    i as int,
                ),
                forall|m: int|
                    k <= m <= i ==> base + run_need(items@, gap as int, k as int, m) <= #[trigger] top@[m],
                forall|m: int| 0 <= m < n ==> floor <= #[trigger] top@[m] <= COORD_LIMIT + m * SPAN,
                forall|m: int| 0 <= m < n - 1 && m != j - 1 ==> clear_of_next(items@, top@, gap, m),
                k > 0 ==> base == top@[k - 1] + items@[k - 1].height + gap,
            decreases j,
        {
            j -= 1;
            assert(0 <= items@[j as int].height <= SIZE_LIMIT);
            proof {
                lemma_run_need_bounds(items@, gap, k as int, j as int);
            }
            let cap = limit - items[j].height - gap;
            let ghost prev = top@;
            if top[j] > cap {
                top.set(j, cap);
            }
            limit = top[j];
            proof {
                st = st.update(j as int, top@[j as int] as int);
                assert forall|m: int| 0 <= m < n - 1 && m != j - 1 implies clear_of_next(
                    items@,
                    top@,
                    gap,
                    m,
                ) by {
                    if m != j {
                        assert(clear_of_next(items@, prev, gap, m));
                    }
                }
            }
        }
    }

    // Pass 3: the active card must be in view. Clamp it up to fit above the
    // viewport's bottom and push the cards above it up to stay clear.
    let ghost second = st;
    let mut a: usize = 0;
    while a < n && !items[a].active
        invariant
            a <= n,
            n == items.len(),
            forall|b: int| 0 <= b < a ==> !(#[trigger] items@[b].active),
        decreases n - a,
    {
        a += 1;
    }
    if a < n {
        assert(0 <= items@[a as int].height <= SIZE_LIMIT);
        let ceil = max_i64(viewport_bottom - items[a].height - CARD_BOTTOM_MARGIN, floor);
        let ghost before = top@;
        if top[a] > ceil {
            top.set(a, ceil);
        }
        let ghost lifted = top@[a as int];
        proof {
            st = st.update(a as int, lifted as int);
            assert forall|m: int| 0 <= m < n - 1 && m != a - 1 implies clear_of_next(
                items@,
                top@,
                gap,
                m,
            ) by {
                assert(clear_of_next(items@, before, gap, m));
            }
        }
        let mut limit: i64 = top[a];
        let mut i: usize = a;
        while i > 0
            invariant
                i <= a < n,
                n == items.len(),
                top.len() == n,
                lane_fits(items@, floor, viewport_bottom, gap),
                first_active(items@, a as int),
                limit == top@[i as int],
                tops_are(top@, st),
                squeeze(items@, gap as int, st, 0, i as int) == squeeze(
                    items@,
                    gap as int,
                    second.update(a as int, lifted as int),
                    0,
                    a as int,
                ),
                floor <= top@[a as int] <= ceil,
                ceil == (if viewport_bottom - items@[a as int].height - CARD_BOTTOM_MARGIN >= floor {
                    viewport_bottom - items@[a as int].height - CARD_BOTTOM_MARGIN
                } else {
                    floor as int
                }),
                forall|m: int| a <= m < n ==> floor <= #[trigger] top@[m],
                forall|m: int| i <= m <= a ==> floor - (a - m) * SPAN <= #[trigger] top@[m],
                forall|m: int| 0 <= m < n ==> #[trigger] top@[m] <= COORD_LIMIT + m * SPAN,
                forall|m: int| 0 <= m < i ==> floor <= #[trigger] top@[m],
                forall|m: int| 0 <= m < n - 1 && m != i - 1 ==> clear_of_next(items@, top@, gap, m),
            decreases i,
        {
            i -= 1;
            assert(0 <= items@[i as int].height <= SIZE_LIMIT);
            let cap = limit - items[i].height - gap;
            let ghost prev = top@;
            if top[i] > cap {
                top.set(i, cap);
            }
            limit = top[i];
            proof {
                st = st.update(i as int, top@[i as int] as int);
                assert forall|m: int| 0 <= m < n - 1 && m != i - 1 implies clear_of_next(
                    items@,
                    top@,
                    gap,
                    m,
                ) by {
                    if m != i {
                        assert(clear_of_next(items@, prev, gap, m));
                    }
                }
            }
        }
    }
    top
}

/// In a chain of cards that clear each other, each card sits at least the
/// room of the cards above it below the first of them.
proof fn lemma_chain_from(items: Seq<PlaceItem>, top: Seq<i64>, gap: i64, k: int, i: int)
    requires
        0 <= k <= i < top.len(),
        top.len() == items.len(),
        forall|j: int| 0 <= j < top.len() - 1 ==> clear_of_next(items, top, gap, j),
    ensures
        forall|m: int| k <= m <= i ==> top[k] + run_need(items, gap as int, k, m) <= #[trigger] top[m],
    decreases i - k,
{
    if i > k {
        lemma_chain_from(items, top, gap, k, i - 1);
        assert(clear_of_next(items, top, gap, i - 1));
    }
}

/// Where a placed card sits relative to the viewport: on screen, or counted
/// in the "N above" or "N below" pill.
#[derive(Clone, Copy, Debug, PartialEq, Eq, Structural)]
pub enum CardSlot {
    Shown,
    Above,
    Below,
}

/// A card shows when at least one line of it is inside the viewport;
/// otherwise it counts toward the edge it has left by.
pub open spec fn slot_of(top: int, height: int, vp_top: int, vp_bottom: int) -> CardSlot {
    if top + height > vp_top + CARD_LINE_H && top < vp_bottom - CARD_LINE_H {
        CardSlot::Shown
    } else if top + height <= vp_top + CARD_LINE_H {
        CardSlot::Above
    } else {
        CardSlot::Below
    }
}

/// Which of shown, above or below a card of this height at this top is.
/// The answer is honest: a shown card overlaps the viewport, and a counted
/// one has left it by the edge it is counted at.
pub fn card_slot(top: i64, height: i64, vp_top: i64, vp_bottom: i64) -> (r: CardSlot)
    ensures
        r == slot_of(top as int, height as int, vp_top as int, vp_bottom as int),
        r == CardSlot::Shown ==> top + height > vp_top && top < vp_bottom,
        r == CardSlot::Above ==> top + height <= vp_top + CARD_LINE_H,
        r == CardSlot::Below ==> top >= vp_bottom - CARD_LINE_H,
{
    let bottom = top as i128 + height as i128;
    if bottom > vp_top as i128 + CARD_LINE_H as i128 && (top as i128) < vp_bottom as i128
        - CARD_LINE_H as i128 {
        CardSlot::Shown
    } else if bottom <= vp_top as i128 + CARD_LINE_H as i128 {
        CardSlot::Above
    } else {
        CardSlot::Below
    }
}

/// The scroll offset a reveal aims for before it is clamped: the anchor
/// `REVEAL_INSET` inside the bottom edge for a card below, inside the top
/// edge for a card above.
pub open spec fn reveal_target(anchor_y: int, vp_h: int, below: bool) -> int {
    if below {
        anchor_y - vp_h + REVEAL_INSET
    } else {
        anchor_y - REVEAL_INSET
    }
}

/// The scroll offset that brings a card anchored at content-y `anchor_y`
/// just into view at the near edge (one more card, not a page), clamped to
/// the scrollable range `0..=max_scroll`.
pub fn reveal_scroll(anchor_y: i64, vp_h: i64, max_scroll: i64, below: bool) -> (r: i64)
    requires
        0 <= max_scroll,
    ensures
        r == (if reveal_target(anchor_y as int, vp_h as int, below) < 0 {
            0
        } else if reveal_target(anchor_y as int, vp_h as int, below) > max_scroll {
            max_scroll as int
        } else {
            reveal_target(anchor_y as int, vp_h as int, below)
        }),
        0 <= r <= max_scroll,
        0 <= reveal_target(anchor_y as int, vp_h as int, below) <= max_scroll ==> anchor_y - r == (
        if below {
            vp_h - REVEAL_INSET
        } else {
            REVEAL_INSET as int
        }),
{
    let target: i128 = if below {
        anchor_y as i128 - vp_h as i128 + REVEAL_INSET as i128
    } else {
        anchor_y as i128 - REVEAL_INSET as i128
    };
    if target < 0 {
        0
    } else if target > max_scroll as i128 {
        max_scroll
    } else {
        target as i64
    }
}

/// How far past the viewport's edges a card's anchor may sit and still
/// keep its card in the lane.
pub const CARD_OVERSCAN: i64 = 120;

/// Where an open note's card goes before packing: into the lane, or
/// counted in the "N above" or "N below" pill because its anchor is off
/// screen.
#[derive(Clone, Copy, Debug, PartialEq, Eq, Structural)]
pub enum AnchorPlace {
    Lane,
    Above,
    Below,
}

/// The anchor cull: when the lane culls (`cull`), a card whose anchor's
/// viewport-space top `desired` lies more than `CARD_OVERSCAN` past the
/// viewport is left out of the lane and counted at the edge it left by;
/// the active card always stays.
pub fn anchor_cull(desired: i64, vp_top: i64, vp_bottom: i64, active: bool, cull: bool) -> (r:
    AnchorPlace)
    ensures
        r == (if cull && !active && (desired < vp_top - CARD_OVERSCAN || desired > vp_bottom
            + CARD_OVERSCAN) {
            if desired < vp_top {
                AnchorPlace::Above
            } else {
                AnchorPlace::Below
            }
        } else {
            AnchorPlace::Lane
        }),
{
    let d = desired as i128;
    let off = d < vp_top as i128 - CARD_OVERSCAN as i128 || d > vp_bottom as i128
        + CARD_OVERSCAN as i128;
    if cull && !active && off {
        if desired < vp_top {
            AnchorPlace::Above
        } else {
            AnchorPlace::Below
        }
    } else {
        AnchorPlace::Lane
    }
}

} // verus!
