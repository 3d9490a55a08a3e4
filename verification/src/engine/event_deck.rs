//! The event deck: cards of the current stage that were not drawn yet, and the
//! draw of one of them, weighted by rarity.
//!
//! A draw takes one 64-bit value from the random stream. Its upper 53 bits, over
//! 2^53, are a number `x` with `0 <= x < 1`. The walk over the eligible cards
//! compares `x` times the total weight with the running sum of the weights; all
//! of it is done in whole numbers, scaled by 2^53.

use crate::engine::rng::{advanced, next_value, GameRng, GameRngView};
use crate::models::event::EventCardView;
use crate::models::{seq_view, stages_contain, strings_contain, EventCard, Rarity, Stage};
use vstd::prelude::*;

verus! {

/// The scale of a roll: 2^53, the number of values the unit draw can take.
pub const UNIT: u128 = 0x20_0000_0000_0000;

/// The weight of a rarity: common cards are drawn most often, rare ones least.
pub open spec fn rarity_weight_spec(rarity: Rarity) -> int {
    match rarity {
        Rarity::Common => 3,
        Rarity::Uncommon => 2,
        Rarity::Rare => 1,
    }
}

/// The weight of a rarity: 3 for common, 2 for uncommon, 1 for rare.
pub fn rarity_weight(rarity: &Rarity) -> (w: u32)
    ensures
        w == rarity_weight_spec(*rarity),
{
    match rarity {
        Rarity::Common => 3,
        Rarity::Uncommon => 2,
        Rarity::Rare => 1,
    }
}

/// Whether a card can be drawn: it belongs to the stage and its id was not used.
pub open spec fn is_eligible(card: EventCardView, stage: Stage, used: Seq<Seq<char>>) -> bool {
    card.stages.contains(stage) && !used.contains(card.id)
}

/// The positions in `events` of the cards that can be drawn, in rising order.
pub open spec fn eligible_indices(
    events: Seq<EventCardView>,
    stage: Stage,
    used: Seq<Seq<char>>,
) -> Seq<int>
    decreases events.len(),
{
    if events.len() == 0 {
        Seq::empty()
    } else {
        let rest = eligible_indices(events.drop_last(), stage, used);
        if is_eligible(events.last(), stage, used) {
            rest.push(events.len() - 1)
        } else {
            rest
        }
    }
}

/// The eligible positions are exactly the positions of eligible cards, each
/// listed once and in rising order.
pub proof fn lemma_eligible_indices(events: Seq<EventCardView>, stage: Stage, used: Seq<Seq<char>>)
    ensures
        forall|k: int|
            0 <= k < eligible_indices(events, stage, used).len() ==> {
                let i = #[trigger] eligible_indices(events, stage, used)[k];
                0 <= i < events.len() && is_eligible(events[i], stage, used)
            },
        forall|j: int, k: int|
            0 <= j < k < eligible_indices(events, stage, used).len() ==> eligible_indices(
                events,
                stage,
                used,
            )[j] < eligible_indices(events, stage, used)[k],
        forall|i: int|
            0 <= i < events.len() && is_eligible(#[trigger] events[i], stage, used)
                ==> eligible_indices(events, stage, used).contains(i),
        eligible_indices(events, stage, used).len() <= events.len(),
    decreases events.len(),
{
    if events.len() > 0 {
        let front = events.drop_last();
        let rest = eligible_indices(front, stage, used);
        let all = eligible_indices(events, stage, used);
        lemma_eligible_indices(front, stage, used);
        assert forall|k: int| 0 <= k < all.len() implies {
            let i = #[trigger] all[k];
            0 <= i < events.len() && is_eligible(events[i], stage, used)
        } by {
            if k < rest.len() {
                assert(all[k] == rest[k]);
                assert(front[rest[k]] == events[rest[k]]);
            }
        }
        assert forall|j: int, k: int| 0 <= j < k < all.len() implies all[j] < all[k] by {
            assert(all[j] == rest[j]);
            if k < rest.len() {
                assert(all[k] == rest[k]);
            }
        }
        assert forall|i: int|
            0 <= i < events.len() && is_eligible(#[trigger] events[i], stage, used) implies all.contains(
            i,
        ) by {
            if i < front.len() {
                assert(front[i] == events[i]);
                assert(rest.contains(i));
                let k = choose|k: int| 0 <= k < rest.len() && rest[k] == i;
                assert(all[k] == i);
            } else {
                assert(all[all.len() - 1] == i);
            }
        }
    }
}

/// The sum of the numbers.
pub open spec fn sum(ws: Seq<int>) -> int
    decreases ws.len(),
{
    if ws.len() == 0 {
        0
    } else {
        sum(ws.drop_last()) + ws.last()
    }
}

/// The number from 0 to 2^53 - 1 that a raw 64-bit value stands for: its upper 53 bits.
pub open spec fn unit_of(raw: u64) -> int {
    raw as int / 2048
}

/// The roll of a raw value against a total weight, scaled by 2^53.
pub open spec fn roll_of(raw: u64, total: int) -> int {
    unit_of(raw) * total
}

/// The walk over the weights: each weight in turn is taken from the roll, and
/// the walk stops at the first position where nothing is left of the roll. It
/// stops at the last position in any case. The roll and the weights are whole
/// numbers; a weight counts 2^53 times.
pub open spec fn pick(ws: Seq<int>, roll: int) -> int
    decreases ws.len(),
{
    if ws.len() <= 1 || roll <= 0x20_0000_0000_0000 * ws[0] {
        0
    } else {
        1 + pick(ws.skip(1), roll - 0x20_0000_0000_0000 * ws[0])
    }
}

/// The walk stops at a position of the sequence.
pub proof fn lemma_pick_in_bounds(ws: Seq<int>, roll: int)
    requires
        ws.len() > 0,
    ensures
        0 <= pick(ws, roll) < ws.len(),
    decreases ws.len(),
{
    if !(ws.len() <= 1 || roll <= 0x20_0000_0000_0000 * ws[0]) {
        lemma_pick_in_bounds(ws.skip(1), roll - 0x20_0000_0000_0000 * ws[0]);
    }
}

/// The sum of a sequence is its first number and the sum of the rest.
pub proof fn lemma_sum_front(ws: Seq<int>)
    requires
        ws.len() > 0,
    ensures
        sum(ws) == ws[0] + sum(ws.skip(1)),
    decreases ws.len(),
{
    if ws.len() == 1 {
        assert(ws.drop_last() =~= Seq::empty());
        assert(ws.skip(1) =~= Seq::empty());
    } else {
        lemma_sum_front(ws.drop_last());
        assert(ws.drop_last().skip(1) =~= ws.skip(1).drop_last());
        assert(ws.drop_last()[0] == ws[0]);
        assert(ws.skip(1).last() == ws.last());
    }
}

/// The walk picks by intervals: with a roll below the total weight, position
/// `k` is picked exactly for the rolls above the sum of the weights before `k`,
/// up to and with the sum that includes the weight at `k`. So the share of the
/// rolls that pick a card is its weight over the total, and the walk never has
/// to fall back on the last card.
pub proof fn lemma_pick_interval(ws: Seq<int>, roll: int)
    requires
        ws.len() > 0,
        forall|i: int| 0 <= i < ws.len() ==> ws[i] > 0,
        0 <= roll <= 0x20_0000_0000_0000 * sum(ws),
    ensures
        roll <= 0x20_0000_0000_0000 * sum(ws.take(pick(ws, roll) + 1)),
        pick(ws, roll) > 0 ==> roll > 0x20_0000_0000_0000 * sum(ws.take(pick(ws, roll))),
    decreases ws.len(),
{
    let k = pick(ws, roll);
    lemma_pick_in_bounds(ws, roll);
    lemma_sum_front(ws);
    if ws.len() == 1 {
        assert(ws.take(1) =~= ws);
    } else if roll <= 0x20_0000_0000_0000 * ws[0] {
        assert(ws.take(1).drop_last() =~= Seq::empty());
        assert(ws.take(1).last() == ws[0]);
        assert(sum(ws.take(1).drop_last()) == 0);
        assert(sum(ws.take(1)) == ws[0]);
    } else {
        let rest = ws.skip(1);
        let r = roll - 0x20_0000_0000_0000 * ws[0];
        lemma_pick_interval(rest, r);
        let j = pick(rest, r);
        lemma_pick_in_bounds(rest, r);
        assert(k == j + 1);
        lemma_sum_front(ws.take(k + 1));
        assert(ws.take(k + 1).skip(1) =~= rest.take(j + 1));
        lemma_sum_front(ws.take(k));
        assert(ws.take(k).skip(1) =~= rest.take(j));
        if j == 0 {
            assert(rest.take(0) =~= Seq::empty());
        }
    }
}

/// The weights of the cards at the positions `idx`.
pub open spec fn weights_at(events: Seq<EventCardView>, idx: Seq<int>) -> Seq<int> {
    Seq::new(idx.len(), |k: int| rarity_weight_spec(events[idx[k]].rarity))
}

/// The position in `events` of the card that the raw value draws, if a card can be drawn.
pub open spec fn drawn_index(
    events: Seq<EventCardView>,
    stage: Stage,
    used: Seq<Seq<char>>,
    raw: u64,
) -> Option<int> {
    let idx = eligible_indices(events, stage, used);
    if idx.len() == 0 {
        None
    } else {
        let ws = weights_at(events, idx);
        Some(idx[pick(ws, roll_of(raw, sum(ws)))])
    }
}

/// The card that the raw value draws, if a card can be drawn.
pub open spec fn drawn_card(
    events: Seq<EventCard>,
    stage: Stage,
    used: Seq<Seq<char>>,
    raw: u64,
) -> Option<EventCard> {
    match drawn_index(seq_view(events), stage, used, raw) {
        Some(i) => Some(events[i]),
        None => None,
    }
}

/// A drawn card lies in the deck, belongs to the stage and was not used before.
pub proof fn lemma_drawn_index_eligible(
    events: Seq<EventCardView>,
    stage: Stage,
    used: Seq<Seq<char>>,
    raw: u64,
)
    ensures
        drawn_index(events, stage, used, raw) matches Some(i) ==> 0 <= i < events.len()
            && is_eligible(events[i], stage, used),
        drawn_index(events, stage, used, raw) is None <==> eligible_indices(
            events,
            stage,
            used,
        ).len() == 0,
{
    let idx = eligible_indices(events, stage, used);
    if idx.len() > 0 {
        let ws = weights_at(events, idx);
        lemma_pick_in_bounds(ws, roll_of(raw, sum(ws)));
        lemma_eligible_indices(events, stage, used);
    }
}

/// The card that is referred to, if there is one.
pub open spec fn opt_deref(card: Option<&EventCard>) -> Option<EventCard> {
    match card {
        Some(c) => Some(*c),
        None => None,
    }
}

/// The weights of the cards.
pub open spec fn card_weights(cards: Seq<&EventCard>) -> Seq<int> {
    Seq::new(cards.len(), |k: int| rarity_weight_spec(cards[k].rarity))
}

/// Whether `cards` are the cards of `events` at the positions `idx`.
pub open spec fn cards_at(cards: Seq<&EventCard>, events: Seq<EventCard>, idx: Seq<int>) -> bool {
    &&& cards.len() == idx.len()
    &&& forall|k: int| 0 <= k < idx.len() ==> 0 <= #[trigger] idx[k] < events.len()
    &&& forall|k: int| 0 <= k < idx.len() ==> *(#[trigger] cards[k]) == events[idx[k]]
}

/// The cards of the stage whose ids were not used, in the order of `all_events`.
/// No randomness is consumed.
pub fn available_events<'a>(
    all_events: &'a [EventCard],
    stage: &Stage,
    used_ids: &[String],
) -> (available: Vec<&'a EventCard>)
    ensures
        cards_at(
            available@,
            all_events@,
            eligible_indices(seq_view(all_events@), *stage, seq_view(used_ids@)),
        ),
{
    let ghost events = seq_view(all_events@);
    let ghost used = seq_view(used_ids@);
    let mut available: Vec<&'a EventCard> = Vec::new();
    let mut i: usize = 0;
    assert(events.take(0) =~= Seq::empty());
    while i < all_events.len()
        invariant
            i <= all_events@.len(),
            events == seq_view(all_events@),
            used == seq_view(used_ids@),
            cards_at(available@, all_events@, eligible_indices(events.take(i as int), *stage, used)),
        decreases all_events@.len() - i,
    {
        let card = &all_events[i];
        let ghost before = eligible_indices(events.take(i as int), *stage, used);
        assert(events.take(i + 1).drop_last() =~= events.take(i as int));
        assert(events.take(i + 1).last() == card@);
        if stages_contain(&card.stages, *stage) && !strings_contain(used_ids, &card.id) {
            available.push(card);
            proof {
                let after = before.push(i as int);
                assert forall|k: int| 0 <= k < after.len() implies *(#[trigger] available@[k])
                    == all_events@[after[k]] by {
                    if k < before.len() {
                        assert(after[k] == before[k]);
                    }
                }
            }
        }
        i += 1;
    }
    assert(events.take(all_events@.len() as int) =~= events);
    available
}

/// The position among the cards on which the walk with the raw value stops.
fn pick_position(cards: &Vec<&EventCard>, raw: u64) -> (k: usize)
    requires
        cards@.len() > 0,
    ensures
        k < cards@.len(),
        k == pick(card_weights(cards@), roll_of(raw, sum(card_weights(cards@)))),
{
    let ghost ws = card_weights(cards@);
    let mut total: u128 = 0;
    let mut i: usize = 0;
    assert(ws.take(0) =~= Seq::empty());
    while i < cards.len()
        invariant
            i <= cards@.len(),
            ws == card_weights(cards@),
            total == sum(ws.take(i as int)),
            total <= 3 * i,
        decreases cards@.len() - i,
    {
        assert(ws.take(i + 1).drop_last() =~= ws.take(i as int));
        assert(ws.take(i + 1).last() == ws[i as int]);
        total = total + rarity_weight(&cards[i].rarity) as u128;
        i += 1;
    }
    assert(ws.take(cards@.len() as int) =~= ws);
    let unit: u64 = raw >> 11;
    assert(unit == raw / 2048 && unit < 0x20_0000_0000_0000) by (bit_vector)
        requires
            unit == raw >> 11,
    ;
    assert(unit as int * total as int <= 0x20_0000_0000_0000 * (3 * 0x1_0000_0000_0000_0000))
        by (nonlinear_arith)
        requires
            0 <= unit < 0x20_0000_0000_0000,
            0 <= total <= 3 * 0x1_0000_0000_0000_0000,
    ;
    let mut rest: u128 = unit as u128 * total;
    let mut k: usize = 0;
    assert(ws.skip(0) =~= ws);
    proof {
        lemma_pick_in_bounds(ws, rest as int);
    }
    while k < cards.len() - 1
        invariant
            k < cards@.len(),
            ws == card_weights(cards@),
            pick(ws, roll_of(raw, sum(ws))) == k + pick(ws.skip(k as int), rest as int),
        decreases cards@.len() - k,
    {
        let ghost tail = ws.skip(k as int);
        assert(tail[0] == ws[k as int]);
        assert(tail.skip(1) =~= ws.skip(k + 1));
        let step: u128 = UNIT * rarity_weight(&cards[k].rarity) as u128;
        if rest <= step {
            return k;
        }
        rest = rest - step;
        k += 1;
    }
    assert(ws.skip(k as int).len() == 1);
    k
}

/// The card that the raw 64-bit value draws: among the cards of the stage whose
/// ids were not used, the one on which the walk stops; none if there is no such card.
pub fn pick_event<'a>(
    all_events: &'a [EventCard],
    stage: &Stage,
    used_ids: &[String],
    raw: u64,
) -> (card: Option<&'a EventCard>)
    ensures
        opt_deref(card) == drawn_card(all_events@, *stage, seq_view(used_ids@), raw),
        card matches Some(c) ==> c@.stages.contains(*stage) && !seq_view(used_ids@).contains(c@.id),
{
    let available = available_events(all_events, stage, used_ids);
    if available.len() == 0 {
        return None;
    }
    let k = pick_position(&available, raw);
    proof {
        let events = seq_view(all_events@);
        let idx = eligible_indices(events, *stage, seq_view(used_ids@));
        assert(card_weights(available@) =~= weights_at(events, idx));
        lemma_drawn_index_eligible(events, *stage, seq_view(used_ids@), raw);
    }
    Some(available[k])
}

/// Draws a card of the stage whose id was not used, weighted by rarity. With no
/// such card nothing is drawn and the random stream is left as it is; otherwise
/// exactly one value is taken from the stream.
pub fn draw_event<'a>(
    all_events: &'a [EventCard],
    stage: &Stage,
    used_ids: &[String],
    rng: &mut GameRng,
) -> (card: Option<&'a EventCard>)
    ensures
        opt_deref(card) == drawn_card(
            all_events@,
            *stage,
            seq_view(used_ids@),
            next_value(old(rng)@),
        ),
        card is None ==> *final(rng) == *old(rng),
        card is Some ==> final(rng)@ == advanced(old(rng)@),
        card matches Some(c) ==> c@.stages.contains(*stage) && !seq_view(used_ids@).contains(c@.id),
{
    let available = available_events(all_events, stage, used_ids);
    if available.len() == 0 {
        return None;
    }
    let raw = rng.next_u64();
    let k = pick_position(&available, raw);
    proof {
        let events = seq_view(all_events@);
        let idx = eligible_indices(events, *stage, seq_view(used_ids@));
        assert(card_weights(available@) =~= weights_at(events, idx));
        lemma_drawn_index_eligible(events, *stage, seq_view(used_ids@), raw);
    }
    Some(available[k])
}

/// Same-stream determinism of the draw: two streams with the same seed at the
/// same position draw the same card from the same deck, and are at the same
/// position afterwards.
pub proof fn lemma_same_stream_same_card(
    events: Seq<EventCard>,
    stage: Stage,
    used: Seq<Seq<char>>,
    a: GameRngView,
    b: GameRngView,
)
    requires
        a.seed == b.seed,
        a.word_pos == b.word_pos,
    ensures
        drawn_card(events, stage, used, next_value(a)) == drawn_card(
            events,
            stage,
            used,
            next_value(b),
        ),
        advanced(a) == advanced(b),
{
}

/// No repeat: a card that is drawn has an id that is not among the used ids.
pub proof fn lemma_drawn_card_unused(
    events: Seq<EventCard>,
    stage: Stage,
    used: Seq<Seq<char>>,
    raw: u64,
)
    ensures
        drawn_card(events, stage, used, raw) matches Some(c) ==> !used.contains(c@.id)
            && c@.stages.contains(stage),
{
    lemma_drawn_index_eligible(seq_view(events), stage, used, raw);
}

/// The sum of the weights before position `k`, scaled by 2^53; for the first
/// position a number below every roll.
pub open spec fn lower_edge(ws: Seq<int>, k: int) -> int {
    if k == 0 {
        -1
    } else {
        0x20_0000_0000_0000 * sum(ws.take(k))
    }
}

/// The sum of the weights up to and with position `k`, scaled by 2^53.
pub open spec fn upper_edge(ws: Seq<int>, k: int) -> int {
    0x20_0000_0000_0000 * sum(ws.take(k + 1))
}

/// The sums of the leading weights rise with the number of weights.
pub proof fn lemma_sum_take_rises(ws: Seq<int>, j: int, k: int)
    requires
        forall|i: int| 0 <= i < ws.len() ==> ws[i] > 0,
        0 <= j <= k <= ws.len(),
    ensures
        sum(ws.take(j)) <= sum(ws.take(k)),
        j < k ==> sum(ws.take(j)) < sum(ws.take(k)),
    decreases k - j,
{
    if j < k {
        lemma_sum_take_rises(ws, j, k - 1);
        assert(ws.take(k).drop_last() =~= ws.take(k - 1));
        assert(ws.take(k).last() == ws[k - 1]);
    }
}

/// Rarity bias: with a roll that is not above the total weight, the walk stops
/// at position `k` exactly for the rolls above the lower edge of `k` and not
/// above its upper edge. The edges of a card lie its weight times 2^53 apart,
/// so a common card is picked by three rolls where an uncommon card is picked
/// by two and a rare card by one.
pub proof fn lemma_pick_by_interval(ws: Seq<int>, roll: int, k: int)
    requires
        forall|i: int| 0 <= i < ws.len() ==> ws[i] > 0,
        0 <= roll <= 0x20_0000_0000_0000 * sum(ws),
        0 <= k < ws.len(),
    ensures
        pick(ws, roll) == k <==> lower_edge(ws, k) < roll <= upper_edge(ws, k),
        k > 0 ==> upper_edge(ws, k) - lower_edge(ws, k) == 0x20_0000_0000_0000 * ws[k],
        rarity_weight_spec(Rarity::Common) > rarity_weight_spec(Rarity::Uncommon)
            > rarity_weight_spec(Rarity::Rare) > 0,
{
    let p = pick(ws, roll);
    lemma_pick_in_bounds(ws, roll);
    lemma_pick_interval(ws, roll);
    assert(ws.take(k + 1).drop_last() =~= ws.take(k));
    assert(ws.take(k + 1).last() == ws[k]);
    if p < k {
        lemma_sum_take_rises(ws, p + 1, k);
    } else if p > k {
        lemma_sum_take_rises(ws, k + 1, p);
    }
}

/// The first of the numbers from 0 to 2^53 - 1 that pick position `k` as the
/// upper 53 bits of a raw value.
pub open spec fn first_unit(ws: Seq<int>, k: int) -> int {
    if k == 0 {
        0
    } else {
        (0x20_0000_0000_0000 * sum(ws.take(k))) / sum(ws) + 1
    }
}

/// The last of the numbers from 0 to 2^53 - 1 that pick position `k` as the
/// upper 53 bits of a raw value.
pub open spec fn last_unit(ws: Seq<int>, k: int) -> int {
    if k == ws.len() - 1 {
        0x20_0000_0000_0000 - 1
    } else {
        (0x20_0000_0000_0000 * sum(ws.take(k + 1))) / sum(ws)
    }
}

/// How many of the numbers from 0 to 2^53 - 1 pick position `k`.
pub open spec fn unit_count(ws: Seq<int>, k: int) -> int {
    last_unit(ws, k) - first_unit(ws, k) + 1
}

/// The whole part of `x` over `t` is the greatest number whose `t`-fold is not above `x`.
pub proof fn lemma_whole_part(x: int, t: int, u: int)
    requires
        0 <= x,
        0 < t,
    ensures
        u * t <= x <==> u <= x / t,
        0 <= x / t,
{
    vstd::arithmetic::div_mod::lemma_fundamental_div_mod(x, t);
    vstd::arithmetic::div_mod::lemma_mod_bound(x, t);
    let q = x / t;
    let r = x % t;
    assert(0 <= q) by (nonlinear_arith)
        requires
            x == t * q + r,
            0 <= r < t,
            0 <= x,
            0 < t,
    ;
    if u <= q {
        assert(u * t <= x) by (nonlinear_arith)
            requires
                u <= q,
                x == t * q + r,
                0 <= r,
                0 < t,
        ;
    } else {
        assert(u * t > x) by (nonlinear_arith)
            requires
                u >= q + 1,
                x == t * q + r,
                r < t,
                0 < t,
        ;
    }
}

/// The whole part of a sum over `t` is the sum of the whole parts, or one more.
pub proof fn lemma_whole_part_of_sum(a: int, b: int, t: int)
    requires
        0 <= a,
        0 <= b,
        0 < t,
    ensures
        a / t + b / t <= (a + b) / t <= a / t + b / t + 1,
{
    vstd::arithmetic::div_mod::lemma_fundamental_div_mod(a, t);
    vstd::arithmetic::div_mod::lemma_mod_bound(a, t);
    vstd::arithmetic::div_mod::lemma_fundamental_div_mod(b, t);
    vstd::arithmetic::div_mod::lemma_mod_bound(b, t);
    let q = a / t + b / t;
    assert(q * t <= a + b) by (nonlinear_arith)
        requires
            q == a / t + b / t,
            a == t * (a / t) + a % t,
            b == t * (b / t) + b % t,
            0 <= a % t,
            0 <= b % t,
    ;
    lemma_whole_part(a + b, t, q);
    assert((q + 2) * t > a + b) by (nonlinear_arith)
        requires
            q == a / t + b / t,
            a == t * (a / t) + a % t,
            b == t * (b / t) + b % t,
            a % t < t,
            b % t < t,
    ;
    lemma_whole_part(a + b, t, q + 2);
}

/// The sum of positive weights is positive, and no leading sum is above it.
pub proof fn lemma_sum_positive(ws: Seq<int>, k: int)
    requires
        forall|i: int| 0 <= i < ws.len() ==> ws[i] > 0,
        0 <= k <= ws.len(),
    ensures
        0 <= sum(ws.take(k)) <= sum(ws),
        ws.len() > 0 ==> sum(ws) > 0,
        k < ws.len() ==> sum(ws.take(k)) < sum(ws),
        k < ws.len() ==> sum(ws.take(k + 1)) == sum(ws.take(k)) + ws[k],
{
    assert(ws.take(ws.len() as int) =~= ws);
    assert(ws.take(0) =~= Seq::empty());
    lemma_sum_take_rises(ws, 0, k);
    lemma_sum_take_rises(ws, k, ws.len() as int);
    if k < ws.len() {
        assert(ws.take(k + 1).drop_last() =~= ws.take(k));
        assert(ws.take(k + 1).last() == ws[k]);
    }
}

/// Rarity bias, counted: of the numbers from 0 to 2^53 - 1 that a raw value
/// can hold in its upper 53 bits, those that pick position `k` are the numbers
/// from the first to the last unit of `k`.
pub proof fn lemma_units_that_pick(ws: Seq<int>, k: int, u: int)
    requires
        forall|i: int| 0 <= i < ws.len() ==> ws[i] > 0,
        0 <= k < ws.len(),
        0 <= u < 0x20_0000_0000_0000,
    ensures
        pick(ws, u * sum(ws)) == k <==> first_unit(ws, k) <= u <= last_unit(ws, k),
{
    let t = sum(ws);
    let scale = 0x20_0000_0000_0000int;
    lemma_sum_positive(ws, k);
    lemma_sum_positive(ws, k + 1);
    assert(0 <= u * t <= scale * t) by (nonlinear_arith)
        requires
            0 <= u < scale,
            0 < t,
    ;
    lemma_pick_by_interval(ws, u * t, k);
    let below = scale * sum(ws.take(k));
    let above = scale * sum(ws.take(k + 1));
    assert(0 <= below && 0 <= above) by (nonlinear_arith)
        requires
            below == scale * sum(ws.take(k)),
            above == scale * sum(ws.take(k + 1)),
            0 <= sum(ws.take(k)),
            0 <= sum(ws.take(k + 1)),
            scale > 0,
    ;
    lemma_whole_part(below, t, u);
    lemma_whole_part(above, t, u);
    if k == ws.len() - 1 {
        assert(ws.take(k + 1) =~= ws);
        assert(u * t <= above) by (nonlinear_arith)
            requires
                above == scale * t,
                u < scale,
                0 < t,
        ;
    }
}

/// Rarity bias, compared: in a deck whose total weight is 2^51 at most, a card
/// with a greater weight is picked by more of the numbers from 0 to 2^53 - 1
/// than a card with a smaller weight. So with each of these numbers as likely
/// as any other, a common card is drawn more often than an uncommon card, and an
/// uncommon card more often than a rare one.
pub proof fn lemma_heavier_card_is_picked_more(ws: Seq<int>, j: int, k: int)
    requires
        forall|i: int| 0 <= i < ws.len() ==> ws[i] > 0,
        0 <= j < ws.len(),
        0 <= k < ws.len(),
        ws[j] > ws[k],
        sum(ws) <= 0x8_0000_0000_0000,
    ensures
        unit_count(ws, j) > unit_count(ws, k),
{
    let t = sum(ws);
    let scale = 0x20_0000_0000_0000int;
    lemma_sum_positive(ws, j);
    lemma_sum_positive(ws, k);
    lemma_count_bounds(ws, j);
    lemma_count_bounds(ws, k);
    let light = scale * ws[k];
    let extra = scale * (ws[j] - ws[k]);
    assert(0 <= light && scale <= extra && light + extra == scale * ws[j]) by (nonlinear_arith)
        requires
            light == scale * ws[k],
            extra == scale * (ws[j] - ws[k]),
            ws[k] > 0,
            ws[j] > ws[k],
            scale > 0,
    ;
    lemma_whole_part_of_sum(light, extra, t);
    assert(4 * t <= extra);
    lemma_whole_part(extra, t, 4);
}

/// The number of units that pick a position is the whole part of its weight
/// times 2^53 over the total weight, give or take one.
pub proof fn lemma_count_bounds(ws: Seq<int>, k: int)
    requires
        forall|i: int| 0 <= i < ws.len() ==> ws[i] > 0,
        0 <= k < ws.len(),
    ensures
        (0x20_0000_0000_0000 * ws[k]) / sum(ws) - 1 <= unit_count(ws, k) <= (0x20_0000_0000_0000
            * ws[k]) / sum(ws) + 1,
{
    let t = sum(ws);
    let scale = 0x20_0000_0000_0000int;
    lemma_sum_positive(ws, k);
    lemma_sum_positive(ws, k + 1);
    let below = scale * sum(ws.take(k));
    let width = scale * ws[k];
    let above = scale * sum(ws.take(k + 1));
    assert(0 <= below && 0 <= width && above == below + width) by (nonlinear_arith)
        requires
            below == scale * sum(ws.take(k)),
            width == scale * ws[k],
            above == scale * sum(ws.take(k + 1)),
            sum(ws.take(k + 1)) == sum(ws.take(k)) + ws[k],
            0 <= sum(ws.take(k)),
            0 < ws[k],
            scale > 0,
    ;
    lemma_whole_part_of_sum(below, width, t);
    if k == 0 {
        assert(ws.take(0) =~= Seq::empty());
        assert(below == 0);
        assert(below / t == 0) by {
            lemma_whole_part(0, t, 0);
            lemma_whole_part(0, t, 1);
        }
    }
    if k == ws.len() - 1 {
        assert(ws.take(k + 1) =~= ws);
        assert(above == scale * t);
        assert(above / t == scale) by {
            lemma_whole_part(above, t, scale);
            lemma_whole_part(above, t, scale + 1);
            assert(scale * t <= above && (scale + 1) * t > above) by (nonlinear_arith)
                requires
                    above == scale * t,
                    0 < t,
            ;
        }
    }
}

} // verus!
