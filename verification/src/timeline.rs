//! The timeline of a game: the decisions with the greatest impact, in the
//! order in which they were taken.
//!
//! The impact of a decision is read from the impact summary of its log entry:
//! the summary is cut at each comma with a space behind it, and of each piece
//! the last word counts, if it is a whole number that an `i32` can hold.

use crate::engine::game_state::{DecisionEntry, DecisionEntryView};
use crate::engine::turn_runner::{impact_part, impact_parts, impact_text, stat_name};
use crate::models::event::{StatEffectView, StatType};
use crate::models::{lemma_seq_view_push, seq_view};
use crate::text::{decimal, digit_char, joined, signed};
use vstd::prelude::*;
use vstd::string::StrSliceExecFns;

verus! {

/// How many decisions the timeline shows at most.
pub const TIMELINE_LENGTH: usize = 8;

/// Whether a character is white space.
pub open spec fn is_space_spec(c: char) -> bool {
    let u = c as u32;
    ||| 0x09 <= u <= 0x0D
    ||| u == 0x20
    ||| u == 0x85
    ||| u == 0xA0
    ||| u == 0x1680
    ||| 0x2000 <= u <= 0x200A
    ||| u == 0x2028
    ||| u == 0x2029
    ||| u == 0x202F
    ||| u == 0x205F
    ||| u == 0x3000
}

/// Whether a character is one of the digits `0` to `9`.
pub open spec fn is_digit_spec(c: char) -> bool {
    48 <= c as u32 <= 57
}

/// The value of a digit.
pub open spec fn digit_of(c: char) -> int {
    c as u32 - 48
}

/// Whether all characters are digits.
pub open spec fn all_digits(d: Seq<char>) -> bool {
    forall|i: int| 0 <= i < d.len() ==> is_digit_spec(#[trigger] d[i])
}

/// The number that the digits write in decimal.
pub open spec fn digits_value(d: Seq<char>) -> int
    decreases d.len(),
{
    if d.len() == 0 {
        0
    } else {
        10 * digits_value(d.drop_last()) + digit_of(d.last())
    }
}

/// The digits of a word: all of it but a leading sign.
pub open spec fn unsigned_part(word: Seq<char>) -> Seq<char> {
    if word.len() > 0 && (word[0] == '-' || word[0] == '+') {
        word.skip(1)
    } else {
        word
    }
}

/// The whole number that a word writes: an optional sign and then digits, at
/// least one, with a value that an `i32` can hold. Any other word writes no number.
pub open spec fn parse_i32(word: Seq<char>) -> Option<int> {
    let d = unsigned_part(word);
    let v = if word.len() > 0 && word[0] == '-' {
        -digits_value(d)
    } else {
        digits_value(d)
    };
    if d.len() > 0 && all_digits(d) && i32::MIN <= v <= i32::MAX {
        Some(v)
    } else {
        None
    }
}

/// The piece without the white space at its end.
pub open spec fn trimmed(piece: Seq<char>) -> Seq<char>
    decreases piece.len(),
{
    if piece.len() > 0 && is_space_spec(piece.last()) {
        trimmed(piece.drop_last())
    } else {
        piece
    }
}

/// The characters at the end of the piece back to the last white space.
pub open spec fn end_word(piece: Seq<char>) -> Seq<char>
    decreases piece.len(),
{
    if piece.len() == 0 || is_space_spec(piece.last()) {
        Seq::empty()
    } else {
        end_word(piece.drop_last()).push(piece.last())
    }
}

/// The last word of a piece: what stands between white space; empty if the
/// piece holds nothing but white space.
pub open spec fn last_word(piece: Seq<char>) -> Seq<char> {
    end_word(trimmed(piece))
}

/// What a piece of an impact summary counts: the magnitude of the number that
/// its last word writes, or nothing.
pub open spec fn piece_magnitude(piece: Seq<char>) -> int {
    match parse_i32(last_word(piece)) {
        Some(v) => if v < 0 {
            -v
        } else {
            v
        },
        None => 0,
    }
}

/// Whether a comma with a space behind it stands at position `i`.
pub open spec fn separator_at(t: Seq<char>, i: int) -> bool {
    i + 1 < t.len() && t[i] == ',' && t[i + 1] == ' '
}

/// What the text from `start` on counts, where the piece that begins at
/// `start` holds no separator before `i`.
pub open spec fn magnitude_from(t: Seq<char>, start: int, i: int) -> int
    decreases t.len() - i,
{
    if i >= t.len() {
        piece_magnitude(t.subrange(start, t.len() as int))
    } else if separator_at(t, i) {
        piece_magnitude(t.subrange(start, i)) + magnitude_from(t, i + 2, i + 2)
    } else {
        magnitude_from(t, start, i + 1)
    }
}

/// The impact that an impact summary states: the sum of what its pieces count.
pub open spec fn magnitude(t: Seq<char>) -> int {
    magnitude_from(t, 0, 0)
}

/// Whether a character is white space.
pub fn is_space(c: char) -> (r: bool)
    ensures
        r == is_space_spec(c),
{
    let u = c as u32;
    (0x09 <= u && u <= 0x0D) || u == 0x20 || u == 0x85 || u == 0xA0 || u == 0x1680 || (0x2000 <= u
        && u <= 0x200A) || u == 0x2028 || u == 0x2029 || u == 0x202F || u == 0x205F || u == 0x3000
}

/// The whole number that the characters from `from` to `to` write, if they write one.
pub fn parse_word(chars: &Vec<char>, from: usize, to: usize) -> (r: Option<i64>)
    requires
        from <= to <= chars@.len(),
    ensures
        match r {
            Some(v) => parse_i32(chars@.subrange(from as int, to as int)) == Some(v as int),
            None => parse_i32(chars@.subrange(from as int, to as int)) is None,
        },
{
    let ghost word = chars@.subrange(from as int, to as int);
    if from == to {
        return None;
    }
    let negative = chars[from] == '-';
    let has_sign = negative || chars[from] == '+';
    assert(word[0] == chars@[from as int]);
    let first: usize = if has_sign {
        from + 1
    } else {
        from
    };
    let ghost d = unsigned_part(word);
    assert(d =~= chars@.subrange(first as int, to as int));
    if first == to {
        return None;
    }
    let mut value: u64 = 0;
    let mut too_big = false;
    let mut k: usize = first;
    assert(d.take(0) =~= Seq::empty());
    while k < to
        invariant
            first <= k <= to <= chars@.len(),
            from <= first,
            word == chars@.subrange(from as int, to as int),
            d == unsigned_part(word),
            d == chars@.subrange(first as int, to as int),
            forall|j: int| 0 <= j < k - first ==> is_digit_spec(#[trigger] d[j]),
            too_big == (digits_value(d.take(k - first)) > 0x8000_0000),
            !too_big ==> value == digits_value(d.take(k - first)),
            value <= 0x8000_0000,
            digits_value(d.take(k - first)) >= 0,
        decreases to - k,
    {
        let c = chars[k];
        let u = c as u32;
        assert(d[k - first] == c);
        if u < 48 || u > 57 {
            assert(!is_digit_spec(d[k - first]));
            return None;
        }
        let ghost prefix = d.take(k - first);
        let ghost longer = d.take(k - first + 1);
        assert(longer.drop_last() =~= prefix);
        assert(longer.last() == c);
        if !too_big {
            let next = value * 10 + (u - 48) as u64;
            if next > 0x8000_0000 {
                too_big = true;
            } else {
                value = next;
            }
        }
        k += 1;
    }
    assert(d.take(to - first) =~= d);
    if too_big {
        return None;
    }
    if negative {
        Some(-(value as i64))
    } else if value > 0x7FFF_FFFF {
        None
    } else {
        Some(value as i64)
    }
}

/// What the characters from `from` to `to` count as a piece of an impact summary.
pub fn piece_value(chars: &Vec<char>, from: usize, to: usize) -> (r: u64)
    requires
        from <= to <= chars@.len(),
    ensures
        r == piece_magnitude(chars@.subrange(from as int, to as int)),
        r <= 0x8000_0000,
{
    let ghost piece = chars@.subrange(from as int, to as int);
    let mut e: usize = to;
    while e > from && is_space(chars[e - 1])
        invariant
            from <= e <= to <= chars@.len(),
            piece == chars@.subrange(from as int, to as int),
            trimmed(piece) == trimmed(chars@.subrange(from as int, e as int)),
        decreases e,
    {
        let ghost cur = chars@.subrange(from as int, e as int);
        assert(cur.last() == chars@[e - 1]);
        assert(cur.drop_last() =~= chars@.subrange(from as int, e - 1));
        e -= 1;
    }
    let ghost body = chars@.subrange(from as int, e as int);
    assert(trimmed(piece) == body) by {
        if e > from {
            assert(body.last() == chars@[e - 1]);
        }
    }
    let mut b: usize = e;
    assert(chars@.subrange(e as int, e as int) =~= Seq::empty());
    assert(end_word(body) =~= end_word(body) + Seq::<char>::empty());
    while b > from && !is_space(chars[b - 1])
        invariant
            from <= b <= e <= chars@.len(),
            body == chars@.subrange(from as int, e as int),
            end_word(body) == end_word(chars@.subrange(from as int, b as int)) + chars@.subrange(
                b as int,
                e as int,
            ),
        decreases b,
    {
        let ghost cur = chars@.subrange(from as int, b as int);
        assert(cur.last() == chars@[b - 1]);
        assert(cur.drop_last() =~= chars@.subrange(from as int, b - 1));
        assert(end_word(cur.drop_last()).push(chars@[b - 1]) + chars@.subrange(b as int, e as int)
            =~= end_word(cur.drop_last()) + chars@.subrange(b - 1, e as int));
        b -= 1;
    }
    assert(end_word(body) =~= chars@.subrange(b as int, e as int)) by {
        let cur = chars@.subrange(from as int, b as int);
        if b > from {
            assert(cur.last() == chars@[b - 1]);
        }
        assert(end_word(cur) =~= Seq::empty());
    }
    match parse_word(chars, b, e) {
        Some(v) => if v < 0 {
            (-v) as u64
        } else {
            v as u64
        },
        None => 0,
    }
}

/// The characters of a string.
pub fn chars_of(text: &str) -> (chars: Vec<char>)
    ensures
        chars@ == text@,
{
    let n = text.unicode_len();
    let mut chars: Vec<char> = Vec::new();
    let mut i: usize = 0;
    while i < n
        invariant
            i <= n,
            n == text@.len(),
            chars@ == text@.take(i as int),
        decreases n - i,
    {
        chars.push(text.get_char(i));
        assert(text@.take(i + 1) =~= text@.take(i as int).push(text@[i as int]));
        i += 1;
    }
    assert(text@.take(n as int) =~= text@);
    chars
}

/// The impact that an impact summary states: the summary is cut at each comma
/// with a space behind it; of each piece the last word counts with its
/// magnitude, if it is a whole number that an `i32` can hold.
pub fn impact_magnitude(text: &str) -> (m: u128)
    ensures
        m == magnitude(text@),
        m <= 0x8000_0000_0000_0000_0000_0000,
{
    let chars = chars_of(text);
    let n = chars.len();
    let mut total: u128 = 0;
    let mut start: usize = 0;
    let mut i: usize = 0;
    while i < n
        invariant
            start <= i <= n,
            n == chars@.len(),
            chars@ == text@,
            total <= 0x8000_0000 * i,
            magnitude(text@) == total + magnitude_from(chars@, start as int, i as int),
        decreases n - i,
    {
        if i + 1 < n && chars[i] == ',' && chars[i + 1] == ' ' {
            total = total + piece_value(&chars, start, i) as u128;
            start = i + 2;
            i = i + 2;
        } else {
            i += 1;
        }
    }
    total + piece_value(&chars, start, n) as u128
}

/// Whether position `u` comes before position `v` in the order by key: its key
/// is lower, or the keys are equal and `u` is the earlier position.
pub open spec fn before(keys: Seq<int>, u: int, v: int) -> bool {
    keys[u] < keys[v] || (keys[u] == keys[v] && u < v)
}

/// Where `x` goes into the ordered positions: behind the last position whose
/// key is not above the key of `x`.
pub open spec fn insert_position(sorted: Seq<int>, x: int, keys: Seq<int>) -> int
    decreases sorted.len(),
{
    if sorted.len() == 0 || keys[sorted.last()] <= keys[x] {
        sorted.len() as int
    } else {
        insert_position(sorted.drop_last(), x, keys)
    }
}

/// The first `n` positions of `keys`, ordered by key; positions with equal
/// keys keep their order.
pub open spec fn order_prefix(keys: Seq<int>, n: nat) -> Seq<int>
    decreases n,
{
    if n == 0 {
        Seq::empty()
    } else {
        let sorted = order_prefix(keys, (n - 1) as nat);
        sorted.insert(insert_position(sorted, n - 1, keys), n - 1)
    }
}

/// The positions of `keys`, ordered by key; positions with equal keys keep their order.
pub open spec fn order(keys: Seq<int>) -> Seq<int> {
    order_prefix(keys, keys.len())
}

/// Where `x` goes in lies within the sequence; the key just before it is not
/// above the key of `x`, and all keys from it on are.
pub proof fn lemma_insert_position(sorted: Seq<int>, x: int, keys: Seq<int>)
    ensures
        0 <= insert_position(sorted, x, keys) <= sorted.len(),
        insert_position(sorted, x, keys) > 0 ==> keys[sorted[insert_position(sorted, x, keys) - 1]]
            <= keys[x],
        forall|q: int|
            insert_position(sorted, x, keys) <= q < sorted.len() ==> keys[#[trigger] sorted[q]]
                > keys[x],
    decreases sorted.len(),
{
    if !(sorted.len() == 0 || keys[sorted.last()] <= keys[x]) {
        let front = sorted.drop_last();
        lemma_insert_position(front, x, keys);
        let p = insert_position(front, x, keys);
        assert forall|q: int| p <= q < sorted.len() implies keys[#[trigger] sorted[q]]
            > keys[x] by {
            if q < front.len() {
                assert(front[q] == sorted[q]);
            }
        }
        if p > 0 {
            assert(front[p - 1] == sorted[p - 1]);
        }
    }
}

/// The order of the first `n` positions lists each of them once, and each
/// position listed earlier comes before each position listed later: its key is
/// lower, or the keys are equal and it is the earlier position. So the order is
/// by key, and positions with equal keys keep their order.
pub proof fn lemma_order_prefix(keys: Seq<int>, n: nat)
    requires
        n <= keys.len(),
    ensures
        order_prefix(keys, n).len() == n,
        forall|a: int| 0 <= a < n ==> 0 <= #[trigger] order_prefix(keys, n)[a] < n,
        forall|a: int, b: int|
            0 <= a < b < n ==> before(
                keys,
                #[trigger] order_prefix(keys, n)[a],
                #[trigger] order_prefix(keys, n)[b],
            ),
        forall|i: int| 0 <= i < n ==> order_prefix(keys, n).contains(i),
    decreases n,
{
    if n > 0 {
        let x = n - 1;
        let sorted = order_prefix(keys, (n - 1) as nat);
        lemma_order_prefix(keys, (n - 1) as nat);
        lemma_insert_position(sorted, x, keys);
        let p = insert_position(sorted, x, keys);
        let r = order_prefix(keys, n);
        assert(r == sorted.insert(p, x));
        assert(r.len() == n);
        assert forall|a: int| 0 <= a < n implies r[a] == (if a < p {
            sorted[a]
        } else if a == p {
            x
        } else {
            sorted[a - 1]
        }) by {}
        assert forall|a: int, b: int| 0 <= a < b < n implies before(
            keys,
            #[trigger] r[a],
            #[trigger] r[b],
        ) by {
            if b < p {
            } else if b == p {
                if a < p - 1 {
                    assert(before(keys, sorted[a], sorted[p - 1]));
                }
            } else if a < p {
                assert(before(keys, sorted[a], sorted[b - 1]));
            } else if a == p {
                assert(keys[sorted[b - 1]] > keys[x]);
            } else {
                assert(before(keys, sorted[a - 1], sorted[b - 1]));
            }
        }
        assert forall|i: int| 0 <= i < n implies r.contains(i) by {
            if i == x {
                assert(r[p] == x);
            } else {
                assert(sorted.contains(i));
                let k = choose|k: int| 0 <= k < sorted.len() && sorted[k] == i;
                if k < p {
                    assert(r[k] == i);
                } else {
                    assert(r[k + 1] == i);
                }
            }
        }
    }
}

/// The positions as whole numbers.
pub open spec fn ints(v: Seq<usize>) -> Seq<int> {
    v.map_values(|i: usize| i as int)
}

/// The keys as whole numbers.
pub open spec fn key_ints(v: Seq<i128>) -> Seq<int> {
    v.map_values(|k: i128| k as int)
}

/// Puts position `x` into the ordered positions, behind the last position
/// whose key is not above the key of `x`.
fn insert_ordered(sorted: &mut Vec<usize>, x: usize, keys: &Vec<i128>)
    requires
        x < keys@.len(),
        forall|k: int| 0 <= k < old(sorted)@.len() ==> #[trigger] old(sorted)@[k] < keys@.len(),
    ensures
        ints(final(sorted)@) == ints(old(sorted)@).insert(
            insert_position(ints(old(sorted)@), x as int, key_ints(keys@)),
            x as int,
        ),
        forall|k: int| 0 <= k < final(sorted)@.len() ==> #[trigger] final(sorted)@[k] < keys@.len(),
        final(sorted)@.len() == old(sorted)@.len() + 1,
{
    let ghost all = ints(sorted@);
    let ghost ks = key_ints(keys@);
    let mut p: usize = sorted.len();
    assert(all.take(p as int) =~= all);
    while p > 0 && keys[sorted[p - 1]] > keys[x]
        invariant
            p <= sorted@.len(),
            x < keys@.len(),
            all == ints(sorted@),
            ks == key_ints(keys@),
            forall|k: int| 0 <= k < sorted@.len() ==> #[trigger] sorted@[k] < keys@.len(),
            insert_position(all, x as int, ks) == insert_position(all.take(p as int), x as int, ks),
        decreases p,
    {
        assert(all.take(p as int).last() == sorted@[p - 1]);
        assert(all.take(p as int).drop_last() =~= all.take(p - 1));
        p -= 1;
    }
    proof {
        if p > 0 {
            assert(all.take(p as int).last() == sorted@[p - 1]);
        }
        assert(insert_position(all, x as int, ks) == p);
    }
    sorted.insert(p, x);
    assert(ints(sorted@) =~= all.insert(p as int, x as int));
}

/// The positions of `keys`, ordered by key; positions with equal keys keep their order.
pub fn sort_positions(keys: &Vec<i128>) -> (sorted: Vec<usize>)
    ensures
        ints(sorted@) == order(key_ints(keys@)),
        sorted@.len() == keys@.len(),
        forall|k: int| 0 <= k < sorted@.len() ==> #[trigger] sorted@[k] < keys@.len(),
{
    let mut sorted: Vec<usize> = Vec::new();
    let mut i: usize = 0;
    assert(ints(sorted@) =~= order_prefix(key_ints(keys@), 0));
    while i < keys.len()
        invariant
            i <= keys@.len(),
            ints(sorted@) == order_prefix(key_ints(keys@), i as nat),
            sorted@.len() == i,
            forall|k: int| 0 <= k < sorted@.len() ==> #[trigger] sorted@[k] < keys@.len(),
        decreases keys@.len() - i,
    {
        insert_ordered(&mut sorted, i, keys);
        proof {
            lemma_insert_position(
                order_prefix(key_ints(keys@), i as nat),
                i as int,
                key_ints(keys@),
            );
        }
        i += 1;
    }
    sorted
}

/// The keys of the first ordering: the impact of each entry, negated, so that
/// the greatest impact comes first.
pub open spec fn impact_keys(log: Seq<DecisionEntryView>) -> Seq<int> {
    log.map_values(|e: DecisionEntryView| -magnitude(e.impact))
}

/// How many entries a timeline of `n` decisions shows: all of them, up to 8.
pub open spec fn shown(n: nat) -> nat {
    if n < 8 {
        n
    } else {
        8
    }
}

/// The positions in the log of the entries with the greatest impact, the
/// greatest first; of entries with equal impact the earlier comes first.
pub open spec fn top_positions(log: Seq<DecisionEntryView>) -> Seq<int> {
    order(impact_keys(log)).take(shown(log.len()) as int)
}

/// The keys of the second ordering: the turn of each of the chosen entries.
pub open spec fn turn_keys(log: Seq<DecisionEntryView>, top: Seq<int>) -> Seq<int> {
    top.map_values(|i: int| log[i].turn)
}

/// The positions in the log of the entries that the timeline shows, in the
/// order in which it shows them: the entries with the greatest impact, by turn;
/// of entries of one turn the one with the greater impact comes first.
pub open spec fn timeline_positions(log: Seq<DecisionEntryView>) -> Seq<int> {
    let top = top_positions(log);
    order(turn_keys(log, top)).map_values(|p: int| top[p])
}

/// The entries that the timeline shows, in the order in which it shows them.
pub open spec fn timeline_entries(log: Seq<DecisionEntryView>) -> Seq<DecisionEntryView> {
    timeline_positions(log).map_values(|i: int| log[i])
}

/// The timeline shows up to 8 entries of the log, none of them twice, in
/// rising order of their turns; and no entry that it leaves out has a greater
/// impact than one that it shows.
pub proof fn lemma_timeline(log: Seq<DecisionEntryView>)
    ensures
        timeline_positions(log).len() == shown(log.len()),
        timeline_positions(log).no_duplicates(),
        forall|a: int|
            0 <= a < timeline_positions(log).len() ==> 0 <= #[trigger] timeline_positions(log)[a]
                < log.len(),
        forall|a: int, b: int|
            0 <= a < b < timeline_positions(log).len() ==> log[timeline_positions(log)[a]].turn
                <= log[timeline_positions(log)[b]].turn,
        forall|a: int, i: int|
            0 <= a < timeline_positions(log).len() && 0 <= i < log.len()
                && !timeline_positions(log).contains(i) ==> magnitude(log[i].impact) <= magnitude(
                log[#[trigger] timeline_positions(log)[a]].impact,
            ) || #[trigger] timeline_positions(log).contains(i),
{
    let n = log.len();
    let keys = impact_keys(log);
    let all = order(keys);
    lemma_order_prefix(keys, n);
    let m = shown(n);
    let top = top_positions(log);
    let tkeys = turn_keys(log, top);
    let by_turn = order(tkeys);
    lemma_order_prefix(tkeys, m);
    let r = timeline_positions(log);
    assert forall|a: int| 0 <= a < m implies r[a] == top[by_turn[a]] && top[by_turn[a]]
        == all[by_turn[a]] && 0 <= #[trigger] r[a] < n by {}
    assert forall|a: int, b: int| 0 <= a < m && 0 <= b < m && a != b implies r[a] != r[b] by {
        let (lo, hi) = if a < b {
            (a, b)
        } else {
            (b, a)
        };
        assert(before(tkeys, by_turn[lo], by_turn[hi]));
        assert(by_turn[lo] != by_turn[hi]);
        let (u, v) = if by_turn[lo] < by_turn[hi] {
            (by_turn[lo], by_turn[hi])
        } else {
            (by_turn[hi], by_turn[lo])
        };
        assert(before(keys, all[u], all[v]));
    }
    assert forall|a: int, b: int| 0 <= a < b < m implies log[r[a]].turn <= log[r[b]].turn by {
        assert(before(tkeys, by_turn[a], by_turn[b]));
    }
    assert forall|a: int, i: int|
        0 <= a < r.len() && 0 <= i < n && !r.contains(i) implies magnitude(log[i].impact)
        <= magnitude(log[#[trigger] r[a]].impact) || #[trigger] r.contains(i) by {
        assert(all.contains(i));
        let k = choose|k: int| 0 <= k < all.len() && all[k] == i;
        if k < m {
            assert(by_turn.contains(k));
            let j = choose|j: int| 0 <= j < by_turn.len() && by_turn[j] == k;
            assert(r[j] == i);
            assert(r.contains(i));
        } else {
            assert(before(keys, all[by_turn[a]], all[k]));
        }
    }
}

/// The timeline of a decision log: the entries with the greatest impact, 8 at
/// most, in the order of their turns. Of entries with equal impact the earlier
/// is preferred; of entries of one turn the one with the greater impact comes first.
pub fn timeline(log: &[DecisionEntry]) -> (entries: Vec<DecisionEntry>)
    ensures
        seq_view(entries@) == timeline_entries(seq_view(log@)),
{
    let ghost lv = seq_view(log@);
    let n = log.len();
    let mut keys: Vec<i128> = Vec::new();
    let mut i: usize = 0;
    while i < n
        invariant
            i <= n,
            n == log@.len(),
            lv == seq_view(log@),
            keys@.len() == i,
            key_ints(keys@) == impact_keys(lv).take(i as int),
        decreases n - i,
    {
        let m = impact_magnitude(log[i].impact.as_str());
        let ghost prev = keys@;
        keys.push(-(m as i128));
        proof {
            assert(impact_keys(lv)[i as int] == -magnitude(log@[i as int]@.impact));
            assert forall|j: int| 0 <= j < i + 1 implies key_ints(keys@)[j] == impact_keys(
                lv,
            ).take(i + 1)[j] by {
                if j < i {
                    assert(key_ints(prev)[j] == impact_keys(lv).take(i as int)[j]);
                    assert(keys@[j] == prev[j]);
                }
            }
            assert(key_ints(keys@) =~= impact_keys(lv).take(i + 1));
        }
        i += 1;
    }
    assert(impact_keys(lv).take(n as int) =~= impact_keys(lv));
    let by_impact = sort_positions(&keys);
    let keep: usize = if n < TIMELINE_LENGTH {
        n
    } else {
        TIMELINE_LENGTH
    };
    let ghost top = top_positions(lv);
    let mut turns: Vec<i128> = Vec::new();
    let mut k: usize = 0;
    while k < keep
        invariant
            k <= keep <= n,
            n == log@.len(),
            lv == seq_view(log@),
            top == top_positions(lv),
            keep == shown(n as nat),
            by_impact@.len() == n,
            ints(by_impact@) == order(impact_keys(lv)),
            forall|j: int| 0 <= j < by_impact@.len() ==> #[trigger] by_impact@[j] < n,
            turns@.len() == k,
            key_ints(turns@) == turn_keys(lv, top).take(k as int),
        decreases keep - k,
    {
        assert(top[k as int] == ints(by_impact@)[k as int]);
        let ghost prev = turns@;
        turns.push(log[by_impact[k]].turn as i128);
        proof {
            assert(turn_keys(lv, top)[k as int] == log@[by_impact@[k as int] as int]@.turn);
            assert forall|j: int| 0 <= j < k + 1 implies key_ints(turns@)[j] == turn_keys(
                lv,
                top,
            ).take(k + 1)[j] by {
                if j < k {
                    assert(key_ints(prev)[j] == turn_keys(lv, top).take(k as int)[j]);
                    assert(turns@[j] == prev[j]);
                }
            }
            assert(key_ints(turns@) =~= turn_keys(lv, top).take(k + 1));
        }
        k += 1;
    }
    assert(turn_keys(lv, top).take(keep as int) =~= turn_keys(lv, top));
    let by_turn = sort_positions(&turns);
    let mut entries: Vec<DecisionEntry> = Vec::new();
    let mut k: usize = 0;
    assert(seq_view(entries@) =~= timeline_entries(lv).take(0));
    while k < keep
        invariant
            k <= keep <= n,
            n == log@.len(),
            lv == seq_view(log@),
            top == top_positions(lv),
            keep == shown(n as nat),
            by_impact@.len() == n,
            ints(by_impact@) == order(impact_keys(lv)),
            forall|j: int| 0 <= j < by_impact@.len() ==> #[trigger] by_impact@[j] < n,
            by_turn@.len() == keep,
            ints(by_turn@) == order(turn_keys(lv, top)),
            forall|j: int| 0 <= j < by_turn@.len() ==> #[trigger] by_turn@[j] < keep,
            seq_view(entries@) == timeline_entries(lv).take(k as int),
        decreases keep - k,
    {
        let p = by_turn[k];
        assert(ints(by_turn@)[k as int] == p);
        assert(top[p as int] == ints(by_impact@)[p as int]);
        let entry = log[by_impact[p]].clone();
        proof {
            lemma_seq_view_push(entries@, entry);
            assert(timeline_entries(lv).take(k + 1) =~= timeline_entries(lv).take(k as int).push(
                entry@,
            ));
        }
        entries.push(entry);
        k += 1;
    }
    assert(timeline_entries(lv).take(keep as int) =~= timeline_entries(lv));
    entries
}

/// The decimal digits of a number are digits, at least one, and write the number.
pub proof fn lemma_decimal_digits(n: nat)
    ensures
        decimal(n).len() >= 1,
        all_digits(decimal(n)),
        digits_value(decimal(n)) == n,
    decreases n,
{
    if n < 10 {
        let d = decimal(n);
        assert(d.drop_last() =~= Seq::empty());
        assert(digits_value(d.drop_last()) == 0);
        assert(d.last() == digit_char(n as int));
    } else {
        lemma_decimal_digits(n / 10);
        let d = decimal(n);
        assert(d.drop_last() =~= decimal(n / 10));
        assert(d.last() == digit_char((n % 10) as int));
        assert forall|i: int| 0 <= i < d.len() implies is_digit_spec(#[trigger] d[i]) by {
            if i < d.len() - 1 {
                assert(d[i] == decimal(n / 10)[i]);
            }
        }
    }
}

/// A number written with its sign is read back as the same number.
pub proof fn lemma_signed_round_trip(v: int)
    requires
        i32::MIN <= v <= i32::MAX,
    ensures
        parse_i32(signed(v)) == Some(v),
        signed(v).len() >= 2,
        forall|i: int| 0 <= i < signed(v).len() ==> !is_space_spec(#[trigger] signed(v)[i]),
        forall|i: int| 0 <= i < signed(v).len() ==> #[trigger] signed(v)[i] != ',',
{
    let n: nat = if v < 0 {
        (-v) as nat
    } else {
        v as nat
    };
    lemma_decimal_digits(n);
    let w = signed(v);
    assert(unsigned_part(w) =~= decimal(n));
    assert forall|i: int| 0 <= i < w.len() implies !is_space_spec(#[trigger] w[i]) && w[i]
        != ',' by {
        if i > 0 {
            assert(w[i] == decimal(n)[i - 1]);
            assert(is_digit_spec(decimal(n)[i - 1]));
        }
    }
}

/// Behind white space, or at the start, a word without white space is the end word.
pub proof fn lemma_end_word(front: Seq<char>, word: Seq<char>)
    requires
        front.len() == 0 || is_space_spec(front.last()),
        forall|i: int| 0 <= i < word.len() ==> !is_space_spec(#[trigger] word[i]),
    ensures
        end_word(front + word) == word,
    decreases word.len(),
{
    let all = front + word;
    if word.len() == 0 {
        assert(all =~= front);
        assert(end_word(all) =~= word);
    } else {
        lemma_end_word(front, word.drop_last());
        assert(all.drop_last() =~= front + word.drop_last());
        assert(all.last() == word.last());
        assert(end_word(all) =~= word);
    }
}

/// The summary of one effect holds no comma, and counts the magnitude of the
/// effect's delta.
pub proof fn lemma_impact_part(e: StatEffectView)
    requires
        i32::MIN <= e.delta <= i32::MAX,
    ensures
        forall|i: int| 0 <= i < impact_part(e).len() ==> #[trigger] impact_part(e)[i] != ',',
        piece_magnitude(impact_part(e)) == if e.delta < 0 {
            -e.delta
        } else {
            e.delta
        },
{
    reveal_strlit("Money");
    reveal_strlit("Stress");
    reveal_strlit("Support");
    reveal_strlit("TimeSlots");
    reveal_strlit("Credentials");
    reveal_strlit(" ");
    lemma_signed_round_trip(e.delta);
    let name = stat_name(e.stat);
    let word = signed(e.delta);
    let front = name + " "@;
    let part = impact_part(e);
    assert(part =~= front + word);
    assert(front.last() == ' ');
    assert(part.last() == word.last());
    assert(trimmed(part) == part);
    lemma_end_word(front, word);
    assert forall|i: int| 0 <= i < part.len() implies #[trigger] part[i] != ',' by {
        if i < name.len() {
            assert(part[i] == name[i]);
        } else if i == name.len() {
            assert(part[i] == ' ');
        } else {
            assert(part[i] == word[i - name.len() - 1]);
        }
    }
}

/// Parts joined are the first part, the separator and the other parts joined.
pub proof fn lemma_joined_front(parts: Seq<Seq<char>>, sep: Seq<char>)
    requires
        parts.len() >= 2,
    ensures
        joined(parts, sep) == parts[0] + sep + joined(parts.skip(1), sep),
    decreases parts.len(),
{
    let rest = parts.skip(1);
    if parts.len() == 2 {
        assert(parts.drop_last() =~= seq![parts[0]]);
        assert(rest =~= seq![parts[1]]);
        assert(joined(parts.drop_last(), sep) == parts[0]);
        assert(joined(rest, sep) == parts[1]);
    } else {
        lemma_joined_front(parts.drop_last(), sep);
        assert(parts.drop_last().skip(1) =~= rest.drop_last());
        assert(parts.drop_last()[0] == parts[0]);
        assert(rest.last() == parts.last());
        assert(joined(parts, sep) =~= parts[0] + sep + joined(rest, sep));
    }
}

/// Where no separator stands from `i` up to `end`, the scan from `i` is the scan from `end`.
pub proof fn lemma_scan_on(t: Seq<char>, start: int, i: int, end: int)
    requires
        0 <= i <= end <= t.len(),
        forall|j: int| i <= j < end ==> !separator_at(t, j),
    ensures
        magnitude_from(t, start, i) == magnitude_from(t, start, end),
    decreases end - i,
{
    if i < end {
        lemma_scan_on(t, start, i + 1, end);
    }
}

/// The sum of what the pieces count.
pub open spec fn pieces_total(parts: Seq<Seq<char>>) -> int
    decreases parts.len(),
{
    if parts.len() == 0 {
        0
    } else {
        piece_magnitude(parts[0]) + pieces_total(parts.skip(1))
    }
}

/// A text that from `start` on is parts without commas, joined by a comma and
/// a space, counts from `start` on what its parts count.
pub proof fn lemma_scan_joined(t: Seq<char>, start: int, parts: Seq<Seq<char>>)
    requires
        0 <= start <= t.len(),
        parts.len() >= 1,
        t.subrange(start, t.len() as int) == joined(parts, ", "@),
        forall|k: int, i: int|
            0 <= k < parts.len() && 0 <= i < parts[k].len() ==> #[trigger] parts[k][i] != ',',
    ensures
        magnitude_from(t, start, start) == pieces_total(parts),
    decreases parts.len(),
{
    reveal_strlit(", ");
    let tail = t.subrange(start, t.len() as int);
    let first = parts[0];
    let rest = parts.skip(1);
    if parts.len() == 1 {
        assert(tail == first);
        assert forall|j: int| start <= j < t.len() implies !separator_at(t, j) by {
            assert(t[j] == tail[j - start]);
        }
        lemma_scan_on(t, start, start, t.len() as int);
        assert(pieces_total(rest) == 0);
    } else {
        lemma_joined_front(parts, ", "@);
        let sep = ", "@;
        let n = first.len() as int;
        let end = start + n;
        assert(tail == first + sep + joined(rest, sep));
        assert(tail.len() >= first.len() + 2);
        assert forall|j: int| start <= j < end implies !separator_at(t, j) by {
            assert(t[j] == tail[j - start]);
            assert(tail[j - start] == first[j - start]);
        }
        lemma_scan_on(t, start, start, end);
        assert(t[end] == tail[n] && tail[n] == sep[0]);
        assert(t[end + 1] == tail[n + 1] && tail[n + 1] == sep[1]);
        assert(separator_at(t, end));
        assert(t.subrange(start, end) =~= first);
        assert(sep.len() == 2);
        assert(tail.len() == n + 2 + joined(rest, sep).len());
        assert(tail.subrange(n + 2, tail.len() as int) =~= joined(rest, sep));
        assert(t.subrange(end + 2, t.len() as int) =~= tail.subrange(n + 2, tail.len() as int));
        assert forall|k: int, i: int|
            0 <= k < rest.len() && 0 <= i < rest[k].len() implies #[trigger] rest[k][i]
            != ',' by {
            assert(rest[k] == parts[k + 1]);
        }
        lemma_scan_joined(t, end + 2, rest);
    }
}

/// The sum of the magnitudes of the deltas of the effects.
pub open spec fn effects_magnitude(es: Seq<StatEffectView>) -> int
    decreases es.len(),
{
    if es.len() == 0 {
        0
    } else {
        (if es[0].delta < 0 {
            -es[0].delta
        } else {
            es[0].delta
        }) + effects_magnitude(es.skip(1))
    }
}

/// The impact that the impact summary of effects states is the sum of the
/// magnitudes of their deltas. So the timeline ranks a decision by how much its
/// option changed, whatever the direction of each change.
pub proof fn lemma_impact_round_trip(es: Seq<StatEffectView>)
    requires
        forall|i: int| 0 <= i < es.len() ==> i32::MIN <= #[trigger] es[i].delta <= i32::MAX,
    ensures
        magnitude(impact_text(es)) == effects_magnitude(es),
{
    let parts = impact_parts(es);
    let t = impact_text(es);
    if es.len() == 0 {
        assert(t =~= Seq::empty());
        assert(t.subrange(0, 0) =~= Seq::empty());
        assert(trimmed(Seq::<char>::empty()) =~= Seq::empty());
        assert(end_word(Seq::<char>::empty()) =~= Seq::empty());
    } else {
        assert forall|k: int, i: int|
            0 <= k < parts.len() && 0 <= i < parts[k].len() implies #[trigger] parts[k][i]
            != ',' by {
            lemma_impact_part(es[k]);
        }
        assert(t.subrange(0, t.len() as int) =~= t);
        lemma_scan_joined(t, 0, parts);
        lemma_pieces_of_effects(es);
    }
}

/// The summaries of effects count, together, the magnitudes of their deltas.
pub proof fn lemma_pieces_of_effects(es: Seq<StatEffectView>)
    requires
        forall|i: int| 0 <= i < es.len() ==> i32::MIN <= #[trigger] es[i].delta <= i32::MAX,
    ensures
        pieces_total(impact_parts(es)) == effects_magnitude(es),
    decreases es.len(),
{
    if es.len() > 0 {
        lemma_impact_part(es[0]);
        assert(impact_parts(es)[0] == impact_part(es[0]));
        assert(impact_parts(es).skip(1) =~= impact_parts(es.skip(1)));
        assert forall|i: int| 0 <= i < es.skip(1).len() implies i32::MIN
            <= #[trigger] es.skip(1)[i].delta <= i32::MAX by {
            assert(es.skip(1)[i] == es[i + 1]);
        }
        lemma_pieces_of_effects(es.skip(1));
    }
}

} // verus!
