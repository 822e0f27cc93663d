use std::collections::HashMap;
use vstd::arithmetic::div_mod::{
    lemma_div_denominator, lemma_fundamental_div_mod, lemma_fundamental_div_mod_converse,
    lemma_mod_pos_bound,
};
use vstd::prelude::*;

verus! {

/// Number of decimal digits of `v`, without leading zeros (0 has one digit).
pub open spec fn num_digits(v: nat) -> nat
    decreases v,
{
    if v < 10 {
        1
    } else {
        1 + num_digits(v / 10)
    }
}

/// `10` raised to the power `k`.
pub open spec fn pow10(k: nat) -> nat
    decreases k,
{
    if k == 0 {
        1
    } else {
        10 * pow10((k - 1) as nat)
    }
}

proof fn lemma_num_digits_le(v: nat)
    requires
        v >= 1,
    ensures
        num_digits(v) <= v,
    decreases v,
{
    if v >= 10 {
        lemma_num_digits_le(v / 10);
    }
}

/// Counts the decimal digits of `v`.
pub fn digit_count(v: u64) -> (d: u64)
    ensures
        d == num_digits(v as nat),
{
    let mut d: u64 = 1;
    let mut x: u64 = v;
    while x >= 10
        invariant
            d >= 1,
            d + num_digits(x as nat) == num_digits(v as nat) + 1,
            x <= v,
        decreases x,
    {
        proof {
            lemma_num_digits_le(v as nat);
            assert(num_digits((x / 10) as nat) >= 1);
            assert(num_digits(x as nat) >= 2);
        }
        x = x / 10;
        d = d + 1;
    }
    d
}

/// Largest count and largest engraved number that the executable code can hold.
pub const LIMIT: i64 = 9223372036854775807;

/// A memo key is `blinks * KEY_SHIFT + number`, for numbers below `KEY_SHIFT`
/// (2 to the 56th): blinks take the top byte, the number the rest.
pub const KEY_SHIFT: u64 = 72057594037927936;

proof fn lemma_pow10_pos(k: nat)
    ensures
        pow10(k) >= 1,
    decreases k,
{
    if k > 0 {
        lemma_pow10_pos((k - 1) as nat);
    }
}

proof fn lemma_pow10_mono(a: nat, b: nat)
    requires
        a <= b,
    ensures
        pow10(a) <= pow10(b),
    decreases b,
{
    if a < b {
        lemma_pow10_mono(a, (b - 1) as nat);
        lemma_pow10_pos((b - 1) as nat);
    }
}

/// The highest power of ten not above `v` has `num_digits(v) - 1` zeros.
proof fn lemma_pow10_num_digits(v: nat)
    requires
        v >= 1,
    ensures
        num_digits(v) >= 1,
        pow10((num_digits(v) - 1) as nat) <= v,
    decreases v,
{
    if v >= 10 {
        lemma_pow10_num_digits(v / 10);
        assert(pow10((num_digits(v) - 1) as nat) == 10 * pow10((num_digits(v / 10) - 1) as nat));
    }
}

/// Computes `10` raised to the power `k`.
fn pow10_exec(k: u64) -> (p: u64)
    requires
        pow10(k as nat) <= u64::MAX,
    ensures
        p == pow10(k as nat),
        p >= 1,
{
    let mut p: u64 = 1;
    let mut i: u64 = 0;
    while i < k
        invariant
            i <= k,
            p == pow10(i as nat),
            pow10(k as nat) <= u64::MAX,
        decreases k - i,
    {
        proof {
            lemma_pow10_mono((i + 1) as nat, k as nat);
        }
        p = p * 10;
        i = i + 1;
    }
    proof {
        lemma_pow10_pos(k as nat);
    }
    p
}

/// The power of ten that splits `v` into two halves of equally many digits.
pub open spec fn half_pow(v: nat) -> nat {
    pow10(num_digits(v) / 2)
}

/// The number formed by the upper half of the digits of `v`.
pub open spec fn left_half(v: nat) -> nat {
    v / half_pow(v)
}

/// The number formed by the lower half of the digits of `v` (leading zeros dropped).
pub open spec fn right_half(v: nat) -> nat {
    v % half_pow(v)
}

/// Whether `v` is a non-zero number with an even count of digits.
pub open spec fn splits(v: nat) -> bool {
    v != 0 && num_digits(v) % 2 == 0
}

proof fn lemma_drop_digits(v: nat, k: nat)
    requires
        k < num_digits(v),
    ensures
        num_digits(v / pow10(k)) == num_digits(v) - k,
    decreases k,
{
    if k == 0 {
        assert(pow10(0) == 1);
        assert(v / 1 == v);
    } else {
        let p = pow10((k - 1) as nat);
        assert(v >= 10);
        lemma_pow10_pos((k - 1) as nat);
        lemma_drop_digits(v / 10, (k - 1) as nat);
        lemma_div_denominator(v as int, 10, p as int);
        assert(pow10(k) == 10 * p);
        assert(v / pow10(k) == (v / 10) / p);
    }
}

/// Splitting a number with an even count of digits: the left half has half
/// of the digits, the right half is below the power of ten that cuts the
/// number, and the halves put back together give the number.
pub proof fn lemma_split_halves(v: nat)
    requires
        splits(v),
    ensures
        num_digits(left_half(v)) == num_digits(v) / 2,
        right_half(v) < half_pow(v),
        left_half(v) * half_pow(v) + right_half(v) == v,
{
    lemma_pow10_pos(num_digits(v) / 2);
    lemma_drop_digits(v, num_digits(v) / 2);
    lemma_fundamental_div_mod(v as int, half_pow(v) as int);
    lemma_mod_pos_bound(v as int, half_pow(v) as int);
    assert(left_half(v) * half_pow(v) == half_pow(v) * left_half(v)) by (nonlinear_arith);
}

/// The stones that one blink turns a stone engraved with `v` into.
pub open spec fn rule(v: nat) -> Seq<nat> {
    if v == 0 {
        seq![1nat]
    } else if splits(v) {
        seq![left_half(v), right_half(v)]
    } else {
        seq![v * 2024]
    }
}

/// How many stones a stone engraved with `v` becomes after `n` blinks.
pub open spec fn stone_count(n: nat, v: nat) -> nat
    decreases n,
{
    if n == 0 {
        1
    } else if v == 0 {
        stone_count((n - 1) as nat, 1)
    } else if splits(v) {
        stone_count((n - 1) as nat, left_half(v)) + stone_count((n - 1) as nat, right_half(v))
    } else {
        stone_count((n - 1) as nat, v * 2024)
    }
}

/// Whether every number engraved during `n` blinks from `v`, and every count
/// of stones met on the way, stays within `LIMIT`.
pub open spec fn in_range(n: nat, v: nat) -> bool
    decreases n,
{
    if n == 0 {
        true
    } else if v == 0 {
        in_range((n - 1) as nat, 1)
    } else if splits(v) {
        &&& in_range((n - 1) as nat, left_half(v))
        &&& in_range((n - 1) as nat, right_half(v))
        &&& stone_count((n - 1) as nat, left_half(v)) + stone_count((n - 1) as nat, right_half(v))
            <= LIMIT
    } else {
        &&& v * 2024 <= LIMIT
        &&& in_range((n - 1) as nat, v * 2024)
    }
}

/// The memo key of `v` with `n` blinks left.
pub open spec fn memo_key(n: nat, v: nat) -> nat {
    n * (KEY_SHIFT as nat) + v
}

/// Blinks left, as recorded in a memo key.
pub open spec fn key_blinks(k: u64) -> nat {
    (k / KEY_SHIFT) as nat
}

/// Engraved number, as recorded in a memo key.
pub open spec fn key_number(k: u64) -> nat {
    (k % KEY_SHIFT) as nat
}

/// Every entry of the memo table holds the count of the key it is filed under.
pub open spec fn memo_valid(m: Map<u64, i64>) -> bool {
    forall|k: u64|
        #[trigger] m.contains_key(k) ==> {
            &&& key_blinks(k) >= 1
            &&& in_range(key_blinks(k), key_number(k))
            &&& m[k] == stone_count(key_blinks(k), key_number(k))
        }
}

proof fn lemma_key_decode(n: nat, v: nat)
    requires
        v < KEY_SHIFT,
        memo_key(n, v) <= u64::MAX,
    ensures
        key_blinks(memo_key(n, v) as u64) == n,
        key_number(memo_key(n, v) as u64) == v,
{
    lemma_fundamental_div_mod_converse(memo_key(n, v) as int, KEY_SHIFT as int, n as int, v as int);
}

/// An entry of a valid memo table holds what a fresh count gives: a second
/// call on the same key returns what the first one filed.
pub proof fn lemma_memo_hit(m: Map<u64, i64>, n: nat, v: nat)
    requires
        memo_valid(m),
        v < KEY_SHIFT,
        memo_key(n, v) <= u64::MAX,
        m.contains_key(memo_key(n, v) as u64),
    ensures
        n >= 1,
        in_range(n, v),
        m[memo_key(n, v) as u64] == stone_count(n, v),
{
    lemma_key_decode(n, v);
}

/// Every key that `new` holds and `old` does not is a pair (blinks left `t`,
/// number `x`) with `1 <= t <= n`, where `x` stands on the row that `n - t`
/// blinks make of `v`: a count files only pairs that it reaches.
pub open spec fn added_keys_reached(old: Map<u64, i64>, new: Map<u64, i64>, n: nat, v: nat) -> bool {
    forall|k: u64|
        #[trigger] new.contains_key(k) && !old.contains_key(k) ==> {
            &&& 1 <= key_blinks(k) <= n
            &&& row_after((n - key_blinks(k)) as nat, seq![v]).contains(key_number(k))
        }
}

proof fn lemma_added_from_child(old: Map<u64, i64>, new: Map<u64, i64>, n: nat, v: nat, c: nat)
    requires
        n >= 1,
        rule(v).contains(c),
        added_keys_reached(old, new, (n - 1) as nat, c),
    ensures
        added_keys_reached(old, new, n, v),
{
    assert forall|k: u64| #[trigger] new.contains_key(k) && !old.contains_key(k) implies {
        &&& 1 <= key_blinks(k) <= n
        &&& row_after((n - key_blinks(k)) as nat, seq![v]).contains(key_number(k))
    } by {
        let m = (n - 1 - key_blinks(k)) as nat;
        lemma_reached_from_child(m, v, c, key_number(k));
        assert((m + 1) as nat == (n - key_blinks(k)) as nat);
    }
}

proof fn lemma_added_trans(a: Map<u64, i64>, b: Map<u64, i64>, c: Map<u64, i64>, n: nat, v: nat)
    requires
        a.submap_of(b),
        added_keys_reached(a, b, n, v),
        added_keys_reached(b, c, n, v),
    ensures
        added_keys_reached(a, c, n, v),
{
    assert forall|k: u64| #[trigger] c.contains_key(k) && !a.contains_key(k) implies {
        &&& 1 <= key_blinks(k) <= n
        &&& row_after((n - key_blinks(k)) as nat, seq![v]).contains(key_number(k))
    } by {
        if b.contains_key(k) {
        } else {
        }
    }
}

/// Counts the stones that a stone engraved with `stone` becomes after `times`
/// blinks, filing counts in `cache` and reusing those filed before.
/// Returns `None` exactly when a number or a count on the way exceeds `LIMIT`.
pub fn blink(times: u8, stone: i64, cache: &mut HashMap<u64, i64>) -> (r: Option<i64>)
    requires
        stone >= 0,
        memo_valid(old(cache)@),
    ensures
        memo_valid(final(cache)@),
        old(cache)@.submap_of(final(cache)@),
        r is Some <==> in_range(times as nat, stone as nat),
        r matches Some(c) ==> c == stone_count(times as nat, stone as nat),
        (times >= 1 && stone < KEY_SHIFT && old(cache)@.contains_key(
            memo_key(times as nat, stone as nat) as u64,
        )) ==> final(cache)@ == old(cache)@,
        (r is Some && times >= 1 && stone < KEY_SHIFT) ==> final(cache)@.contains_key(
            memo_key(times as nat, stone as nat) as u64,
        ),
        times == 0 ==> final(cache)@ == old(cache)@,
        added_keys_reached(old(cache)@, final(cache)@, times as nat, stone as nat),
    decreases times,
{
    broadcast use vstd::std_specs::hash::group_hash_axioms, vstd::map_lib::lemma_submap_of_trans;

    if times == 0 {
        return Some(1);
    }
    let ghost start = cache@;
    let s: u64 = stone as u64;
    let cacheable: bool = s < KEY_SHIFT;
    let mut key: u64 = 0;
    if cacheable {
        key = (times as u64) * KEY_SHIFT + s;
        proof {
            lemma_key_decode(times as nat, s as nat);
        }
        match cache.get(&key) {
            Some(c) => {
                return Some(*c);
            },
            None => {},
        }
    }
    let result: Option<i64> = if s == 0 {
        let r0 = blink(times - 1, 1, cache);
        proof {
            assert(rule(0)[0] == 1);
            lemma_added_from_child(start, cache@, times as nat, 0, 1);
        }
        r0
    } else {
        let d: u64 = digit_count(s);
        if d % 2 == 0 {
            proof {
                lemma_pow10_num_digits(s as nat);
                lemma_pow10_mono((d / 2) as nat, (d - 1) as nat);
            }
            let p: u64 = pow10_exec(d / 2);
            let left: u64 = s / p;
            let right: u64 = s % p;
            proof {
                assert(rule(s as nat)[0] == left as nat);
                assert(rule(s as nat)[1] == right as nat);
            }
            let first = blink(times - 1, left as i64, cache);
            proof {
                lemma_added_from_child(start, cache@, times as nat, s as nat, left as nat);
            }
            match first {
                None => None,
                Some(a) => {
                    let ghost middle = cache@;
                    let second = blink(times - 1, right as i64, cache);
                    proof {
                        lemma_added_from_child(middle, cache@, times as nat, s as nat, right as nat);
                        lemma_added_trans(start, middle, cache@, times as nat, s as nat);
                    }
                    match second {
                        None => None,
                        Some(b) => a.checked_add(b),
                    }
                },
            }
        } else if s > (LIMIT as u64) / 2024 {
            None
        } else {
            let r1 = blink(times - 1, (s * 2024) as i64, cache);
            proof {
                assert(rule(s as nat)[0] == s * 2024);
                lemma_added_from_child(start, cache@, times as nat, s as nat, (s * 2024) as nat);
            }
            r1
        }
    };
    if cacheable {
        if let Some(c) = result {
            proof {
                lemma_key_decode(times as nat, s as nat);
            }
            let ghost before = cache@;
            cache.insert(key, c);
            proof {
                assert(row_after(0, seq![s as nat])[0] == s);
                assert(added_keys_reached(before, cache@, times as nat, s as nat));
                lemma_added_trans(start, before, cache@, times as nat, s as nat);
            }
        }
    }
    result
}

/// How many stones the row `row` becomes after `n` blinks.
pub open spec fn row_count(n: nat, row: Seq<i64>) -> int
    decreases row.len(),
{
    if row.len() == 0 {
        0
    } else {
        row_count(n, row.drop_last()) + stone_count(n, row.last() as nat)
    }
}

/// Whether counting `row` over `n` blinks, stone after stone, stays within `LIMIT`.
pub open spec fn row_in_range(n: nat, row: Seq<i64>) -> bool
    decreases row.len(),
{
    if row.len() == 0 {
        true
    } else {
        &&& row_in_range(n, row.drop_last())
        &&& in_range(n, row.last() as nat)
        &&& row_count(n, row) <= LIMIT
    }
}

proof fn lemma_row_in_range_prefix(n: nat, row: Seq<i64>, i: int)
    requires
        0 <= i <= row.len(),
        row_in_range(n, row),
    ensures
        row_in_range(n, row.take(i)),
    decreases row.len(),
{
    if i == row.len() {
        assert(row.take(i) =~= row);
    } else {
        lemma_row_in_range_prefix(n, row.drop_last(), i);
        assert(row.drop_last().take(i) =~= row.take(i));
    }
}

/// Counts the stones that the row `stones` becomes after `times` blinks,
/// with one memo table shared by all its stones.
/// Returns `None` exactly when a number or a count on the way exceeds `LIMIT`.
pub fn total(times: u8, stones: &Vec<i64>) -> (r: Option<i64>)
    requires
        forall|i: int| 0 <= i < stones.len() ==> stones[i] >= 0,
    ensures
        r is Some <==> row_in_range(times as nat, stones@),
        r matches Some(c) ==> c == row_count(times as nat, stones@),
{
    let mut cache: HashMap<u64, i64> = HashMap::new();
    let mut sum: i64 = 0;
    let mut i: usize = 0;
    while i < stones.len()
        invariant
            i <= stones.len(),
            forall|j: int| 0 <= j < stones.len() ==> stones[j] >= 0,
            memo_valid(cache@),
            row_in_range(times as nat, stones@.take(i as int)),
            sum == row_count(times as nat, stones@.take(i as int)),
        decreases stones.len() - i,
    {
        let ghost prefix = stones@.take(i as int);
        let ghost next = stones@.take(i + 1);
        assert(next.drop_last() =~= prefix);
        let c = blink(times, stones[i], &mut cache);
        match c {
            None => {
                proof {
                    if row_in_range(times as nat, stones@) {
                        lemma_row_in_range_prefix(times as nat, stones@, i + 1);
                    }
                }
                return None;
            },
            Some(c) => match sum.checked_add(c) {
                None => {
                    proof {
                        if row_in_range(times as nat, stones@) {
                            lemma_row_in_range_prefix(times as nat, stones@, i + 1);
                        }
                    }
                    return None;
                },
                Some(t) => {
                    sum = t;
                },
            },
        }
        i = i + 1;
    }
    assert(stones@.take(i as int) =~= stones@);
    Some(sum)
}

/// With no blink left, a stone counts as itself alone.
pub proof fn lemma_no_blink(v: nat)
    ensures
        stone_count(0, v) == 1,
{
}

/// A stone engraved with 0 counts as a stone engraved with 1 one blink later.
pub proof fn lemma_zero_becomes_one(n: nat)
    requires
        n >= 1,
    ensures
        stone_count(n, 0) == stone_count((n - 1) as nat, 1),
{
}

/// A stone with an even count of digits counts as its two halves one blink later.
pub proof fn lemma_even_digits_split(n: nat, v: nat)
    requires
        n >= 1,
        v != 0,
        num_digits(v) % 2 == 0,
    ensures
        stone_count(n, v) == stone_count((n - 1) as nat, left_half(v)) + stone_count(
            (n - 1) as nat,
            right_half(v),
        ),
{
}

/// A non-zero stone with an odd count of digits counts as its number times
/// 2024 one blink later.
pub proof fn lemma_odd_digits_multiply(n: nat, v: nat)
    requires
        n >= 1,
        v != 0,
        num_digits(v) % 2 == 1,
    ensures
        stone_count(n, v) == stone_count((n - 1) as nat, v * 2024),
{
}

/// The row that one blink turns `row` into: each stone replaced, in place,
/// by what `rule` makes of it.
pub open spec fn blink_row(row: Seq<nat>) -> Seq<nat>
    decreases row.len(),
{
    if row.len() == 0 {
        Seq::empty()
    } else {
        blink_row(row.drop_last()) + rule(row.last())
    }
}

/// The row that `n` blinks turn `row` into.
pub open spec fn row_after(n: nat, row: Seq<nat>) -> Seq<nat>
    decreases n,
{
    if n == 0 {
        row
    } else {
        row_after((n - 1) as nat, blink_row(row))
    }
}

proof fn lemma_blink_row_concat(a: Seq<nat>, b: Seq<nat>)
    ensures
        blink_row(a + b) == blink_row(a) + blink_row(b),
    decreases b.len(),
{
    if b.len() == 0 {
        assert(a + b =~= a);
        assert(blink_row(a) + blink_row(b) =~= blink_row(a));
    } else {
        lemma_blink_row_concat(a, b.drop_last());
        assert((a + b).drop_last() =~= a + b.drop_last());
        assert((a + b).last() == b.last());
        assert(blink_row(a + b) =~= blink_row(a) + blink_row(b));
    }
}

proof fn lemma_row_after_concat(n: nat, a: Seq<nat>, b: Seq<nat>)
    ensures
        row_after(n, a + b) == row_after(n, a) + row_after(n, b),
    decreases n,
{
    if n > 0 {
        lemma_blink_row_concat(a, b);
        lemma_row_after_concat((n - 1) as nat, blink_row(a), blink_row(b));
    }
}

/// The counted stones are the stones of the row: after `n` blinks a stone
/// engraved with `v` has become a row of exactly `stone_count(n, v)` stones.
pub proof fn lemma_count_is_row_length(n: nat, v: nat)
    ensures
        stone_count(n, v) == row_after(n, seq![v]).len(),
    decreases n,
{
    if n > 0 {
        let m = (n - 1) as nat;
        lemma_blink_row_single(v);
        if v == 0 {
            lemma_count_is_row_length(m, 1);
        } else if splits(v) {
            lemma_count_is_row_length(m, left_half(v));
            lemma_count_is_row_length(m, right_half(v));
            assert(rule(v) =~= seq![left_half(v)] + seq![right_half(v)]);
            lemma_row_after_concat(m, seq![left_half(v)], seq![right_half(v)]);
        } else {
            lemma_count_is_row_length(m, v * 2024);
        }
    }
}

/// The numbers of a row of stones, as natural numbers.
pub open spec fn row_numbers(row: Seq<i64>) -> Seq<nat> {
    row.map_values(|x: i64| x as nat)
}

proof fn lemma_row_after_empty(n: nat)
    ensures
        row_after(n, Seq::empty()).len() == 0,
    decreases n,
{
    if n > 0 {
        assert(blink_row(Seq::<nat>::empty()) =~= Seq::<nat>::empty());
        lemma_row_after_empty((n - 1) as nat);
    }
}

/// Summing the counts of a row's stones gives the length of the row that
/// `n` blinks make of it.
pub proof fn lemma_row_count_is_row_length(n: nat, row: Seq<i64>)
    requires
        forall|i: int| 0 <= i < row.len() ==> row[i] >= 0,
    ensures
        row_count(n, row) == row_after(n, row_numbers(row)).len(),
    decreases row.len(),
{
    if row.len() == 0 {
        assert(row_numbers(row) =~= Seq::<nat>::empty());
        lemma_row_after_empty(n);
    } else {
        let init = row.drop_last();
        lemma_row_count_is_row_length(n, init);
        assert(row_numbers(row) =~= row_numbers(init) + seq![row.last() as nat]);
        lemma_row_after_concat(n, row_numbers(init), seq![row.last() as nat]);
        lemma_count_is_row_length(n, row.last() as nat);
    }
}

proof fn lemma_blink_row_single(v: nat)
    ensures
        blink_row(seq![v]) == rule(v),
{
    let single = seq![v];
    assert(single.last() == v);
    assert(single.drop_last() =~= Seq::<nat>::empty());
    assert(blink_row(single.drop_last()) =~= Seq::<nat>::empty());
    assert(blink_row(single) =~= rule(v));
}

/// A number on the row that `m` blinks make of `c`, where `c` is one of the
/// stones that one blink makes of `v`, is on the row that `m + 1` blinks
/// make of `v`.
proof fn lemma_reached_from_child(m: nat, v: nat, c: nat, x: nat)
    requires
        rule(v).contains(c),
        row_after(m, seq![c]).contains(x),
    ensures
        row_after(m + 1, seq![v]).contains(x),
{
    lemma_blink_row_single(v);
    assert(row_after(m + 1, seq![v]) == row_after(m, rule(v)));
    if rule(v).len() == 1 {
        assert(rule(v) =~= seq![c]);
    } else {
        let l = seq![left_half(v)];
        let r = seq![right_half(v)];
        assert(rule(v) =~= l + r);
        lemma_row_after_concat(m, l, r);
        let i = choose|i: int| 0 <= i < row_after(m, seq![c]).len() && row_after(m, seq![c])[i] == x;
        if c == left_half(v) {
            assert(row_after(m, rule(v))[i] == x);
        } else {
            assert(c == right_half(v));
            assert(row_after(m, rule(v))[row_after(m, l).len() + i] == x);
        }
    }
}

} // verus!
