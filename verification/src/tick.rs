//! Ticks and tick arrays of Orca Whirlpools: which tick arrays a swap from the current tick
//! passes, and under which addresses the ledger holds them.

use crate::address::Address;
use crate::decimal::{decimal_bytes, decimal_text};
use crate::ledger::{find_program_address, program_address};
use vstd::prelude::*;

verus! {

/// Ticks held by one tick array.
pub const TICK_ARRAY_SIZE: i32 = 88;

/// The smallest tick index that a pool can stand at.
pub const MIN_TICK_INDEX: i32 = -443636;

/// The largest tick index that a pool can stand at.
pub const MAX_TICK_INDEX: i32 = 443636;

/// The square root of the price at the smallest tick, as a fixed-point number with 64
/// binary places.
pub const MIN_SQRT_PRICE: u128 = 4295048016;

/// The square root of the price at the largest tick, as a fixed-point number with 64 binary
/// places.
pub const MAX_SQRT_PRICE: u128 = 79226673515401279992447579055;

/// The quotient of `a` by `b` rounded toward negative infinity; `b` is not zero.
pub open spec fn floor_div(a: int, b: int) -> int {
    if b > 0 {
        a / b
    } else {
        (-a) / (-b)
    }
}

/// The remainder of `a` by `b` that has the sign of `a`; `b` is not zero.
pub open spec fn rem_toward_zero(a: int, b: int) -> int {
    let m = if b > 0 { b } else { -b };
    if a >= 0 {
        a % m
    } else {
        -((-a) % m)
    }
}

/// The quotient of `a` by `b` rounded toward zero; `b` is not zero.
pub open spec fn quot_toward_zero(a: int, b: int) -> int {
    let m = if b > 0 { b } else { -b };
    let q = if a >= 0 { a / m } else { -((-a) / m) };
    if b > 0 { q } else { -q }
}

/// Division as the machine does it, which rounds toward zero, in terms of `/` and `%`,
/// with the sizes of what comes out.
proof fn lemma_truncated(a: int, b: int)
    requires
        b != 0,
    ensures
        a >= 0 ==> a / b == quot_toward_zero(a, b) && a % b == rem_toward_zero(a, b),
        a < 0 ==> -((-a) / b) == quot_toward_zero(a, b) && -((-a) % b) == rem_toward_zero(a, b),
        -b < rem_toward_zero(a, b) < b || b < rem_toward_zero(a, b) < -b,
        -a <= quot_toward_zero(a, b) <= a || a <= quot_toward_zero(a, b) <= -a,
        rem_toward_zero(a, b) != 0 ==> -a < 2 * quot_toward_zero(a, b) < a || a < 2
            * quot_toward_zero(a, b) < -a,
        a != 0 && quot_toward_zero(a, b) == -a ==> b == -1,
{
    let m = if b > 0 { b } else { -b };
    let n = if a >= 0 { a } else { -a };
    lemma_euclid(n, m);
    assert(0 <= n / m <= n && (n % m != 0 ==> 2 * (n / m) < n) && (n != 0 && n / m == n ==> m
        == 1)) by (nonlinear_arith)
        requires
            n == m * (n / m) + n % m,
            0 <= n % m < m,
            0 <= n,
    ;
    if b < 0 {
        assert(n == b * (-(n / m)) + n % m) by (nonlinear_arith)
            requires
                n == m * (n / m) + n % m,
                m == -b,
        ;
        lemma_euclid_unique(n, b, -(n / m), n % m);
    }
}

/// Whether `tick_index` is the first tick of a tick array of a pool with the given spacing.
/// Inside the tick range the start ticks are the multiples of the array width; below it the
/// one array that reaches under the smallest tick is admitted, above it none.
pub open spec fn is_valid_start_tick(tick_index: int, tick_spacing: int) -> bool {
    let ticks_in_array = TICK_ARRAY_SIZE * tick_spacing;
    if MIN_TICK_INDEX <= tick_index <= MAX_TICK_INDEX {
        rem_toward_zero(tick_index, ticks_in_array) == 0
    } else if tick_index > MIN_TICK_INDEX {
        false
    } else {
        tick_index == MIN_TICK_INDEX - (rem_toward_zero(MIN_TICK_INDEX as int, ticks_in_array)
            + ticks_in_array)
    }
}

/// Euclidean division: the remainder lies between zero and the size of the divisor.
proof fn lemma_euclid(x: int, d: int)
    by (nonlinear_arith)
    requires
        d != 0,
    ensures
        x == d * (x / d) + x % d,
        0 <= x % d,
        x % d < d || x % d < -d,
{
}

/// A quotient and a remainder in range are the Euclidean ones.
proof fn lemma_euclid_unique(x: int, d: int, q: int, r: int)
    by (nonlinear_arith)
    requires
        d != 0,
        x == d * q + r,
        0 <= r,
        r < d || r < -d,
    ensures
        q == x / d,
        r == x % d,
{
}

/// How the quotient and remainder that round toward zero relate to rounding down.
proof fn lemma_floor_from_truncated(a: int, b: int)
    requires
        b != 0,
    ensures
        rem_toward_zero(a, b) == 0 || ((a > 0) == (b > 0)) ==> floor_div(a, b) == quot_toward_zero(
            a,
            b,
        ),
        rem_toward_zero(a, b) != 0 && ((a > 0) != (b > 0)) ==> floor_div(a, b) == quot_toward_zero(
            a,
            b,
        ) - 1,
{
    let m = if b > 0 { b } else { -b };
    let n = if a >= 0 { a } else { -a };
    lemma_euclid(n, m);
    let q = n / m;
    let r = n % m;
    // The number divided and the divisor that `floor_div` hands to `/`.
    let x = if b > 0 { a } else { -a };
    if (a >= 0) == (b > 0) {
        assert(x == n);
    } else if r == 0 {
        assert(x == m * (-q) + 0) by (nonlinear_arith)
            requires
                n == m * q + r,
                r == 0,
                x == -n,
        ;
        lemma_euclid_unique(x, m, -q, 0);
    } else {
        assert(x == m * (-q - 1) + (m - r)) by (nonlinear_arith)
            requires
                n == m * q + r,
                x == -n,
        ;
        lemma_euclid_unique(x, m, -q - 1, m - r);
    }
}

/// The quotient of `dividend` by `divisor`, rounded toward negative infinity.
pub fn floor_division(dividend: i32, divisor: i32) -> (quotient: i32)
    requires
        divisor != 0,
        !(dividend == i32::MIN && divisor == -1),
    ensures
        quotient == floor_div(dividend as int, divisor as int),
{
    proof {
        lemma_truncated(dividend as int, divisor as int);
        lemma_floor_from_truncated(dividend as int, divisor as int);
    }
    let same_sign = (dividend > 0 && divisor > 0) || (dividend < 0 && divisor < 0);
    if dividend % divisor == 0 || same_sign {
        dividend / divisor
    } else {
        dividend / divisor - 1
    }
}

/// How far a swap that names no limit may push the price: down to the smallest price where
/// the first token is swapped for the second, up to the largest the other way.
pub fn get_default_sqrt_price_limit(a_to_b: bool) -> (limit: u128)
    ensures
        limit == if a_to_b { MIN_SQRT_PRICE } else { MAX_SQRT_PRICE },
{
    if a_to_b {
        MIN_SQRT_PRICE
    } else {
        MAX_SQRT_PRICE
    }
}

/// Whether `tick` is the first tick of a tick array of a pool with the given spacing.
fn is_start_tick(tick: i64, tick_spacing: i32) -> (valid: bool)
    requires
        tick_spacing != 0 || tick > MAX_TICK_INDEX,
    ensures
        valid == is_valid_start_tick(tick as int, tick_spacing as int),
{
    let ticks_in_array: i64 = (TICK_ARRAY_SIZE as i64) * (tick_spacing as i64);
    proof {
        if ticks_in_array != 0 {
            lemma_truncated(tick as int, ticks_in_array as int);
            lemma_truncated(MIN_TICK_INDEX as int, ticks_in_array as int);
        }
    }
    if tick < MIN_TICK_INDEX as i64 || tick > MAX_TICK_INDEX as i64 {
        if tick > MIN_TICK_INDEX as i64 {
            return false;
        }
        let min_array_start_index: i64 = (MIN_TICK_INDEX as i64) - ((MIN_TICK_INDEX as i64)
            % ticks_in_array + ticks_in_array);
        return tick == min_array_start_index;
    }
    tick % ticks_in_array == 0
}

/// Whether `tick_index` is the first tick of a tick array of a pool with the given spacing.
pub fn check_is_valid_start_tick(tick_index: i32, tick_spacing: i32) -> (valid: bool)
    requires
        tick_spacing != 0 || tick_index > MAX_TICK_INDEX,
    ensures
        valid == is_valid_start_tick(tick_index as int, tick_spacing as int),
{
    is_start_tick(tick_index as i64, tick_spacing)
}

/// How many of the tick arrays on the way of a swap are addressed.
pub const TICK_ARRAY_COUNT: usize = 1;

/// The first tick of the tick array that holds the tick `tick_current_index`.
pub open spec fn start_tick_base(tick_current_index: int, tick_spacing: int) -> int {
    let ticks_in_array = TICK_ARRAY_SIZE * tick_spacing;
    floor_div(tick_current_index, ticks_in_array) * ticks_in_array
}

/// The first ticks of the three tick arrays that a swap from the current tick may pass, in
/// the order in which it meets them. A swap of the first token for the second walks down
/// from the array of the current tick. One the other way walks up from it, or from the
/// array above where the next tick to be used lies there already.
pub open spec fn candidate_starts(tick_current_index: int, tick_spacing: int, a_to_b: bool) -> Seq<
    int,
> {
    let ticks_in_array = TICK_ARRAY_SIZE * tick_spacing;
    let base = start_tick_base(tick_current_index, tick_spacing);
    if a_to_b {
        seq![base, base - ticks_in_array, base - 2 * ticks_in_array]
    } else if tick_current_index + tick_spacing >= base + ticks_in_array {
        seq![base + ticks_in_array, base + 2 * ticks_in_array, base + 3 * ticks_in_array]
    } else {
        seq![base, base + ticks_in_array, base + 2 * ticks_in_array]
    }
}

/// Those of `candidates`, in their order, that are first ticks of tick arrays.
pub open spec fn valid_starts(candidates: Seq<int>, tick_spacing: int) -> Seq<int>
    decreases candidates.len(),
{
    if candidates.len() == 0 {
        Seq::empty()
    } else {
        let before = valid_starts(candidates.drop_last(), tick_spacing);
        if is_valid_start_tick(candidates.last(), tick_spacing) {
            before.push(candidates.last())
        } else {
            before
        }
    }
}

/// The first ticks of the tick arrays that exist on the way of a swap from the current
/// tick, in the order in which the swap meets them.
pub open spec fn tick_array_starts(tick_current_index: int, tick_spacing: int, a_to_b: bool) -> Seq<
    int,
> {
    valid_starts(candidate_starts(tick_current_index, tick_spacing, a_to_b), tick_spacing)
}

/// The first ticks of the tick arrays that exist on the way of a swap from the current
/// tick, in the order in which the swap meets them.
pub fn tick_array_start_indexes(
    tick_current_index: i32,
    tick_spacing: u16,
    a_to_b: bool,
) -> (starts: Vec<i32>)
    requires
        tick_spacing > 0,
    ensures
        starts@.map_values(|start: i32| start as int) == tick_array_starts(
            tick_current_index as int,
            tick_spacing as int,
            a_to_b,
        ),
{
    let spacing: i32 = tick_spacing as i32;
    let ticks_in_array: i32 = TICK_ARRAY_SIZE * spacing;
    let quotient = floor_division(tick_current_index, ticks_in_array);
    proof {
        lemma_euclid(tick_current_index as int, ticks_in_array as int);
        assert(quotient * ticks_in_array == ticks_in_array * quotient) by (nonlinear_arith);
    }
    let base: i64 = (quotient as i64) * (ticks_in_array as i64);
    let width: i64 = ticks_in_array as i64;
    let first: i64 = if a_to_b {
        base
    } else if (tick_current_index as i64) + (spacing as i64) >= base + width {
        base + width
    } else {
        base
    };
    let step: i64 = if a_to_b { -width } else { width };
    let ghost candidates = candidate_starts(
        tick_current_index as int,
        tick_spacing as int,
        a_to_b,
    );
    proof {
        assert(base == start_tick_base(tick_current_index as int, tick_spacing as int));
        assert(candidates =~= seq![first as int, first + step, first + 2 * step]);
    }
    let mut starts: Vec<i32> = Vec::new();
    let mut n: usize = 0;
    while n < 3
        invariant
            n <= 3,
            spacing == tick_spacing,
            spacing > 0,
            candidates == seq![first as int, first + step, first + 2 * step],
            -6000000 <= step <= 6000000,
            -0x9000_0000 <= first <= 0x9000_0000,
            starts@.map_values(|start: i32| start as int) == valid_starts(
                candidates.take(n as int),
                tick_spacing as int,
            ),
        decreases 3 - n,
    {
        let candidate: i64 = if n == 0 {
            first
        } else if n == 1 {
            first + step
        } else {
            first + step + step
        };
        proof {
            assert(candidate == candidates[n as int]);
            assert(candidates.take(n + 1).drop_last() =~= candidates.take(n as int));
            assert(candidates.take(n + 1).last() == candidate);
            lemma_truncated(MIN_TICK_INDEX as int, TICK_ARRAY_SIZE * spacing);
        }
        if is_start_tick(candidate, spacing) {
            let ghost before = starts@;
            starts.push(candidate as i32);
            assert(starts@.map_values(|start: i32| start as int) =~= before.map_values(
                |start: i32| start as int,
            ).push(candidate as int));
        }
        n += 1;
    }
    proof {
        assert(candidates.take(3) =~= candidates);
    }
    starts
}

/// The seed that marks the address of a tick array: the text `tick_array`.
pub open spec fn tick_array_tag() -> Seq<u8> {
    seq![116u8, 105u8, 99u8, 107u8, 95u8, 97u8, 114u8, 114u8, 97u8, 121u8]
}

/// The seeds of the address of the tick array of the pool `pool_id` that begins at the tick
/// `start_tick_index`: the tag, the pool, and the tick written out in decimal.
pub open spec fn tick_array_seeds_of(pool_id: Seq<u8>, start_tick_index: int) -> Seq<Seq<u8>> {
    seq![tick_array_tag(), pool_id, decimal_text(start_tick_index)]
}

/// The seeds of the address of the tick array of the pool `pool_id` that begins at the tick
/// `start_tick_index`.
pub fn tick_array_seeds(pool_id: &Address, start_tick_index: i32) -> (seeds: Vec<Vec<u8>>)
    ensures
        seeds.deep_view() == tick_array_seeds_of(pool_id@, start_tick_index as int),
{
    let mut tag: Vec<u8> = Vec::new();
    tag.push(116);
    tag.push(105);
    tag.push(99);
    tag.push(107);
    tag.push(95);
    tag.push(97);
    tag.push(114);
    tag.push(114);
    tag.push(97);
    tag.push(121);
    let mut pool: Vec<u8> = Vec::new();
    let mut i: usize = 0;
    while i < 32
        invariant
            i <= 32,
            pool@ == pool_id@.take(i as int),
        decreases 32 - i,
    {
        pool.push(pool_id.bytes[i]);
        assert(pool_id@.take(i + 1) =~= pool_id@.take(i as int).push(pool_id@[i as int]));
        i += 1;
    }
    let tick = decimal_bytes(start_tick_index);
    let mut seeds: Vec<Vec<u8>> = Vec::new();
    seeds.push(tag);
    seeds.push(pool);
    seeds.push(tick);
    proof {
        assert(pool_id@.take(32) =~= pool_id@);
        assert(seeds@[0].deep_view() =~= tick_array_tag());
        assert(seeds@[1].deep_view() =~= pool_id@);
        assert(seeds@[2].deep_view() =~= decimal_text(start_tick_index as int));
        assert(seeds.deep_view() =~= tick_array_seeds_of(pool_id@, start_tick_index as int));
    }
    seeds
}

/// The address of the tick array of the pool `pool_id` of the program `program_id` that
/// begins at the tick `start_tick_index`, if the ledger's rule gives one.
pub open spec fn tick_array_address(
    program_id: Seq<u8>,
    pool_id: Seq<u8>,
    start_tick_index: int,
) -> Option<Seq<u8>> {
    program_address(tick_array_seeds_of(pool_id, start_tick_index), program_id)
}

/// The addresses of the first `TICK_ARRAY_COUNT` tick arrays that exist on the way of a swap
/// from the current tick, in the order in which the swap meets them; nothing where one of
/// them has no address.
pub fn get_tick_array_pubkeys(
    tick_current_index: i32,
    tick_spacing: u16,
    a_to_b: bool,
    orca_program_id: &Address,
    pool_id: &Address,
) -> (keys: Option<Vec<Address>>)
    requires
        tick_spacing > 0,
    ensures
        ({
            let starts = tick_array_starts(tick_current_index as int, tick_spacing as int, a_to_b);
            let count = if starts.len() < TICK_ARRAY_COUNT {
                starts.len()
            } else {
                TICK_ARRAY_COUNT as nat
            };
            match keys {
                Some(keys) => {
                    &&& keys@.len() == count
                    &&& forall|i: int|
                        0 <= i < count ==> tick_array_address(
                            orca_program_id@,
                            pool_id@,
                            starts[i],
                        ) == Some((#[trigger] keys@[i])@)
                },
                None => exists|i: int|
                    0 <= i < count && (#[trigger] tick_array_address(
                        orca_program_id@,
                        pool_id@,
                        starts[i],
                    )) is None,
            }
        }),
{
    let starts = tick_array_start_indexes(tick_current_index, tick_spacing, a_to_b);
    let ghost wanted = tick_array_starts(tick_current_index as int, tick_spacing as int, a_to_b);
    let count = if starts.len() < TICK_ARRAY_COUNT { starts.len() } else { TICK_ARRAY_COUNT };
    let mut keys: Vec<Address> = Vec::new();
    let mut i: usize = 0;
    assert(wanted.len() == starts@.len());
    while i < count
        invariant
            i <= count <= starts@.len(),
            count == if starts@.len() < TICK_ARRAY_COUNT {
                starts@.len()
            } else {
                TICK_ARRAY_COUNT as nat
            },
            wanted == tick_array_starts(tick_current_index as int, tick_spacing as int, a_to_b),
            starts@.map_values(|start: i32| start as int) == wanted,
            keys@.len() == i,
            forall|j: int|
                0 <= j < i ==> tick_array_address(orca_program_id@, pool_id@, wanted[j]) == Some(
                    (#[trigger] keys@[j])@,
                ),
        decreases count - i,
    {
        let seeds = tick_array_seeds(pool_id, starts[i]);
        assert(wanted[i as int] == starts@[i as int]);
        match find_program_address(&seeds, orca_program_id) {
            Some(key) => {
                keys.push(key);
            },
            None => {
                assert(wanted.len() == starts@.len());
                assert(tick_array_address(orca_program_id@, pool_id@, wanted[i as int]) is None);
                return None;
            },
        }
        i += 1;
    }
    Some(keys)
}

} // verus!
