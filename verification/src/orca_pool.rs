//! Pools of the Orca Whirlpool venue: concentrated liquidity, priced by walking the ticks
//! of a tick array.

use crate::address::Address;
use crate::pool::{amount_or_no_quote, PoolOperations, NO_QUOTE};
use crate::tick::TICK_ARRAY_SIZE;
use orca_whirlpools_core::{
    swap_quote_by_input_token, TickArrayFacade, TickArrays, TickFacade, WhirlpoolFacade,
};
use vstd::arithmetic::div_mod::lemma_mod_multiples_vanish;
use vstd::prelude::*;

verus! {

/// The address of the Whirlpool program, in base 58.
pub const ORCA_WHIRLPOOL_PROGRAM_ID: &'static str = "whirLbMiicVdio4qvUfM5KAg6Ct8VwpYzGff3uctyCc";

/// One tick of a tick array.
#[derive(Debug, Clone, Copy)]
pub struct Tick {
    pub initialized: bool,
    pub liquidity_net: i128,
    pub liquidity_gross: u128,
    pub fee_growth_outside_a: u128,
    pub fee_growth_outside_b: u128,
    pub reward_growths_outside: [u128; 3],
}

/// A run of `TICK_ARRAY_SIZE` ticks, one for every `tick_spacing` tick indices from
/// `start_tick_index` on.
#[derive(Debug)]
pub struct TickArray {
    pub start_tick_index: i32,
    pub ticks: Vec<Tick>,
}

/// The snapshot of a Whirlpool, with the tick array under its current tick and, where it is
/// another, the one that a swap of the second token for the first begins in.
#[derive(Debug)]
pub struct OrcaPool {
    pub pool_id: Address,
    pub tick_current_index: i32,
    pub tick_spacing: u16,
    pub fee_rate: u16,
    pub protocol_fee_rate: u16,
    pub liquidity: u128,
    pub sqrt_price: u128,
    pub token_mint_a: Address,
    pub token_mint_b: Address,
    pub token_vault_a: Address,
    pub token_vault_b: Address,
    pub tick_array_key: Address,
    pub tick_array: Option<TickArray>,
    pub tick_array_key_b_a: Option<Address>,
    pub tick_array_b_a: Option<TickArray>,
}

/// The slippage that a quote allows for, in hundredths of a percent: none.
pub const SLIPPAGE_BPS: u16 = 0;

/// What `swap_quote_by_input_token` of `orca_whirlpools_core` estimates that a pool with
/// these figures and this tick array pays out for `amount_in`, with the given slippage
/// tolerance and no transfer fee; nothing where it reports an error.
pub uninterp spec fn whirlpool_swap_quote(
    amount_in: u64,
    a_to_b: bool,
    slippage_bps: u16,
    tick_spacing: u16,
    fee_rate: u16,
    protocol_fee_rate: u16,
    liquidity: u128,
    sqrt_price: u128,
    tick_current_index: i32,
    start_tick_index: i32,
    ticks: Seq<Tick>,
) -> Option<u64>;

/// The tick that a swap from the tick `tick` begins at: the last at or below it that a pool
/// with the given spacing, which is not zero, can use.
pub open spec fn usable_tick_below(tick: int, tick_spacing: int) -> int {
    tick - tick % tick_spacing
}

/// The tick that a swap from the tick `tick` begins at.
fn usable_tick(tick: i32, tick_spacing: u16) -> (usable: i64)
    requires
        tick_spacing > 0,
    ensures
        usable == usable_tick_below(tick as int, tick_spacing as int),
{
    let spacing: i64 = tick_spacing as i64;
    // Lifted above zero by a multiple of the spacing, the tick keeps its remainder.
    let lifted: i64 = (tick as i64) + 0x8000_0000 * spacing;
    proof {
        lemma_mod_multiples_vanish(0x8000_0000, tick as int, spacing as int);
    }
    (tick as i64) - lifted % spacing
}

/// Whether the liquidity stays a `u128` while a swap walks down from the tick `current`
/// through the initialized ticks among the first `upto` of the array, taking the net
/// liquidity of each tick it crosses off the liquidity in range.
pub open spec fn walk_down_in_range(
    ticks: Seq<Tick>,
    start: int,
    spacing: int,
    current: int,
    liquidity: int,
    upto: int,
) -> bool
    decreases upto,
{
    if upto <= 0 {
        true
    } else {
        let tick = ticks[upto - 1];
        if tick.initialized && start + (upto - 1) * spacing <= current {
            let crossed = liquidity - tick.liquidity_net;
            0 <= crossed <= u128::MAX && walk_down_in_range(
                ticks,
                start,
                spacing,
                current,
                crossed,
                upto - 1,
            )
        } else {
            walk_down_in_range(ticks, start, spacing, current, liquidity, upto - 1)
        }
    }
}

/// Whether the liquidity stays a `u128` while a swap walks up from the tick `current`
/// through the initialized ticks of the array from the place `from` on, adding the net
/// liquidity of each tick it crosses to the liquidity in range.
pub open spec fn walk_up_in_range(
    ticks: Seq<Tick>,
    start: int,
    spacing: int,
    current: int,
    liquidity: int,
    from: int,
) -> bool
    decreases ticks.len() - from,
{
    if from >= ticks.len() || from < 0 {
        true
    } else {
        let tick = ticks[from];
        if tick.initialized && start + from * spacing > current {
            let crossed = liquidity + tick.liquidity_net;
            0 <= crossed <= u128::MAX && walk_up_in_range(
                ticks,
                start,
                spacing,
                current,
                crossed,
                from + 1,
            )
        } else {
            walk_up_in_range(ticks, start, spacing, current, liquidity, from + 1)
        }
    }
}

/// `liquidity` after a tick with the net liquidity `net` was crossed, downward (`down`) or
/// upward, if it is still a `u128`.
fn cross_tick(liquidity: u128, net: i128, down: bool) -> (crossed: Option<u128>)
    ensures
        ({
            let moved = if down { liquidity - net } else { liquidity + net };
            crossed == if 0 <= moved <= u128::MAX {
                Some(moved as u128)
            } else {
                None
            }
        }),
{
    let takes_off = (net >= 0) == down;
    let size: u128 = if net >= 0 {
        net as u128
    } else if net == i128::MIN {
        0x8000_0000_0000_0000_0000_0000_0000_0000u128
    } else {
        (-net) as u128
    };
    if takes_off {
        if size <= liquidity {
            Some(liquidity - size)
        } else {
            None
        }
    } else {
        if size <= u128::MAX - liquidity {
            Some(liquidity + size)
        } else {
            None
        }
    }
}

impl OrcaPool {
    /// The tick array that a swap in the given direction begins in, if the snapshot holds
    /// it: the one under the current tick, or for a swap of the second token for the
    /// first the other one, where there is another.
    pub open spec fn tick_array_for(&self, a_to_b: bool) -> Option<TickArray> {
        if !a_to_b && self.tick_array_b_a is Some {
            self.tick_array_b_a
        } else {
            self.tick_array
        }
    }

    /// Whether the figures of the pool and of the tick array `array` are such as the
    /// pricing can work on without leaving the range of its numbers: a tick spacing to
    /// divide by; an array of full length whose end is an `i32`; for a swap upward a price
    /// to divide by and a tick to begin at that is an `i32`; and liquidity that stays a
    /// `u128` at every tick of the array on the way of the swap, whether the swap comes as
    /// far or not.
    pub open spec fn priceable(&self, array: TickArray, a_to_b: bool) -> bool {
        let begin = usable_tick_below(self.tick_current_index as int, self.tick_spacing as int);
        &&& self.tick_spacing > 0
        &&& array.ticks@.len() == TICK_ARRAY_SIZE
        &&& array.start_tick_index + TICK_ARRAY_SIZE * self.tick_spacing <= i32::MAX
        &&& if a_to_b {
            walk_down_in_range(
                array.ticks@,
                array.start_tick_index as int,
                self.tick_spacing as int,
                begin,
                self.liquidity as int,
                TICK_ARRAY_SIZE as int,
            )
        } else {
            &&& self.sqrt_price > 0
            &&& begin >= i32::MIN
            &&& walk_up_in_range(
                array.ticks@,
                array.start_tick_index as int,
                self.tick_spacing as int,
                begin,
                self.liquidity as int,
                0,
            )
        }
    }

    /// What the pool pays out for `amount_in`: the estimate of the venue's pricing, or
    /// `NO_QUOTE` where the tick array is missing, the figures are not such as the pricing
    /// can work on, or the pricing reports an error.
    pub open spec fn spec_quote(&self, a_to_b: bool, amount_in: u64) -> u64 {
        match self.tick_array_for(a_to_b) {
            Some(array) => if self.priceable(array, a_to_b) {
                match whirlpool_swap_quote(
                    amount_in,
                    a_to_b,
                    SLIPPAGE_BPS,
                    self.tick_spacing,
                    self.fee_rate,
                    self.protocol_fee_rate,
                    self.liquidity,
                    self.sqrt_price,
                    self.tick_current_index,
                    array.start_tick_index,
                    array.ticks@,
                ) {
                    Some(paid) => paid,
                    None => NO_QUOTE,
                }
            } else {
                NO_QUOTE
            },
            None => NO_QUOTE,
        }
    }

    /// The tick array that a swap in the given direction begins in, if the snapshot holds
    /// it.
    pub fn get_tick_array_facade(&self, a_to_b: bool) -> (chosen: Option<&TickArray>)
        ensures
            match chosen {
                Some(array) => self.tick_array_for(a_to_b) == Some(*array),
                None => self.tick_array_for(a_to_b) is None,
            },
    {
        if a_to_b {
            self.tick_array.as_ref()
        } else {
            match &self.tick_array_b_a {
                Some(array) => Some(array),
                None => self.tick_array.as_ref(),
            }
        }
    }

    /// Whether the liquidity stays in range along the way of a swap through `array` that
    /// begins at the tick `begin`.
    fn liquidity_stays_in_range(&self, array: &TickArray, a_to_b: bool, begin: i64) -> (stays:
        bool)
        requires
            array.ticks@.len() == TICK_ARRAY_SIZE,
        ensures
            stays == if a_to_b {
                walk_down_in_range(
                    array.ticks@,
                    array.start_tick_index as int,
                    self.tick_spacing as int,
                    begin as int,
                    self.liquidity as int,
                    TICK_ARRAY_SIZE as int,
                )
            } else {
                walk_up_in_range(
                    array.ticks@,
                    array.start_tick_index as int,
                    self.tick_spacing as int,
                    begin as int,
                    self.liquidity as int,
                    0,
                )
            },
    {
        let start: i64 = array.start_tick_index as i64;
        let spacing: i64 = self.tick_spacing as i64;
        let current: i64 = begin;
        let mut liquidity: u128 = self.liquidity;
        if a_to_b {
            let mut upto: usize = TICK_ARRAY_SIZE as usize;
            let ghost goal = walk_down_in_range(
                array.ticks@,
                start as int,
                spacing as int,
                current as int,
                liquidity as int,
                upto as int,
            );
            while upto > 0
                invariant
                    upto <= TICK_ARRAY_SIZE,
                    array.ticks@.len() == TICK_ARRAY_SIZE,
                    a_to_b,
                    start == array.start_tick_index,
                    spacing == self.tick_spacing,
                    current == begin,
                    goal == walk_down_in_range(
                        array.ticks@,
                        start as int,
                        spacing as int,
                        current as int,
                        self.liquidity as int,
                        TICK_ARRAY_SIZE as int,
                    ),
                    goal == walk_down_in_range(
                        array.ticks@,
                        start as int,
                        spacing as int,
                        current as int,
                        liquidity as int,
                        upto as int,
                    ),
                decreases upto,
            {
                upto -= 1;
                let tick = array.ticks[upto];
                assert(0 <= upto * spacing <= 88 * 65535) by (nonlinear_arith)
                    requires
                        0 <= upto < 88,
                        0 <= spacing <= 65535,
                ;
                let index: i64 = start + (upto as i64) * spacing;
                if tick.initialized && index <= current {
                    match cross_tick(liquidity, tick.liquidity_net, true) {
                        Some(crossed) => {
                            liquidity = crossed;
                        },
                        None => {
                            return false;
                        },
                    }
                }
            }
            true
        } else {
            let mut from: usize = 0;
            let ghost goal = walk_up_in_range(
                array.ticks@,
                start as int,
                spacing as int,
                current as int,
                liquidity as int,
                0,
            );
            while from < TICK_ARRAY_SIZE as usize
                invariant
                    from <= TICK_ARRAY_SIZE,
                    array.ticks@.len() == TICK_ARRAY_SIZE,
                    !a_to_b,
                    start == array.start_tick_index,
                    spacing == self.tick_spacing,
                    current == begin,
                    goal == walk_up_in_range(
                        array.ticks@,
                        start as int,
                        spacing as int,
                        current as int,
                        self.liquidity as int,
                        0,
                    ),
                    goal == walk_up_in_range(
                        array.ticks@,
                        start as int,
                        spacing as int,
                        current as int,
                        liquidity as int,
                        from as int,
                    ),
                decreases TICK_ARRAY_SIZE - from,
            {
                let tick = array.ticks[from];
                assert(0 <= from * spacing <= 88 * 65535) by (nonlinear_arith)
                    requires
                        0 <= from < 88,
                        0 <= spacing <= 65535,
                ;
                let index: i64 = start + (from as i64) * spacing;
                if tick.initialized && index > current {
                    match cross_tick(liquidity, tick.liquidity_net, false) {
                        Some(crossed) => {
                            liquidity = crossed;
                        },
                        None => {
                            return false;
                        },
                    }
                }
                from += 1;
            }
            true
        }
    }

    /// Whether the figures of the pool and of the tick array are such as the pricing can
    /// work on.
    pub fn can_price(&self, array: &TickArray, a_to_b: bool) -> (can: bool)
        ensures
            can == self.priceable(*array, a_to_b),
    {
        if self.tick_spacing == 0 || array.ticks.len() != TICK_ARRAY_SIZE as usize {
            return false;
        }
        let spacing: i64 = self.tick_spacing as i64;
        assert(0 <= TICK_ARRAY_SIZE * spacing <= 88 * 65535) by (nonlinear_arith)
            requires
                TICK_ARRAY_SIZE == 88,
                0 <= spacing <= 65535,
        ;
        let width: i64 = (TICK_ARRAY_SIZE as i64) * spacing;
        if (array.start_tick_index as i64) + width > i32::MAX as i64 {
            return false;
        }
        let begin = usable_tick(self.tick_current_index, self.tick_spacing);
        if !a_to_b && (self.sqrt_price == 0 || begin < i32::MIN as i64) {
            return false;
        }
        self.liquidity_stays_in_range(array, a_to_b, begin)
    }
}

/// Calls `swap_quote_by_input_token` of `orca_whirlpools_core` on the figures of `pool` and
/// on `array` as its one tick array, with the given slippage tolerance and without transfer
/// fees, and hands back the estimated amount out, or nothing where the call reports an
/// error. The call divides by the tick spacing and, on the way up, by the price; it steps
/// from the current tick to the next that the spacing allows and to the last tick of the
/// array in `i32`; and it adds to and takes from the liquidity unchecked as it crosses the
/// initialized ticks of the array, downward from the tick it begins at or upward from the
/// one above: `requires` admits the figures for which all of that is in range. The result
/// is a function of what is handed over alone and is known here by its name only.
#[verifier::external_body]
fn whirlpool_quote(
    pool: &OrcaPool,
    array: &TickArray,
    a_to_b: bool,
    amount_in: u64,
    slippage_bps: u16,
) -> (quoted: Option<u64>)
    requires
        pool.priceable(*array, a_to_b),
    ensures
        quoted == whirlpool_swap_quote(
            amount_in,
            a_to_b,
            slippage_bps,
            pool.tick_spacing,
            pool.fee_rate,
            pool.protocol_fee_rate,
            pool.liquidity,
            pool.sqrt_price,
            pool.tick_current_index,
            array.start_tick_index,
            array.ticks@,
        ),
{
    let whirlpool = WhirlpoolFacade {
        tick_spacing: pool.tick_spacing, tick_current_index: pool.tick_current_index,
        fee_rate: pool.fee_rate, protocol_fee_rate: pool.protocol_fee_rate,
        liquidity: pool.liquidity, sqrt_price: pool.sqrt_price, ..WhirlpoolFacade::default()
    };
    let ticks = core::array::from_fn(|i| { let t = &array.ticks[i]; TickFacade {
        initialized: t.initialized, liquidity_net: t.liquidity_net,
        liquidity_gross: t.liquidity_gross, fee_growth_outside_a: t.fee_growth_outside_a,
        fee_growth_outside_b: t.fee_growth_outside_b,
        reward_growths_outside: t.reward_growths_outside } });
    let arrays = TickArrays::One(TickArrayFacade { start_tick_index: array.start_tick_index, ticks });
    swap_quote_by_input_token(amount_in, a_to_b, slippage_bps, whirlpool, arrays, None, None)
        .ok().map(|quote| quote.token_est_out)
}

impl PoolOperations for OrcaPool {
    open spec fn quote(&self, a_to_b: bool, amount_in: u64) -> u64 {
        self.spec_quote(a_to_b, amount_in)
    }

    fn calc_quote(&self, a_to_b: bool, amount_in: u64) -> (amount_out: u64) {
        match self.get_tick_array_facade(a_to_b) {
            Some(array) => {
                if self.can_price(array, a_to_b) {
                    amount_or_no_quote(
                        whirlpool_quote(self, array, a_to_b, amount_in, SLIPPAGE_BPS),
                    )
                } else {
                    NO_QUOTE
                }
            },
            None => NO_QUOTE,
        }
    }

    open spec fn mints(&self) -> (Address, Address) {
        (self.token_mint_a, self.token_mint_b)
    }

    open spec fn id(&self) -> Address {
        self.pool_id
    }

    fn get_mints(&self) -> (mints: (Address, Address)) {
        (self.token_mint_a, self.token_mint_b)
    }

    fn get_pool_id(&self) -> (id: Address) {
        self.pool_id
    }
}

} // verus!
