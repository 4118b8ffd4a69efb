use arbitrager::address::Address;
use arbitrager::arb::Arbitrager;
use arbitrager::orca_pool::{OrcaPool, Tick, TickArray, ORCA_WHIRLPOOL_PROGRAM_ID};
use arbitrager::pool::PoolOperations;
use arbitrager::quarantine::QuarantineSet;
use orca_whirlpools_core::{
    swap_quote_by_input_token, tick_index_to_sqrt_price, TickArrayFacade, TickArrays, TickFacade,
    WhirlpoolFacade,
};

fn address(tag: u8) -> Address {
    Address::new([tag; 32])
}

fn blank_tick() -> Tick {
    Tick {
        initialized: false,
        liquidity_net: 0,
        liquidity_gross: 0,
        fee_growth_outside_a: 0,
        fee_growth_outside_b: 0,
        reward_growths_outside: [0; 3],
    }
}

fn blank_array(start_tick_index: i32) -> TickArray {
    TickArray { start_tick_index, ticks: vec![blank_tick(); 88] }
}

/// A pool with spacing 64 at the tick `tick`, with the tick array under that tick.
fn pool_at(id: u8, tick: i32, liquidity: u128) -> OrcaPool {
    let start = tick.div_euclid(5632) * 5632;
    OrcaPool {
        pool_id: address(id),
        tick_current_index: tick,
        tick_spacing: 64,
        fee_rate: 3000,
        protocol_fee_rate: 300,
        liquidity,
        sqrt_price: tick_index_to_sqrt_price(tick),
        token_mint_a: address(1),
        token_mint_b: address(2),
        token_vault_a: address(11),
        token_vault_b: address(12),
        tick_array_key: address(21),
        tick_array: Some(blank_array(start)),
        tick_array_key_b_a: None,
        tick_array_b_a: None,
    }
}

/// What the venue's pricing gives when it is called on the same figures directly.
fn priced_directly(pool: &OrcaPool, array: &TickArray, a_to_b: bool, amount_in: u64) -> Option<u64> {
    let whirlpool = WhirlpoolFacade {
        tick_spacing: pool.tick_spacing,
        tick_current_index: pool.tick_current_index,
        fee_rate: pool.fee_rate,
        protocol_fee_rate: pool.protocol_fee_rate,
        liquidity: pool.liquidity,
        sqrt_price: pool.sqrt_price,
        ..WhirlpoolFacade::default()
    };
    let mut ticks = [TickFacade::default(); 88];
    for (facade, tick) in ticks.iter_mut().zip(array.ticks.iter()) {
        facade.initialized = tick.initialized;
        facade.liquidity_net = tick.liquidity_net;
        facade.liquidity_gross = tick.liquidity_gross;
    }
    let arrays = TickArrays::One(TickArrayFacade { start_tick_index: array.start_tick_index, ticks });
    swap_quote_by_input_token(amount_in, a_to_b, 0, whirlpool, arrays, None, None)
        .ok()
        .map(|quote| quote.token_est_out)
}

#[test]
fn program_id_is_the_whirlpool_program() {
    assert_eq!(ORCA_WHIRLPOOL_PROGRAM_ID, "whirLbMiicVdio4qvUfM5KAg6Ct8VwpYzGff3uctyCc");
}

#[test]
fn quote_is_the_estimate_of_the_venue() {
    let pool = pool_at(1, 100, 1_000_000_000_000);
    let array = pool.tick_array.as_ref().unwrap();
    for (a_to_b, amount) in [(true, 1_000_000u64), (false, 1_000_000), (true, 1), (false, 77_777)] {
        let paid = pool.calc_quote(a_to_b, amount);
        assert_eq!(Some(paid), priced_directly(&pool, array, a_to_b, amount));
    }
}

#[test]
fn quote_follows_the_price_and_takes_the_fee() {
    // At tick 100 one first token is worth about 1.01005 of the second, less 0.3 % fee.
    let pool = pool_at(1, 100, 1_000_000_000_000_000);
    let down = pool.calc_quote(true, 1_000_000);
    assert!(1_006_900 < down && down < 1_007_100, "{down}");
    let up = pool.calc_quote(false, 1_000_000);
    assert!(986_900 < up && up < 987_200, "{up}");
}

#[test]
fn swap_of_nothing_has_no_quote() {
    let pool = pool_at(1, 100, 1_000_000_000_000);
    assert_eq!(pool.calc_quote(true, 0), 0);
    assert_eq!(pool.calc_quote(false, 0), 0);
}

#[test]
fn swap_that_leaves_the_tick_array_has_no_quote() {
    let pool = pool_at(1, 100, 1_000);
    assert_eq!(pool.calc_quote(true, 1_000_000_000), 0);
    assert_eq!(pool.calc_quote(false, 1_000_000_000), 0);
}

#[test]
fn missing_tick_array_has_no_quote() {
    let mut pool = pool_at(1, 100, 1_000_000_000_000);
    pool.tick_array = None;
    assert!(pool.get_tick_array_facade(true).is_none());
    assert!(pool.get_tick_array_facade(false).is_none());
    assert_eq!(pool.calc_quote(true, 1_000_000), 0);
    assert_eq!(pool.calc_quote(false, 1_000_000), 0);
}

#[test]
fn swap_upward_begins_in_the_other_array_where_there_is_one() {
    let mut pool = pool_at(1, 5600, 1_000_000_000_000);
    pool.tick_array_key_b_a = Some(address(22));
    pool.tick_array_b_a = Some(blank_array(5632));
    assert_eq!(pool.get_tick_array_facade(true).unwrap().start_tick_index, 0);
    assert_eq!(pool.get_tick_array_facade(false).unwrap().start_tick_index, 5632);
    pool.tick_array = None;
    assert!(pool.get_tick_array_facade(true).is_none());
    assert_eq!(pool.get_tick_array_facade(false).unwrap().start_tick_index, 5632);
    pool.tick_array_b_a = None;
    pool.tick_array = Some(blank_array(0));
    assert_eq!(pool.get_tick_array_facade(false).unwrap().start_tick_index, 0);
}

#[test]
fn figures_that_the_pricing_cannot_work_on_are_not_priced() {
    let good = pool_at(1, 100, 1_000_000_000_000);
    let array = blank_array(0);
    assert!(good.can_price(&array, true));
    assert!(good.can_price(&array, false));

    let mut pool = pool_at(1, 100, 1_000_000_000_000);
    pool.tick_spacing = 0;
    assert!(!pool.can_price(&array, true));
    assert!(!pool.can_price(&array, false));
    assert_eq!(pool.calc_quote(true, 1_000_000), 0);

    let mut pool = pool_at(1, 100, 1_000_000_000_000);
    pool.sqrt_price = 0;
    assert!(pool.can_price(&array, true));
    assert!(!pool.can_price(&array, false));
    assert_eq!(pool.calc_quote(true, 1_000_000), 0);
    assert_eq!(pool.calc_quote(false, 1_000_000), 0);

    let pool = pool_at(1, 100, 1_000_000_000_000);
    let mut short = blank_array(0);
    short.ticks.pop();
    assert!(!pool.can_price(&short, true));
    let mut long = blank_array(0);
    long.ticks.push(blank_tick());
    assert!(!pool.can_price(&long, false));

    // The end of the array must be an `i32`.
    assert!(pool.can_price(&blank_array(i32::MAX - 5632), true));
    assert!(!pool.can_price(&blank_array(i32::MAX - 5631), true));
    assert!(!pool.can_price(&blank_array(i32::MAX), false));
    assert!(pool.can_price(&blank_array(i32::MIN), false));

    // So must the tick that a swap upward begins at: the multiple of three under the
    // smallest `i32` is none.
    let mut pool = pool_at(1, 100, 1_000_000_000_000);
    pool.tick_spacing = 3;
    pool.tick_current_index = i32::MIN;
    assert!(pool.can_price(&array, true));
    assert!(!pool.can_price(&array, false));
    pool.tick_current_index = i32::MIN + 2;
    assert!(pool.can_price(&array, false));
    pool.tick_current_index = i32::MAX;
    assert!(pool.can_price(&array, false));
}

#[test]
fn figures_outside_the_range_of_the_venue_are_priced_as_the_venue_does() {
    let mut odd = Vec::new();
    let mut pool = pool_at(1, 100, 1_000_000_000_000);
    pool.sqrt_price = 4295048015;
    odd.push(pool);
    let mut pool = pool_at(1, 100, 1_000_000_000_000);
    pool.sqrt_price = 79226673515401279992447579056;
    odd.push(pool);
    let mut pool = pool_at(1, 100, 1_000_000_000_000);
    pool.sqrt_price = u128::MAX;
    odd.push(pool);
    let mut pool = pool_at(1, 100, 1_000_000_000_000);
    pool.sqrt_price = 1;
    odd.push(pool);
    for tick in [443637, -443637, 1_000_000, -1_000_000, i32::MAX, i32::MIN + 64] {
        let mut pool = pool_at(1, 100, 1_000_000_000_000);
        pool.tick_current_index = tick;
        odd.push(pool);
    }
    for start in [64, -64, 1, -1, 37, 5632 - 64, -5000, 99, 101, -450560, 443584] {
        let mut pool = pool_at(1, 100, 1_000_000_000_000);
        pool.tick_array = Some(blank_array(start));
        odd.push(pool);
    }
    for pool in &odd {
        let array = pool.tick_array.as_ref().unwrap();
        for a_to_b in [true, false] {
            assert!(pool.can_price(array, a_to_b));
            for amount in [1u64, 1_000, 1_000_000, u64::MAX] {
                assert_eq!(
                    pool.calc_quote(a_to_b, amount),
                    priced_directly(pool, array, a_to_b, amount).unwrap_or(0)
                );
            }
        }
    }
    // An array that begins off the width is priced where the swap stays inside it.
    let mut pool = pool_at(1, 100, 1_000_000_000_000);
    pool.tick_array = Some(blank_array(64));
    assert_ne!(pool.calc_quote(false, 1_000_000), 0);
    pool.tick_array = Some(blank_array(-64));
    assert_ne!(pool.calc_quote(true, 1_000_000), 0);
}

/// A stream of numbers that looks random and is the same on every run.
struct Stream(u64);

impl Stream {
    fn next(&mut self) -> u64 {
        self.0 ^= self.0 << 13;
        self.0 ^= self.0 >> 7;
        self.0 ^= self.0 << 17;
        self.0
    }

    /// A number of up to `bits` bits, of any size below that.
    fn up_to(&mut self, bits: u32) -> u128 {
        let wide = ((self.next() as u128) << 64) | self.next() as u128;
        let keep = (self.next() % (bits as u64 + 1)) as u32;
        if keep == 0 {
            0
        } else {
            wide >> (128 - keep)
        }
    }
}

#[test]
fn every_figure_that_is_admitted_is_priced_as_the_venue_does() {
    let mut stream = Stream(0x9E3779B97F4A7C15);
    let mut admitted = 0;
    let mut priced = 0;
    let mut crossed = 0;
    for round in 0..150_000 {
        let spacing = [1u16, 2, 8, 64, 128, 3, 65535][(stream.next() % 7) as usize];
        let width = 88 * spacing as i64;
        let tick = match stream.next() % 4 {
            0 => (stream.next() % 887_273) as i32 - 443_636,
            1 => stream.next() as i32,
            _ => (stream.next() % 20_000) as i32 - 10_000,
        };
        let start = match stream.next() % 4 {
            0 => stream.next() as i32,
            1 => (tick as i64).div_euclid(width).wrapping_mul(width) as i32,
            2 => tick.wrapping_sub((stream.next() % (width as u64)) as i32),
            _ => (stream.next() % 20_000) as i32 - 10_000,
        };
        let mut array = blank_array(start);
        for place in 0..88 {
            if stream.next() % 8 == 0 {
                array.ticks[place].initialized = stream.next() % 4 != 0;
                let bits = [16, 40, 127][(stream.next() % 3) as usize];
                let size = stream.up_to(bits) as i128;
                array.ticks[place].liquidity_net = if stream.next() % 2 == 0 { size } else { -size };
            }
        }
        let bits = [20, 40, 64, 96, 128][(stream.next() % 5) as usize];
        let liquidity = stream.up_to(bits);
        let mut pool = pool_at(1, 100, liquidity);
        pool.tick_spacing = spacing;
        pool.tick_current_index = tick;
        pool.fee_rate = stream.next() as u16;
        pool.sqrt_price = match stream.next() % 3 {
            0 => stream.up_to(128),
            _ if (-443_636..=443_636).contains(&tick) => tick_index_to_sqrt_price(tick),
            _ => stream.up_to(97),
        };
        pool.tick_array = Some(array);
        let array = pool.tick_array.as_ref().unwrap();
        let amount = stream.up_to(64) as u64;
        for a_to_b in [true, false] {
            if pool.can_price(array, a_to_b) {
                admitted += 1;
                let paid = pool.calc_quote(a_to_b, amount);
                assert_eq!(
                    paid,
                    priced_directly(&pool, array, a_to_b, amount).unwrap_or(0),
                    "round {round}"
                );
                if paid != 0 {
                    priced += 1;
                    let flat = OrcaPool {
                        tick_spacing: pool.tick_spacing,
                        tick_current_index: pool.tick_current_index,
                        fee_rate: pool.fee_rate,
                        liquidity: pool.liquidity,
                        sqrt_price: pool.sqrt_price,
                        tick_array: Some(blank_array(start)),
                        ..pool_at(1, 100, 0)
                    };
                    if flat.calc_quote(a_to_b, amount) != paid {
                        crossed += 1;
                    }
                }
            } else {
                assert_eq!(pool.calc_quote(a_to_b, amount), 0);
            }
        }
    }
    assert!(admitted > 10_000, "{admitted}");
    assert!(priced > 1_000, "{priced}");
    // Often enough the ticks that were crossed have changed the amount.
    assert!(crossed > 100, "{crossed}");
}

#[test]
fn liquidity_must_stay_in_range_along_the_way() {
    let pool = pool_at(1, 100, 1_000);
    // Below the current tick a position of 600 begins at tick 0 and one of 400 at tick 64.
    let mut array = blank_array(0);
    array.ticks[0].initialized = true;
    array.ticks[0].liquidity_net = 600;
    array.ticks[1].initialized = true;
    array.ticks[1].liquidity_net = 400;
    assert!(pool.can_price(&array, true));
    array.ticks[0].liquidity_net = 601;
    assert!(!pool.can_price(&array, true));
    assert!(pool.can_price(&array, false));
    // Above it a position of 1000 ends at tick 192.
    array.ticks[3].initialized = true;
    array.ticks[3].liquidity_net = -1000;
    assert!(pool.can_price(&array, false));
    array.ticks[3].liquidity_net = -1001;
    assert!(!pool.can_price(&array, false));
    array.ticks[3].initialized = false;
    assert!(pool.can_price(&array, false));
    array.ticks[4].initialized = true;
    array.ticks[4].liquidity_net = i128::MAX;
    array.ticks[5].initialized = true;
    array.ticks[5].liquidity_net = i128::MAX - 999;
    assert!(pool.can_price(&array, false));
    array.ticks[6].initialized = true;
    array.ticks[6].liquidity_net = 1;
    assert!(!pool.can_price(&array, false));
    array.ticks[6].liquidity_net = 0;
    assert!(pool.can_price(&array, false));
}

#[test]
fn crossing_a_tick_changes_the_liquidity_of_the_quote() {
    let mut pool = pool_at(1, 3000, 1_000_000_000);
    let mut array = blank_array(0);
    array.ticks[40].initialized = true;
    array.ticks[40].liquidity_net = 900_000_000;
    pool.tick_array = Some(array);
    let array = pool.tick_array.as_ref().unwrap();
    let paid = pool.calc_quote(true, 25_000_000);
    assert_eq!(Some(paid), priced_directly(&pool, array, true, 25_000_000));
    let flat = pool_at(1, 3000, 1_000_000_000).calc_quote(true, 25_000_000);
    assert!(paid != 0 && flat != 0 && paid < flat, "{paid} {flat}");
}

#[test]
fn pool_names_itself_and_its_tokens() {
    let pool = pool_at(9, 100, 1_000);
    assert_eq!(pool.get_pool_id(), address(9));
    assert_eq!(pool.get_mints(), (address(1), address(2)));
}

#[test]
fn two_pools_at_different_prices_make_a_cycle() {
    let mut arbitrager = Arbitrager::new();
    arbitrager.add_pool(pool_at(51, 100, 1_000_000_000_000_000));
    arbitrager.add_pool(pool_at(52, -200, 1_000_000_000_000_000));
    let a = arbitrager.token_index(&address(1)).unwrap();
    let b = arbitrager.token_index(&address(2)).unwrap();
    let mut quarantine = QuarantineSet::new();
    let found = arbitrager.search(a, 1_000_000, 3, 20_000, &mut quarantine).unwrap().opportunities;
    assert_eq!(found.len(), 1);
    assert_eq!(found[0].token_path, vec![a, b, a]);
    assert_eq!(found[0].pool_path, vec![address(51), address(52)]);
    assert_eq!(found[0].initial_amount, 1_000_000);
    assert!(1_024_000 < found[0].final_amount && found[0].final_amount < 1_025_000);
    assert_eq!(found[0].profit, found[0].final_amount - 1_000_000);
    let mut quarantine = QuarantineSet::new();
    assert!(arbitrager.search(a, 1_000_000, 3, 25_000, &mut quarantine).unwrap().opportunities.is_empty());
    // Started at the other token, the same two trades make the same round.
    let mut quarantine = QuarantineSet::new();
    let from_b = arbitrager.search(b, 1_000_000, 3, 0, &mut quarantine).unwrap().opportunities;
    assert_eq!(from_b.len(), 1);
    assert_eq!(from_b[0].token_path, vec![b, a, b]);
    assert_eq!(from_b[0].pool_path, vec![address(52), address(51)]);
}
