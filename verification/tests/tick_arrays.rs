use std::str::FromStr;

use arbitrager::address::Address;
use arbitrager::decimal::decimal_bytes;
use arbitrager::tick::{
    check_is_valid_start_tick, floor_division, get_default_sqrt_price_limit,
    get_tick_array_pubkeys, tick_array_seeds, tick_array_start_indexes, MAX_SQRT_PRICE,
    MIN_SQRT_PRICE,
};
use solana_sdk::pubkey::Pubkey;

const ORCA_WHIRLPOOL_PROGRAM_ID: &str = "whirLbMiicVdio4qvUfM5KAg6Ct8VwpYzGff3uctyCc";
const SOME_POOL: &str = "Czfq3xZZDmsdGdUyrNLtRhGc47cXcZtLG4crryfu44zE";

#[test]
fn floor_division_rounds_down() {
    assert_eq!(floor_division(7, 2), 3);
    assert_eq!(floor_division(-7, 2), -4);
    assert_eq!(floor_division(7, -2), -4);
    assert_eq!(floor_division(-7, -2), 3);
    assert_eq!(floor_division(-6, 3), -2);
    assert_eq!(floor_division(6, -3), -2);
    assert_eq!(floor_division(0, 5), 0);
    assert_eq!(floor_division(i32::MIN, 1), i32::MIN);
    assert_eq!(floor_division(i32::MAX, -1), -i32::MAX);
    assert_eq!(floor_division(-1, i32::MAX), -1);
}

#[test]
fn default_sqrt_price_limit_follows_the_direction() {
    assert_eq!(get_default_sqrt_price_limit(true), 4295048016);
    assert_eq!(get_default_sqrt_price_limit(false), 79226673515401279992447579055);
    assert_eq!(MIN_SQRT_PRICE, 4295048016);
    assert_eq!(MAX_SQRT_PRICE, 79226673515401279992447579055);
}

#[test]
fn start_ticks_are_the_multiples_of_the_array_width() {
    assert!(check_is_valid_start_tick(0, 64));
    assert!(check_is_valid_start_tick(5632, 64));
    assert!(check_is_valid_start_tick(-5632, 64));
    assert!(!check_is_valid_start_tick(64, 64));
    assert!(!check_is_valid_start_tick(-5631, 64));
    assert!(check_is_valid_start_tick(439296, 64));
    assert!(check_is_valid_start_tick(-439296, 64));
}

#[test]
fn one_start_tick_lies_under_the_smallest_tick() {
    assert!(check_is_valid_start_tick(-444928, 64));
    assert!(!check_is_valid_start_tick(-450560, 64));
    assert!(!check_is_valid_start_tick(-443637, 64));
    assert!(!check_is_valid_start_tick(444928, 64));
    assert!(!check_is_valid_start_tick(443637, 1));
    assert!(!check_is_valid_start_tick(443637, 0));
    assert!(check_is_valid_start_tick(-72 * 88 * 71, 71));
    assert!(check_is_valid_start_tick(-71 * 88 * 71, 71));
    assert!(!check_is_valid_start_tick(-73 * 88 * 71, 71));
}

#[test]
fn swap_downward_meets_the_arrays_below() {
    assert_eq!(tick_array_start_indexes(-18135, 64, true), vec![-22528, -28160, -33792]);
    assert_eq!(tick_array_start_indexes(0, 64, true), vec![0, -5632, -11264]);
    assert_eq!(tick_array_start_indexes(5631, 64, true), vec![0, -5632, -11264]);
}

#[test]
fn swap_upward_meets_the_arrays_above() {
    assert_eq!(tick_array_start_indexes(-18135, 64, false), vec![-22528, -16896, -11264]);
    assert_eq!(tick_array_start_indexes(0, 64, false), vec![0, 5632, 11264]);
}

#[test]
fn swap_upward_from_the_last_tick_of_an_array_begins_above() {
    assert_eq!(tick_array_start_indexes(5631, 1, false), vec![5632, 5720, 5808]);
    assert_eq!(tick_array_start_indexes(5630, 1, false), vec![5544, 5632, 5720]);
    assert_eq!(tick_array_start_indexes(5600, 64, false), vec![5632, 11264, 16896]);
}

#[test]
fn arrays_outside_the_tick_range_are_left_out() {
    assert_eq!(tick_array_start_indexes(-443636, 64, true), vec![-444928]);
    assert_eq!(tick_array_start_indexes(443636, 64, false), vec![439296]);
    assert_eq!(tick_array_start_indexes(443636, 64, true), vec![439296, 433664, 428032]);
    assert_eq!(tick_array_start_indexes(i32::MAX, 1, false), Vec::<i32>::new());
    assert_eq!(tick_array_start_indexes(i32::MIN, 65535, true), Vec::<i32>::new());
}

#[test]
fn decimal_bytes_match_the_standard_text() {
    for value in [0, 7, 9, 10, 11, 99, 100, 12345, -1, -9, -10, -22528, 443636, i32::MAX, i32::MIN]
    {
        assert_eq!(decimal_bytes(value), value.to_string().into_bytes());
    }
    assert_eq!(decimal_bytes(-22528), b"-22528".to_vec());
}

#[test]
fn seeds_are_tag_pool_and_tick() {
    let pool = Address::new([7; 32]);
    assert_eq!(
        tick_array_seeds(&pool, -22528),
        vec![b"tick_array".to_vec(), vec![7; 32], b"-22528".to_vec()]
    );
}

fn key(text: &str) -> Address {
    Address::new(Pubkey::from_str(text).unwrap().to_bytes())
}

#[test]
fn tick_array_address_is_the_program_address_of_its_seeds() {
    let program = key(ORCA_WHIRLPOOL_PROGRAM_ID);
    let pool = key(SOME_POOL);
    let keys = get_tick_array_pubkeys(-18135, 64, true, &program, &pool).unwrap();
    let expected = Pubkey::find_program_address(
        &[b"tick_array", &pool.to_bytes(), b"-22528"],
        &Pubkey::from_str(ORCA_WHIRLPOOL_PROGRAM_ID).unwrap(),
    )
    .0;
    assert_eq!(keys, vec![Address::new(expected.to_bytes())]);
    assert_ne!(keys[0], pool);
    assert_ne!(keys[0], program);
}

#[test]
fn tick_array_address_depends_on_the_direction_at_an_array_end() {
    let program = key(ORCA_WHIRLPOOL_PROGRAM_ID);
    let pool = key(SOME_POOL);
    let down = get_tick_array_pubkeys(5600, 64, true, &program, &pool).unwrap();
    let up = get_tick_array_pubkeys(5600, 64, false, &program, &pool).unwrap();
    assert_eq!(down.len(), 1);
    assert_eq!(up.len(), 1);
    assert_ne!(down, up);
    let same_down = get_tick_array_pubkeys(100, 64, true, &program, &pool).unwrap();
    let same_up = get_tick_array_pubkeys(100, 64, false, &program, &pool).unwrap();
    assert_eq!(same_down, same_up);
    assert_eq!(same_down, down);
}

#[test]
fn no_tick_array_no_address() {
    let program = key(ORCA_WHIRLPOOL_PROGRAM_ID);
    let pool = key(SOME_POOL);
    assert_eq!(get_tick_array_pubkeys(i32::MAX, 1, false, &program, &pool), Some(vec![]));
}
