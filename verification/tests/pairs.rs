use std::str::FromStr;

use arbitrager::address::Address;
use arbitrager::pairs::{
    choose_by_volume, choose_known, merge_mints, mints_at, pair_name, pairs_at, to_pair_data,
    ListedPool, PairError, VolumeMark,
};
use arbitrager::pool::PoolType;
use solana_sdk::pubkey::Pubkey;

const WSOL: &str = "So11111111111111111111111111111111111111112";
const USDC: &str = "EPjFWdd5AufqSSqeM2qN1xzybapC8G4wEGGkZwyTDt1v";
const USDT: &str = "Es9vMFrzaCERmJfrF4H2FYD4KCoNkY11McCe8BenwNYB";
const POOL_1: &str = "Czfq3xZZDmsdGdUyrNLtRhGc47cXcZtLG4crryfu44zE";
const POOL_2: &str = "4fuUiYxTQ6QCrdSq9ouBYcTM7bqSwYTSyLueGZLTy4T4";
const POOL_3: &str = "58oQChx4yWmvKdwLLZzBi4ChoCc2fqCUWBkwMihLYQo2";

fn listed(address: &str, mint_a: &str, mint_b: &str, volume: VolumeMark) -> ListedPool {
    ListedPool {
        address: address.to_string(),
        name: format!("{:.3}/{:.3}", mint_a, mint_b),
        mint_a: mint_a.to_string(),
        mint_b: mint_b.to_string(),
        volume,
    }
}

fn key(text: &str) -> Address {
    Address::new(Pubkey::from_str(text).unwrap().to_bytes())
}

#[test]
fn pools_are_taken_up_to_the_first_with_too_little_volume() {
    let pools = vec![
        listed(POOL_1, WSOL, USDC, VolumeMark::Enough),
        listed(POOL_2, WSOL, USDT, VolumeMark::Missing),
        listed(POOL_3, USDC, USDT, VolumeMark::Enough),
        listed(POOL_1, WSOL, USDT, VolumeMark::TooLow),
        listed(POOL_2, USDC, USDT, VolumeMark::Enough),
    ];
    assert_eq!(choose_by_volume(&pools), vec![0, 2]);
}

#[test]
fn pools_with_enough_volume_are_all_taken() {
    let pools = vec![
        listed(POOL_1, WSOL, USDC, VolumeMark::Enough),
        listed(POOL_2, WSOL, USDT, VolumeMark::Enough),
    ];
    assert_eq!(choose_by_volume(&pools), vec![0, 1]);
    assert_eq!(choose_by_volume(&Vec::new()), Vec::<usize>::new());
}

#[test]
fn nothing_is_taken_behind_too_little_volume() {
    let pools = vec![
        listed(POOL_1, WSOL, USDC, VolumeMark::TooLow),
        listed(POOL_2, WSOL, USDT, VolumeMark::Enough),
    ];
    assert_eq!(choose_by_volume(&pools), Vec::<usize>::new());
    let pools = vec![
        listed(POOL_1, WSOL, USDC, VolumeMark::Missing),
        listed(POOL_2, WSOL, USDT, VolumeMark::Missing),
    ];
    assert_eq!(choose_by_volume(&pools), Vec::<usize>::new());
}

#[test]
fn pools_of_known_tokens_are_taken_once() {
    let known = vec![WSOL.to_string(), USDC.to_string()];
    let pools = vec![
        listed(POOL_1, WSOL, USDC, VolumeMark::Missing),
        listed(POOL_2, WSOL, USDT, VolumeMark::Enough),
        listed(POOL_1, USDC, WSOL, VolumeMark::Enough),
        listed(POOL_3, USDC, WSOL, VolumeMark::TooLow),
        listed(POOL_3, USDC, WSOL, VolumeMark::TooLow),
    ];
    assert_eq!(choose_known(&pools, &known), vec![0, 3]);
    assert_eq!(choose_known(&pools, &Vec::new()), Vec::<usize>::new());
}

#[test]
fn address_seen_with_unknown_tokens_is_still_new() {
    let known = vec![WSOL.to_string(), USDC.to_string()];
    let pools = vec![
        listed(POOL_1, WSOL, USDT, VolumeMark::Enough),
        listed(POOL_1, WSOL, USDC, VolumeMark::Enough),
        listed(POOL_1, WSOL, USDC, VolumeMark::Enough),
    ];
    assert_eq!(choose_known(&pools, &known), vec![1]);
}

#[test]
fn candidate_holds_the_keys_of_the_listing() {
    let pool = listed(POOL_1, WSOL, USDC, VolumeMark::Enough);
    let pair = to_pair_data(&pool, PoolType::Orca).unwrap();
    assert_eq!(pair.pair_name, "So1/EPj");
    assert_eq!(pair.pool_type, PoolType::Orca);
    assert_eq!(pair.pool_id, key(POOL_1));
    assert_eq!(pair.token_mint_a, key(WSOL));
    assert_eq!(pair.token_mint_b, key(USDC));
}

#[test]
fn address_of_zeros_is_thirty_two_ones() {
    let pool = listed("11111111111111111111111111111111", WSOL, USDC, VolumeMark::Enough);
    let pair = to_pair_data(&pool, PoolType::Orca).unwrap();
    assert_eq!(pair.pool_id, Address::new([0; 32]));
    let long = "1".repeat(50);
    assert!(to_pair_data(&listed(&long, WSOL, USDC, VolumeMark::Enough), PoolType::Orca).is_none());
}

#[test]
fn listing_with_a_bad_address_is_no_candidate() {
    assert!(to_pair_data(&listed("nonsense", WSOL, USDC, VolumeMark::Enough), PoolType::Orca)
        .is_none());
    assert!(to_pair_data(&listed(POOL_1, "0OIl", USDC, VolumeMark::Enough), PoolType::Orca)
        .is_none());
    assert!(to_pair_data(&listed(POOL_1, WSOL, "", VolumeMark::Enough), PoolType::Orca).is_none());
}

#[test]
fn candidates_come_in_the_order_of_the_places() {
    let pools = vec![
        listed(POOL_1, WSOL, USDC, VolumeMark::Enough),
        listed("broken", WSOL, USDT, VolumeMark::Enough),
        listed(POOL_3, USDC, USDT, VolumeMark::Enough),
    ];
    let pairs = pairs_at(&pools, &vec![2, 0], PoolType::Meteora).unwrap();
    assert_eq!(pairs.len(), 2);
    assert_eq!(pairs[0].pool_id, key(POOL_3));
    assert_eq!(pairs[0].token_mint_a, key(USDC));
    assert_eq!(pairs[0].pool_type, PoolType::Meteora);
    assert_eq!(pairs[1].pool_id, key(POOL_1));
    assert_eq!(pairs_at(&pools, &Vec::new(), PoolType::Meteora).unwrap().len(), 0);
}

#[test]
fn first_bad_address_is_reported() {
    let pools = vec![
        listed(POOL_1, WSOL, USDC, VolumeMark::Enough),
        listed("broken", WSOL, USDT, VolumeMark::Enough),
        listed(POOL_3, USDC, "broken too", VolumeMark::Enough),
    ];
    let all = choose_by_volume(&pools);
    assert_eq!(
        pairs_at(&pools, &all, PoolType::RaydiumAmm).unwrap_err(),
        PairError::BadAddress { index: 1 }
    );
    assert_eq!(
        pairs_at(&pools, &vec![2, 1], PoolType::RaydiumAmm).unwrap_err(),
        PairError::BadAddress { index: 2 }
    );
}

#[test]
fn tokens_are_listed_once_in_the_order_of_first_mention() {
    let pools = vec![
        listed(POOL_1, WSOL, USDC, VolumeMark::Enough),
        listed(POOL_2, USDT, WSOL, VolumeMark::Enough),
        listed(POOL_3, USDC, USDT, VolumeMark::Enough),
    ];
    assert_eq!(mints_at(&pools, &vec![0, 1, 2]), vec![WSOL, USDC, USDT]);
    assert_eq!(mints_at(&pools, &vec![1]), vec![USDT, WSOL]);
    assert_eq!(mints_at(&pools, &vec![2, 2]), vec![USDC, USDT]);
    assert_eq!(mints_at(&pools, &Vec::new()), Vec::<String>::new());
    let same = vec![listed(POOL_1, WSOL, WSOL, VolumeMark::Enough)];
    assert_eq!(mints_at(&same, &vec![0]), vec![WSOL]);
}

#[test]
fn pair_name_joins_the_symbols_with_a_dash() {
    assert_eq!(pair_name("SOL", "USDC"), "SOL-USDC");
    assert_eq!(pair_name("", ""), "-");
}

#[test]
fn merged_lists_name_each_token_once() {
    let first = vec![WSOL.to_string(), USDC.to_string(), WSOL.to_string()];
    let second = vec![USDT.to_string(), USDC.to_string()];
    assert_eq!(merge_mints(&first, &second), vec![WSOL, USDC, USDT]);
    assert_eq!(merge_mints(&second, &first), vec![USDT, USDC, WSOL]);
    assert_eq!(merge_mints(&Vec::new(), &second), vec![USDT, USDC]);
    assert_eq!(merge_mints(&first, &Vec::new()), vec![WSOL, USDC]);
    assert_eq!(merge_mints(&Vec::new(), &Vec::new()), Vec::<String>::new());
}
