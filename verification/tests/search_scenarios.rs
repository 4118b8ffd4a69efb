use std::cell::Cell;

use arbitrager::address::Address;
use arbitrager::arb::Arbitrager;
use arbitrager::pool::PoolOperations;
use arbitrager::quarantine::QuarantineSet;
use arbitrager::search::{Opportunity, PricingFailure, SearchError};

/// A pool that answers from a list of prices and counts how often it is asked.
struct TablePool {
    id: Address,
    mints: (Address, Address),
    prices: Vec<(bool, u64, u64)>,
    asked: Cell<u32>,
}

impl TablePool {
    fn new(id: u8, a: u8, b: u8, prices: &[(bool, u64, u64)]) -> TablePool {
        TablePool {
            id: address(id),
            mints: (address(a), address(b)),
            prices: prices.to_vec(),
            asked: Cell::new(0),
        }
    }
}

impl PoolOperations for TablePool {
    fn quote(&self, a_to_b: bool, amount_in: u64) -> u64 {
        for &(direction, amount, paid) in &self.prices {
            if direction == a_to_b && amount == amount_in {
                return paid;
            }
        }
        0
    }

    fn calc_quote(&self, a_to_b: bool, amount_in: u64) -> u64 {
        self.asked.set(self.asked.get() + 1);
        self.quote(a_to_b, amount_in)
    }

    fn mints(&self) -> (Address, Address) {
        self.mints
    }

    fn id(&self) -> Address {
        self.id
    }

    fn get_mints(&self) -> (Address, Address) {
        self.mints()
    }

    fn get_pool_id(&self) -> Address {
        self.id()
    }
}

fn address(tag: u8) -> Address {
    Address::new([tag; 32])
}

const A: u8 = 1;
const B: u8 = 2;
const C: u8 = 3;
const POOL_AB: u8 = 101;
const POOL_BC: u8 = 102;
const POOL_CA: u8 = 103;
const POOL_DRY: u8 = 104;

fn triangle(closing_price: u64) -> Arbitrager<TablePool> {
    let mut arbitrager = Arbitrager::new();
    arbitrager.add_pool(TablePool::new(POOL_AB, A, B, &[(true, 1000, 1000)]));
    arbitrager.add_pool(TablePool::new(POOL_BC, B, C, &[(true, 1000, 1000)]));
    arbitrager.add_pool(TablePool::new(POOL_CA, C, A, &[(true, 1000, closing_price)]));
    arbitrager
}

#[test]
fn single_pool_is_not_traded_twice() {
    let mut arbitrager = Arbitrager::new();
    arbitrager.add_pool(TablePool::new(POOL_AB, A, B, &[(true, 1000, 1000), (false, 1000, 1100)]));
    let start = arbitrager.token_index(&address(A)).unwrap();
    let mut quarantine = QuarantineSet::new();
    let found = arbitrager.search(start, 1000, 3, 0, &mut quarantine).unwrap().opportunities;
    assert!(found.is_empty());
    assert!(!quarantine.contains(&address(POOL_AB)));
}

#[test]
fn three_hop_cycle_is_reported() {
    let arbitrager = triangle(1600);
    let a = arbitrager.token_index(&address(A)).unwrap();
    let b = arbitrager.token_index(&address(B)).unwrap();
    let c = arbitrager.token_index(&address(C)).unwrap();
    let mut quarantine = QuarantineSet::new();
    let found = arbitrager.search(a, 1000, 3, 500, &mut quarantine).unwrap().opportunities;
    assert_eq!(
        found,
        vec![Opportunity {
            token_path: vec![a, b, c, a],
            pool_path: vec![address(POOL_AB), address(POOL_BC), address(POOL_CA)],
            initial_amount: 1000,
            final_amount: 1600,
            profit: 600,
        }]
    );
}

#[test]
fn cycle_under_the_threshold_is_not_reported() {
    let arbitrager = triangle(1400);
    let a = arbitrager.token_index(&address(A)).unwrap();
    let mut quarantine = QuarantineSet::new();
    let found = arbitrager.search(a, 1000, 3, 500, &mut quarantine).unwrap().opportunities;
    assert!(found.is_empty());
}

#[test]
fn cycle_at_the_threshold_is_not_reported() {
    let arbitrager = triangle(1500);
    let a = arbitrager.token_index(&address(A)).unwrap();
    let mut quarantine = QuarantineSet::new();
    assert!(arbitrager.search(a, 1000, 3, 500, &mut quarantine).unwrap().opportunities.is_empty());
    let mut quarantine = QuarantineSet::new();
    assert_eq!(arbitrager.search(a, 1000, 3, 499, &mut quarantine).unwrap().opportunities.len(), 1);
}

#[test]
fn pool_without_price_is_quarantined_and_asked_once() {
    let mut arbitrager = Arbitrager::new();
    let dry = arbitrager.add_pool(TablePool::new(POOL_DRY, A, B, &[]));
    arbitrager.add_pool(TablePool::new(POOL_AB, A, C, &[(true, 1000, 900), (false, 1000, 1000)]));
    arbitrager.add_pool(TablePool::new(POOL_BC, C, B, &[(true, 900, 800), (false, 1000, 1000)]));
    let a = arbitrager.token_index(&address(A)).unwrap();
    let b = arbitrager.token_index(&address(B)).unwrap();
    let mut quarantine = QuarantineSet::new();
    let report = arbitrager.search(a, 1000, 3, 0, &mut quarantine).unwrap();
    assert!(report.opportunities.is_empty());
    assert_eq!(
        report.failures,
        vec![PricingFailure { pool: address(POOL_DRY), src: a, dst: b, amount_in: 1000 }]
    );
    assert!(quarantine.contains(&address(POOL_DRY)));
    // The walk meets POOL_DRY from A at once, and would meet it again from B after A, C, B.
    assert_eq!(arbitrager.pool(dry).unwrap().asked.get(), 1);
}

#[test]
fn quarantined_pool_is_not_asked() {
    let arbitrager = triangle(1600);
    let a = arbitrager.token_index(&address(A)).unwrap();
    let mut quarantine = QuarantineSet::new();
    quarantine.insert(address(POOL_BC));
    let found = arbitrager.search(a, 1000, 3, 500, &mut quarantine).unwrap().opportunities;
    assert!(found.is_empty());
    let skipped = arbitrager.handle_of(&address(POOL_BC)).unwrap();
    assert_eq!(arbitrager.pool(skipped).unwrap().asked.get(), 0);
}

#[test]
fn hop_limit_out_of_range_is_refused() {
    let arbitrager = triangle(1600);
    let mut quarantine = QuarantineSet::new();
    assert_eq!(arbitrager.search(0, 1000, 0, 500, &mut quarantine), Err(SearchError::InvalidMaxHops));
    assert_eq!(arbitrager.search(0, 1000, 4, 500, &mut quarantine), Err(SearchError::InvalidMaxHops));
    assert_eq!(arbitrager.search(9, 1000, 4, 500, &mut quarantine), Err(SearchError::InvalidMaxHops));
}

#[test]
fn unknown_start_token_is_refused() {
    let arbitrager = triangle(1600);
    let mut quarantine = QuarantineSet::new();
    assert_eq!(
        arbitrager.search(3, 1000, 3, 500, &mut quarantine),
        Err(SearchError::UnknownStartToken)
    );
}

#[test]
fn two_hop_limit_misses_the_triangle() {
    let arbitrager = triangle(1600);
    let a = arbitrager.token_index(&address(A)).unwrap();
    let mut quarantine = QuarantineSet::new();
    assert!(arbitrager.search(a, 1000, 2, 500, &mut quarantine).unwrap().opportunities.is_empty());
}

#[test]
fn search_twice_gives_the_same_list() {
    let arbitrager = triangle(1600);
    let a = arbitrager.token_index(&address(A)).unwrap();
    let mut first_quarantine = QuarantineSet::new();
    let first = arbitrager.search(a, 1000, 3, 500, &mut first_quarantine).unwrap().opportunities;
    let mut second_quarantine = QuarantineSet::new();
    let second = arbitrager.search(a, 1000, 3, 500, &mut second_quarantine).unwrap().opportunities;
    assert_eq!(first, second);
}

#[test]
fn failures_say_which_pool_between_which_tokens_for_which_amount() {
    let arbitrager = triangle(1600);
    let a = arbitrager.token_index(&address(A)).unwrap();
    let b = arbitrager.token_index(&address(B)).unwrap();
    let c = arbitrager.token_index(&address(C)).unwrap();
    let mut quarantine = QuarantineSet::new();
    let report = arbitrager.search(a, 1000, 3, 500, &mut quarantine).unwrap();
    assert_eq!(report.opportunities.len(), 1);
    // After the find the walk tries the closing pool from the start token, the wrong way
    // round for its prices.
    assert_eq!(
        report.failures,
        vec![PricingFailure { pool: address(POOL_CA), src: a, dst: c, amount_in: 1000 }]
    );
    assert!(quarantine.contains(&address(POOL_CA)));
    assert!(!quarantine.contains(&address(POOL_AB)));
    assert!(!quarantine.contains(&address(POOL_BC)));

    // A walk that begins with that pool quarantined never asks it, and never closes.
    let report = arbitrager.search(a, 1000, 3, 500, &mut quarantine).unwrap();
    assert!(report.opportunities.is_empty());
    assert!(report.failures.is_empty());
    assert_eq!(b, 1);
}

#[test]
fn walk_goes_through_the_pools_in_the_order_of_their_arrival() {
    let mut arbitrager = Arbitrager::new();
    arbitrager.add_pool(TablePool::new(11, A, B, &[(true, 1000, 2000)]));
    arbitrager.add_pool(TablePool::new(12, A, B, &[(true, 1000, 3000), (false, 2000, 2400)]));
    arbitrager.add_pool(TablePool::new(13, B, A, &[(true, 2000, 2600), (true, 3000, 3600)]));
    let a = arbitrager.token_index(&address(A)).unwrap();
    let b = arbitrager.token_index(&address(B)).unwrap();
    let mut quarantine = QuarantineSet::new();
    let report = arbitrager.search(a, 1000, 3, 0, &mut quarantine).unwrap();
    let walks: Vec<(Vec<Address>, u64)> = report
        .opportunities
        .iter()
        .map(|found| (found.pool_path.iter().copied().collect(), found.final_amount))
        .collect();
    assert_eq!(
        walks,
        vec![
            (vec![address(11), address(12)], 2400),
            (vec![address(11), address(13)], 2600),
            (vec![address(12), address(13)], 3600),
        ]
    );
    for found in &report.opportunities {
        assert_eq!(found.token_path, vec![a, b, a]);
        assert_eq!(found.initial_amount, 1000);
        assert_eq!(found.profit, found.final_amount - 1000);
    }
    // The first pool has no price for what the second paid, and the third none for the way
    // from the start token.
    assert_eq!(
        report.failures,
        vec![
            PricingFailure { pool: address(11), src: b, dst: a, amount_in: 3000 },
            PricingFailure { pool: address(13), src: a, dst: b, amount_in: 1000 },
        ]
    );
}
