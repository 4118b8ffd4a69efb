use arbitrager::address::Address;
use arbitrager::graph::PoolGraph;
use arbitrager::pool::{amount_or_no_quote, PoolType, NO_QUOTE};
use arbitrager::quarantine::QuarantineSet;
use arbitrager::registry::TokenRegistry;

fn address(tag: u8) -> Address {
    Address::new([tag; 32])
}

#[test]
fn addresses_are_the_same_when_all_bytes_are() {
    let mut bytes = [9u8; 32];
    assert_eq!(Address::new(bytes), address(9));
    bytes[31] = 8;
    assert_ne!(Address::new(bytes), address(9));
    bytes[31] = 9;
    bytes[0] = 8;
    assert_ne!(Address::new(bytes), address(9));
    assert_eq!(address(9).to_bytes(), [9u8; 32]);
}

#[test]
fn first_occurrence_gets_the_next_index() {
    let mut registry = TokenRegistry::new();
    assert_eq!(registry.len(), 0);
    assert_eq!(registry.get_or_create(address(5)), 0);
    assert_eq!(registry.get_or_create(address(3)), 1);
    assert_eq!(registry.get_or_create(address(9)), 2);
    assert_eq!(registry.len(), 3);
}

#[test]
fn later_occurrence_gets_the_same_index() {
    let mut registry = TokenRegistry::new();
    registry.get_or_create(address(5));
    registry.get_or_create(address(3));
    assert_eq!(registry.get_or_create(address(5)), 0);
    assert_eq!(registry.get_or_create(address(3)), 1);
    assert_eq!(registry.len(), 2);
}

#[test]
fn index_leads_back_to_the_identity() {
    let mut registry = TokenRegistry::new();
    registry.get_or_create(address(5));
    registry.get_or_create(address(3));
    assert_eq!(registry.index_to_identity(0), Some(address(5)));
    assert_eq!(registry.index_to_identity(1), Some(address(3)));
    assert_eq!(registry.index_to_identity(2), None);
    assert_eq!(registry.index_of(&address(3)), Some(1));
    assert_eq!(registry.index_of(&address(4)), None);
}

#[test]
fn quarantine_starts_empty_and_grows() {
    let mut quarantine = QuarantineSet::new();
    assert!(!quarantine.contains(&address(1)));
    quarantine.insert(address(1));
    assert!(quarantine.contains(&address(1)));
    assert!(!quarantine.contains(&address(2)));
    quarantine.insert(address(1));
    quarantine.insert(address(2));
    assert!(quarantine.contains(&address(1)));
    assert!(quarantine.contains(&address(2)));
}

#[test]
fn new_graph_has_no_token_and_no_pool() {
    let graph = PoolGraph::new();
    assert_eq!(graph.tokens(), 0);
    assert_eq!(graph.neighbors(0), Vec::<usize>::new());
    assert_eq!(graph.pools_between(0, 0), Vec::<usize>::new());
    assert_eq!(graph.pools_between(3, 1), Vec::<usize>::new());
}

#[test]
fn pool_stands_with_both_of_its_tokens() {
    let mut graph = PoolGraph::new();
    graph.add_pool(0, 1, 7);
    assert_eq!(graph.tokens(), 2);
    assert_eq!(graph.neighbors(0), vec![1]);
    assert_eq!(graph.neighbors(1), vec![0]);
    assert_eq!(graph.pools_between(0, 1), vec![7]);
    assert_eq!(graph.pools_between(1, 0), vec![7]);
    assert_eq!(graph.pools_between(0, 0), Vec::<usize>::new());
}

#[test]
fn adding_a_pool_twice_changes_nothing() {
    let mut graph = PoolGraph::new();
    graph.add_pool(0, 1, 7);
    graph.add_pool(0, 1, 7);
    graph.add_pool(1, 0, 7);
    assert_eq!(graph.neighbors(0), vec![1]);
    assert_eq!(graph.pools_between(0, 1), vec![7]);
    assert_eq!(graph.pools_between(1, 0), vec![7]);
}

#[test]
fn parallel_pools_keep_the_order_of_their_arrival() {
    let mut graph = PoolGraph::new();
    graph.add_pool(0, 1, 7);
    graph.add_pool(2, 0, 4);
    graph.add_pool(1, 0, 9);
    graph.add_pool(0, 1, 2);
    assert_eq!(graph.tokens(), 3);
    assert_eq!(graph.neighbors(0), vec![1, 2]);
    assert_eq!(graph.neighbors(1), vec![0]);
    assert_eq!(graph.neighbors(2), vec![0]);
    assert_eq!(graph.pools_between(0, 1), vec![7, 9, 2]);
    assert_eq!(graph.pools_between(1, 0), vec![7, 9, 2]);
    assert_eq!(graph.pools_between(0, 2), vec![4]);
    assert_eq!(graph.pools_between(1, 2), Vec::<usize>::new());
}

#[test]
fn graph_grows_to_hold_the_largest_token() {
    let mut graph = PoolGraph::new();
    graph.add_pool(4, 1, 0);
    assert_eq!(graph.tokens(), 5);
    assert_eq!(graph.neighbors(0), Vec::<usize>::new());
    assert_eq!(graph.neighbors(4), vec![1]);
    assert_eq!(graph.neighbors(5), Vec::<usize>::new());
    assert_eq!(graph.pools_between(9, 1), Vec::<usize>::new());
}

#[test]
fn pool_of_one_token_stands_with_it_once() {
    let mut graph = PoolGraph::new();
    graph.add_pool(2, 2, 5);
    assert_eq!(graph.neighbors(2), vec![2]);
    assert_eq!(graph.pools_between(2, 2), vec![5]);
}

#[test]
fn failed_pricing_is_no_quote() {
    assert_eq!(amount_or_no_quote(Some(17)), 17);
    assert_eq!(amount_or_no_quote(Some(0)), 0);
    assert_eq!(amount_or_no_quote(None), NO_QUOTE);
    assert_eq!(NO_QUOTE, 0);
}

#[test]
fn pool_types_differ() {
    assert_eq!(PoolType::Orca, PoolType::Orca);
    assert_ne!(PoolType::Orca, PoolType::Meteora);
    assert_ne!(PoolType::RaydiumAmm, PoolType::Meteora);
}
