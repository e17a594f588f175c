use trade::stores::{OrderOwnedTrades, OwnedTPTrades, OwnedTrades, TradePairOwnedTrades};
use trade::table::{Dup, Key, Table};
use trade::types::{OwnerPair, OwnerSlot, PairSlot, Tokens, H256};

fn h(n: u128) -> H256 {
    H256 { hi: 0, lo: n }
}

#[test]
fn a_new_table_is_empty() {
    let t: Table<u64, u64> = Table::new();
    assert_eq!(t.get(&1), None);
    assert!(!t.contains_key(&1));
}

#[test]
fn insert_then_get() {
    let mut t: Table<H256, u64> = Table::new();
    t.insert(h(1), 10);
    t.insert(h(2), 20);
    assert_eq!(t.get(&h(1)), Some(&10));
    assert_eq!(t.get(&h(2)), Some(&20));
    assert_eq!(t.get(&h(3)), None);
    assert!(t.contains_key(&h(2)));
    assert!(!t.contains_key(&H256 { hi: 1, lo: 2 }));
}

#[test]
fn insert_replaces() {
    let mut t: Table<H256, u64> = Table::new();
    t.insert(h(1), 10);
    t.insert(h(2), 20);
    t.insert(h(1), 11);
    assert_eq!(t.get(&h(1)), Some(&11));
    assert_eq!(t.get(&h(2)), Some(&20));
}

#[test]
fn remove_takes_out() {
    let mut t: Table<u64, u64> = Table::new();
    t.insert(1, 10);
    t.insert(2, 20);
    t.insert(3, 30);
    assert_eq!(t.remove(&2), Some(20));
    assert_eq!(t.remove(&2), None);
    assert_eq!(t.get(&1), Some(&10));
    assert_eq!(t.get(&2), None);
    assert_eq!(t.get(&3), Some(&30));
    t.insert(2, 21);
    assert_eq!(t.get(&2), Some(&21));
}

#[test]
fn a_copy_is_independent() {
    let mut t: Table<u64, Vec<H256>> = Table::new();
    t.insert(1, vec![h(1), h(2)]);
    let copy = t.dup();
    t.insert(1, vec![h(3)]);
    t.insert(2, vec![]);
    assert_eq!(copy.get(&1), Some(&vec![h(1), h(2)]));
    assert_eq!(copy.get(&2), None);
    assert_eq!(t.get(&1), Some(&vec![h(3)]));
}

#[test]
fn keys_are_compared_by_all_their_parts() {
    assert!(h(1).same(&h(1)));
    assert!(!h(1).same(&H256 { hi: 1, lo: 1 }));
    assert!(!h(1).same(&h(2)));
    assert!(Some(5u64).same(&Some(5)));
    assert!(!Some(5u64).same(&Some(6)));
    assert!(!Some(5u64).same(&None));
    assert!(None::<u64>.same(&None));
    assert!(Tokens { base: h(1), quote: h(2) }.same(&Tokens { base: h(1), quote: h(2) }));
    assert!(!Tokens { base: h(1), quote: h(2) }.same(&Tokens { base: h(2), quote: h(1) }));
    assert!(OwnerSlot { owner: 1, index: 2 }.same(&OwnerSlot { owner: 1, index: 2 }));
    assert!(!OwnerSlot { owner: 1, index: 2 }.same(&OwnerSlot { owner: 2, index: 1 }));
    assert!(PairSlot { pair: h(1), index: 2 }.same(&PairSlot { pair: h(1), index: 2 }));
    assert!(!PairSlot { pair: h(1), index: 2 }.same(&PairSlot { pair: h(1), index: 3 }));
    assert!(OwnerPair { owner: 1, pair: h(2) }.same(&OwnerPair { owner: 1, pair: h(2) }));
    assert!(!OwnerPair { owner: 1, pair: h(2) }.same(&OwnerPair { owner: 1, pair: h(3) }));
}

#[test]
fn trades_are_listed_in_the_order_in_which_they_were_added() {
    let mut by_order = OrderOwnedTrades::new();
    assert_eq!(by_order.get(h(1)), None);
    by_order.add_trade(h(1), h(10));
    by_order.add_trade(h(2), h(10));
    by_order.add_trade(h(1), h(11));
    assert_eq!(by_order.get(h(1)), Some(vec![h(10), h(11)]));
    assert_eq!(by_order.get(h(2)), Some(vec![h(10)]));
    assert_eq!(by_order.get(h(3)), None);

    let mut by_pair = TradePairOwnedTrades::new();
    by_pair.add_trade(h(1), h(10));
    by_pair.add_trade(h(1), h(11));
    by_pair.add_trade(h(1), h(10));
    assert_eq!(by_pair.get(h(1)), Some(vec![h(10), h(11), h(10)]));

    let mut by_account = OwnedTrades::new();
    by_account.add_trade(7, h(10));
    by_account.add_trade(8, h(11));
    by_account.add_trade(7, h(12));
    assert_eq!(by_account.get(7), Some(vec![h(10), h(12)]));
    assert_eq!(by_account.get(8), Some(vec![h(11)]));
    assert_eq!(by_account.get(9), None);

    let mut by_both = OwnedTPTrades::new();
    by_both.add_trade(7, h(1), h(10));
    by_both.add_trade(7, h(2), h(11));
    by_both.add_trade(7, h(1), h(12));
    assert_eq!(by_both.get(7, h(1)), Some(vec![h(10), h(12)]));
    assert_eq!(by_both.get(7, h(2)), Some(vec![h(11)]));
    assert_eq!(by_both.get(8, h(1)), None);
}
