use driver::access_list::{AccessList, AccessListItem, StorageKey};
use driver::amount::Amount;
use driver::eth::{Address, TokenAddress};
use driver::solution::{Fulfillment, Kind, Order, PartialAccessList, Solution, Solver};

fn item(a: u8, keys: &[u8]) -> AccessListItem {
    AccessListItem { address: Address([a; 20]), storage_keys: keys.iter().map(|k| StorageKey([*k; 32])).collect() }
}

#[test]
fn merge_unites_accounts_and_slots() {
    let a = AccessList::from_items(&vec![item(1, &[1, 2]), item(2, &[])]);
    let b = AccessList::from_items(&vec![item(1, &[2, 3]), item(3, &[4])]);
    let m = a.merge(b);
    assert_eq!(m.items(), &vec![item(1, &[1, 2, 3]), item(2, &[]), item(3, &[4])]);
}

#[test]
fn from_items_lists_each_account_once() {
    let l = AccessList::from_items(&vec![item(1, &[1]), item(1, &[1, 2])]);
    assert_eq!(l.items(), &vec![item(1, &[1, 2])]);
}

#[test]
fn merge_all_folds_from_empty() {
    let lists = vec![AccessList::from_items(&vec![item(5, &[1])]), AccessList::new(), AccessList::from_items(&vec![item(4, &[])])];
    let m = AccessList::merge_all(&lists);
    assert_eq!(m.items(), &vec![item(5, &[1]), item(4, &[])]);
    assert!(AccessList::merge_all(&Vec::new()).items().is_empty());
}

fn trade(buy: u8) -> Fulfillment {
    Fulfillment {
        order: Order { kind: Kind::Market, buy_token: TokenAddress(Address([buy; 20])), receiver: Address([7; 20]) },
        executed: Amount::from_u128(1),
    }
}

#[test]
fn partial_access_list_steps() {
    let s = Solution { trades: Vec::new(), prices: Vec::new(), interactions: Vec::new(), solver: Solver { account: Address([8; 20]) } };
    match s.partial_access_list(&trade(1)) {
        PartialAccessList::Done(l) => assert!(l.items().is_empty()),
        other => panic!("{other:?}"),
    }
    assert!(matches!(s.partial_access_list(&trade(0xee)), PartialAccessList::CheckReceiver));
    match s.partial_access_list_after_check(&trade(0xee), false) {
        PartialAccessList::Done(l) => assert!(l.items().is_empty()),
        other => panic!("{other:?}"),
    }
    match s.partial_access_list_after_check(&trade(0xee), true) {
        PartialAccessList::Simulate(tx) => {
            assert_eq!(tx.from, Address([8; 20]));
            assert_eq!(tx.to, Address([7; 20]));
            assert_eq!(tx.value, Amount::from_u128(1));
            assert!(tx.input.is_empty());
            assert!(tx.access_list.items().is_empty());
        }
        other => panic!("{other:?}"),
    }
}
