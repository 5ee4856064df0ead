//! EIP-2930 access lists: the accounts and storage slots that a
//! transaction touches.

use vstd::prelude::*;
use crate::eth::Address;

verus! {

broadcast use vstd::array::group_array_axioms;

/// A 32-byte storage slot of an account.
#[derive(Clone, Copy, Debug, PartialEq, Eq)]
pub struct StorageKey(pub [u8; 32]);

impl StorageKey {
    /// The bytes of the key.
    pub open spec fn bytes(self) -> Seq<u8> {
        self.0@
    }

    /// Whether two keys are the same.
    pub fn same_as(&self, other: &StorageKey) -> (r: bool)
        ensures
            r == (self.bytes() == other.bytes()),
    {
        let mut i: usize = 0;
        while i < 32
            invariant
                0 <= i <= 32,
                forall|j: int| 0 <= j < i ==> self.0[j] == other.0[j],
            decreases 32 - i,
        {
            if self.0[i] != other.0[i] {
                proof {
                    assert(self.bytes()[i as int] != other.bytes()[i as int]);
                }
                return false;
            }
            i = i + 1;
        }
        proof {
            assert(self.bytes() =~= other.bytes());
        }
        true
    }
}

/// An account together with storage slots of it.
#[derive(Clone, Debug, PartialEq, Eq)]
pub struct AccessListItem {
    pub address: Address,
    pub storage_keys: Vec<StorageKey>,
}

/// The storage slots named by `keys`, as bytes.
pub open spec fn key_set(keys: Seq<StorageKey>) -> Set<Seq<u8>> {
    Set::new(|k: Seq<u8>| exists|j: int| 0 <= j < keys.len() && #[trigger] keys[j].bytes() == k)
}

/// The accounts that `items` name, by their address bytes.
pub open spec fn items_accounts(items: Seq<AccessListItem>) -> Set<Seq<u8>> {
    Set::new(
        |a: Seq<u8>| exists|i: int| 0 <= i < items.len() && (#[trigger] items[i]).address.bytes() == a,
    )
}

/// The storage slots that `items` name, as pairs of address bytes and key
/// bytes.
pub open spec fn items_slots(items: Seq<AccessListItem>) -> Set<(Seq<u8>, Seq<u8>)> {
    Set::new(
        |p: (Seq<u8>, Seq<u8>)|
            exists|i: int|
                0 <= i < items.len() && (#[trigger] items[i]).address.bytes() == p.0 && key_set(
                    items[i].storage_keys@,
                ).contains(p.1),
    )
}

/// The storage slots that one item names.
pub open spec fn item_slots(item: AccessListItem) -> Set<(Seq<u8>, Seq<u8>)> {
    Set::new(
        |p: (Seq<u8>, Seq<u8>)|
            item.address.bytes() == p.0 && key_set(item.storage_keys@).contains(p.1),
    )
}

/// Appending a key adds its bytes to the key set.
proof fn lemma_key_set_push(keys: Seq<StorageKey>, k: StorageKey)
    ensures
        key_set(keys.push(k)) == key_set(keys).insert(k.bytes()),
{
    let pushed = keys.push(k);
    assert forall|b: Seq<u8>| key_set(pushed).contains(b) <==> key_set(keys).insert(k.bytes()).contains(b) by {
        if key_set(pushed).contains(b) {
            let j = choose|j: int| 0 <= j < pushed.len() && #[trigger] pushed[j].bytes() == b;
            if j < keys.len() {
                assert(pushed[j] == keys[j]);
            }
        }
        if key_set(keys).contains(b) {
            let j = choose|j: int| 0 <= j < keys.len() && #[trigger] keys[j].bytes() == b;
            assert(pushed[j] == keys[j]);
        }
        if b == k.bytes() {
            assert(pushed[keys.len() as int] == k);
        }
    }
    assert(key_set(pushed) =~= key_set(keys).insert(k.bytes()));
}

/// Adds the keys of `extra` that `keys` lacks to `keys`.
fn add_keys(keys: &mut Vec<StorageKey>, extra: &Vec<StorageKey>)
    ensures
        key_set(final(keys)@) == key_set(old(keys)@).union(key_set(extra@)),
{
    let ghost start = keys@;
    let mut j: usize = 0;
    while j < extra.len()
        invariant
            0 <= j <= extra@.len(),
            key_set(keys@) == key_set(start).union(key_set(extra@.take(j as int))),
        decreases extra@.len() - j,
    {
        let k = extra[j];
        let mut t: usize = 0;
        let mut found = false;
        while t < keys.len()
            invariant_except_break
                0 <= t <= keys@.len(),
                !found,
            ensures
                found ==> t < keys@.len() && keys@[t as int].bytes() == k.bytes(),
            decreases keys@.len() - t,
        {
            if keys[t].same_as(&k) {
                found = true;
                break;
            }
            t = t + 1;
        }
        let ghost before = keys@;
        proof {
            assert(extra@.take(j + 1) =~= extra@.take(j as int).push(k));
            lemma_key_set_push(extra@.take(j as int), k);
        }
        if found {
            proof {
                assert(key_set(before).contains(k.bytes()));
                assert(key_set(keys@) =~= key_set(start).union(key_set(extra@.take(j + 1))));
            }
        } else {
            keys.push(k);
            proof {
                lemma_key_set_push(before, k);
                assert(key_set(keys@) =~= key_set(start).union(key_set(extra@.take(j + 1))));
            }
        }
        j = j + 1;
    }
    proof {
        assert(extra@.take(extra@.len() as int) =~= extra@);
    }
}

/// Appending an item adds its account.
proof fn lemma_items_accounts_push(items: Seq<AccessListItem>, x: AccessListItem)
    ensures
        items_accounts(items.push(x)) == items_accounts(items).insert(x.address.bytes()),
{
    let pushed = items.push(x);
    assert forall|a: Seq<u8>| #[trigger] items_accounts(pushed).contains(a) <==> items_accounts(items).insert(x.address.bytes()).contains(a) by {
        if items_accounts(pushed).contains(a) {
            let i = choose|i: int| 0 <= i < pushed.len() && (#[trigger] pushed[i]).address.bytes() == a;
            if i < items.len() {
                assert(items[i] == pushed[i]);
            }
        }
        if items_accounts(items).contains(a) {
            let i = choose|i: int| 0 <= i < items.len() && (#[trigger] items[i]).address.bytes() == a;
            assert(items[i] == pushed[i]);
        }
        if a == x.address.bytes() {
            assert(pushed[items.len() as int] == x);
        }
    }
    assert(items_accounts(pushed) =~= items_accounts(items).insert(x.address.bytes()));
}

/// Appending an item adds its storage slots.
proof fn lemma_items_slots_push(items: Seq<AccessListItem>, x: AccessListItem)
    ensures
        items_slots(items.push(x)) == items_slots(items).union(item_slots(x)),
{
    let pushed = items.push(x);
    assert forall|p: (Seq<u8>, Seq<u8>)| #[trigger] items_slots(pushed).contains(p) <==> items_slots(items).union(item_slots(x)).contains(p) by {
        if items_slots(pushed).contains(p) {
            let i = choose|i: int| 0 <= i < pushed.len() && (#[trigger] pushed[i]).address.bytes() == p.0 && key_set(pushed[i].storage_keys@).contains(p.1);
            if i < items.len() {
                assert(items[i] == pushed[i]);
            }
        }
        if items_slots(items).contains(p) {
            let i = choose|i: int| 0 <= i < items.len() && (#[trigger] items[i]).address.bytes() == p.0 && key_set(items[i].storage_keys@).contains(p.1);
            assert(items[i] == pushed[i]);
        }
        if item_slots(x).contains(p) {
            assert(pushed[items.len() as int] == x);
        }
    }
    assert(items_slots(pushed) =~= items_slots(items).union(item_slots(x)));
}

/// The accounts of all the given access lists.
pub open spec fn all_accounts(lists: Seq<AccessList>) -> Set<Seq<u8>>
    decreases lists.len(),
{
    if lists.len() == 0 {
        Set::empty()
    } else {
        all_accounts(lists.drop_last()).union(lists.last().accounts())
    }
}

/// The storage slots of all the given access lists.
pub open spec fn all_slots(lists: Seq<AccessList>) -> Set<(Seq<u8>, Seq<u8>)>
    decreases lists.len(),
{
    if lists.len() == 0 {
        Set::empty()
    } else {
        all_slots(lists.drop_last()).union(lists.last().slots())
    }
}

/// An access list: accounts, each listed once, with the storage slots of
/// each that a transaction touches.
#[derive(Clone, Debug)]
pub struct AccessList {
    items: Vec<AccessListItem>,
}

impl AccessList {
    /// Each account is listed once.
    pub closed spec fn wf(self) -> bool {
        forall|i: int, j: int|
            0 <= i < self.items@.len() && 0 <= j < self.items@.len() && i != j
                ==> (#[trigger] self.items@[i]).address != (#[trigger] self.items@[j]).address
    }

    /// The accounts in the list, by their address bytes.
    pub closed spec fn accounts(self) -> Set<Seq<u8>> {
        items_accounts(self.items@)
    }

    /// The storage slots in the list, as pairs of address bytes and key
    /// bytes.
    pub closed spec fn slots(self) -> Set<(Seq<u8>, Seq<u8>)> {
        items_slots(self.items@)
    }

    /// The empty access list.
    pub fn new() -> (r: AccessList)
        ensures
            r.wf(),
            r.accounts() == Set::<Seq<u8>>::empty(),
            r.slots() == Set::<(Seq<u8>, Seq<u8>)>::empty(),
    {
        let r = AccessList { items: Vec::new() };
        proof {
            assert(r.accounts() =~= Set::<Seq<u8>>::empty());
            assert(r.slots() =~= Set::<(Seq<u8>, Seq<u8>)>::empty());
        }
        r
    }

    /// The items of the list, each account once.
    pub fn items(&self) -> (r: &Vec<AccessListItem>)
        requires
            self.wf(),
        ensures
            items_accounts(r@) == self.accounts(),
            items_slots(r@) == self.slots(),
            forall|i: int, j: int|
                0 <= i < r@.len() && 0 <= j < r@.len() && i != j ==> (#[trigger] r@[i]).address
                    != (#[trigger] r@[j]).address,
    {
        &self.items
    }

    /// Adds the accounts and storage slots of `items` to the list.
    pub fn extend(&mut self, items: &Vec<AccessListItem>)
        requires
            old(self).wf(),
        ensures
            final(self).wf(),
            final(self).accounts() == old(self).accounts().union(items_accounts(items@)),
            final(self).slots() == old(self).slots().union(items_slots(items@)),
    {
        let ghost start_accounts = self.accounts();
        let ghost start_slots = self.slots();
        let mut j: usize = 0;
        while j < items.len()
            invariant
                0 <= j <= items@.len(),
                self.wf(),
                self.accounts() == start_accounts.union(items_accounts(items@.take(j as int))),
                self.slots() == start_slots.union(items_slots(items@.take(j as int))),
            decreases items@.len() - j,
        {
            self.insert_item(&items[j]);
            proof {
                assert(items@.take(j + 1) =~= items@.take(j as int).push(items@[j as int]));
                lemma_items_accounts_push(items@.take(j as int), items@[j as int]);
                lemma_items_slots_push(items@.take(j as int), items@[j as int]);
                assert(self.accounts() =~= start_accounts.union(items_accounts(items@.take(j + 1))));
                assert(self.slots() =~= start_slots.union(items_slots(items@.take(j + 1))));
            }
            j = j + 1;
        }
        proof {
            assert(items@.take(items@.len() as int) =~= items@);
        }
    }

    /// The access list of the given items, listing each account once.
    pub fn from_items(items: &Vec<AccessListItem>) -> (r: AccessList)
        ensures
            r.wf(),
            r.accounts() == items_accounts(items@),
            r.slots() == items_slots(items@),
    {
        let mut r = AccessList::new();
        r.extend(items);
        proof {
            assert(r.accounts() =~= items_accounts(items@));
            assert(r.slots() =~= items_slots(items@));
        }
        r
    }

    /// The union of two access lists.
    pub fn merge(self, other: AccessList) -> (r: AccessList)
        requires
            self.wf(),
            other.wf(),
        ensures
            r.wf(),
            r.accounts() == self.accounts().union(other.accounts()),
            r.slots() == self.slots().union(other.slots()),
    {
        let mut r = self;
        r.extend(&other.items);
        r
    }

    /// All given access lists merged into one, starting from the empty list.
    pub fn merge_all(lists: &Vec<AccessList>) -> (r: AccessList)
        requires
            forall|i: int| 0 <= i < lists@.len() ==> (#[trigger] lists@[i]).wf(),
        ensures
            r.wf(),
            r.accounts() == all_accounts(lists@),
            r.slots() == all_slots(lists@),
    {
        let mut r = AccessList::new();
        let mut i: usize = 0;
        while i < lists.len()
            invariant
                0 <= i <= lists@.len(),
                forall|k: int| 0 <= k < lists@.len() ==> (#[trigger] lists@[k]).wf(),
                r.wf(),
                r.accounts() == all_accounts(lists@.take(i as int)),
                r.slots() == all_slots(lists@.take(i as int)),
            decreases lists@.len() - i,
        {
            proof {
                assert(lists@.take(i + 1).drop_last() =~= lists@.take(i as int));
            }
            r.extend(&lists[i].items);
            i = i + 1;
        }
        proof {
            assert(lists@.take(lists@.len() as int) =~= lists@);
        }
        r
    }

    /// Adds an account and its storage slots to the list.
    pub fn insert_item(&mut self, item: &AccessListItem)
        requires
            old(self).wf(),
        ensures
            final(self).wf(),
            final(self).accounts() == old(self).accounts().insert(item.address.bytes()),
            final(self).slots() == old(self).slots().union(item_slots(*item)),
    {
        let ghost old_items = self.items@;
        let mut idx: usize = 0;
        let mut found = false;
        while idx < self.items.len()
            invariant_except_break
                0 <= idx <= self.items@.len(),
                !found,
                forall|j: int| 0 <= j < idx ==> (#[trigger] self.items@[j]).address != item.address,
            ensures
                0 <= idx <= self.items@.len(),
                found ==> idx < self.items@.len() && self.items@[idx as int].address == item.address,
                !found ==> forall|j: int|
                    0 <= j < self.items@.len() ==> (#[trigger] self.items@[j]).address != item.address,
            decreases self.items@.len() - idx,
        {
            if self.items[idx].address.same_as(&item.address) {
                found = true;
                break;
            }
            idx = idx + 1;
        }
        if found {
            let mut existing = self.items.remove(idx);
            let ghost before = existing;
            add_keys(&mut existing.storage_keys, &item.storage_keys);
            self.items.insert(idx, existing);
            proof {
                assert(self.items@ =~= old_items.update(idx as int, existing));
                assert(existing.address == before.address);
                assert(before == old_items[idx as int]);
                assert forall|a: Seq<u8>| #[trigger] self.accounts().contains(a) <==> items_accounts(old_items).insert(item.address.bytes()).contains(a) by {
                    if self.accounts().contains(a) {
                        let i = choose|i: int| 0 <= i < self.items@.len() && (#[trigger] self.items@[i]).address.bytes() == a;
                        assert(old_items[i].address == self.items@[i].address);
                    }
                    if items_accounts(old_items).contains(a) {
                        let i = choose|i: int| 0 <= i < old_items.len() && (#[trigger] old_items[i]).address.bytes() == a;
                        assert(old_items[i].address == self.items@[i].address);
                    }
                    if a == item.address.bytes() {
                        assert(self.items@[idx as int].address.bytes() == a);
                    }
                }
                assert(self.accounts() =~= items_accounts(old_items).insert(item.address.bytes()));
                assert forall|p: (Seq<u8>, Seq<u8>)| #[trigger] self.slots().contains(p) <==> items_slots(old_items).union(item_slots(*item)).contains(p) by {
                    if self.slots().contains(p) {
                        let i = choose|i: int| 0 <= i < self.items@.len() && (#[trigger] self.items@[i]).address.bytes() == p.0 && key_set(self.items@[i].storage_keys@).contains(p.1);
                        if i != idx {
                            assert(old_items[i] == self.items@[i]);
                        }
                    }
                    if items_slots(old_items).contains(p) {
                        let i = choose|i: int| 0 <= i < old_items.len() && (#[trigger] old_items[i]).address.bytes() == p.0 && key_set(old_items[i].storage_keys@).contains(p.1);
                        if i != idx {
                            assert(old_items[i] == self.items@[i]);
                        } else {
                            assert(key_set(self.items@[i].storage_keys@).contains(p.1));
                        }
                    }
                    if item_slots(*item).contains(p) {
                        assert(self.items@[idx as int].address.bytes() == p.0);
                        assert(key_set(self.items@[idx as int].storage_keys@).contains(p.1));
                    }
                }
                assert(self.slots() =~= items_slots(old_items).union(item_slots(*item)));
                assert forall|i: int, j: int|
                    0 <= i < self.items@.len() && 0 <= j < self.items@.len() && i != j
                        implies (#[trigger] self.items@[i]).address != (#[trigger] self.items@[j]).address by {
                    assert(old_items[i].address == self.items@[i].address);
                    assert(old_items[j].address == self.items@[j].address);
                }
            }
        } else {
            let mut keys: Vec<StorageKey> = Vec::new();
            add_keys(&mut keys, &item.storage_keys);
            let ghost empty_keys: Seq<StorageKey> = Seq::empty();
            proof {
                assert(key_set(empty_keys) =~= Set::<Seq<u8>>::empty());
                assert(key_set(keys@) =~= key_set(item.storage_keys@));
            }
            let new_item = AccessListItem { address: item.address, storage_keys: keys };
            self.items.push(new_item);
            proof {
                assert(self.items@ =~= old_items.push(new_item));
                assert forall|a: Seq<u8>| #[trigger] self.accounts().contains(a) <==> items_accounts(old_items).insert(item.address.bytes()).contains(a) by {
                    if self.accounts().contains(a) {
                        let i = choose|i: int| 0 <= i < self.items@.len() && (#[trigger] self.items@[i]).address.bytes() == a;
                        if i < old_items.len() {
                            assert(old_items[i] == self.items@[i]);
                        }
                    }
                    if items_accounts(old_items).contains(a) {
                        let i = choose|i: int| 0 <= i < old_items.len() && (#[trigger] old_items[i]).address.bytes() == a;
                        assert(old_items[i] == self.items@[i]);
                    }
                    if a == item.address.bytes() {
                        assert(self.items@[old_items.len() as int] == new_item);
                    }
                }
                assert(self.accounts() =~= items_accounts(old_items).insert(item.address.bytes()));
                assert forall|p: (Seq<u8>, Seq<u8>)| #[trigger] self.slots().contains(p) <==> items_slots(old_items).union(item_slots(*item)).contains(p) by {
                    if self.slots().contains(p) {
                        let i = choose|i: int| 0 <= i < self.items@.len() && (#[trigger] self.items@[i]).address.bytes() == p.0 && key_set(self.items@[i].storage_keys@).contains(p.1);
                        if i < old_items.len() {
                            assert(old_items[i] == self.items@[i]);
                        }
                    }
                    if items_slots(old_items).contains(p) {
                        let i = choose|i: int| 0 <= i < old_items.len() && (#[trigger] old_items[i]).address.bytes() == p.0 && key_set(old_items[i].storage_keys@).contains(p.1);
                        assert(old_items[i] == self.items@[i]);
                    }
                    if item_slots(*item).contains(p) {
                        assert(self.items@[old_items.len() as int] == new_item);
                    }
                }
                assert(self.slots() =~= items_slots(old_items).union(item_slots(*item)));
                assert forall|i: int, j: int|
                    0 <= i < self.items@.len() && 0 <= j < self.items@.len() && i != j
                        implies (#[trigger] self.items@[i]).address != (#[trigger] self.items@[j]).address by {
                    if i < old_items.len() {
                        assert(old_items[i] == self.items@[i]);
                    }
                    if j < old_items.len() {
                        assert(old_items[j] == self.items@[j]);
                    }
                }
            }
        }
    }
}

} // verus!
