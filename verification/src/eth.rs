//! Ethereum values that the settlement logic reads: addresses, token
//! allowances and approvals.

use vstd::prelude::*;
use crate::access_list::AccessList;
use crate::amount::{Amount, amount_max};

verus! {

broadcast use vstd::array::group_array_axioms;

/// A 20-byte account address.
#[derive(Clone, Copy, Debug, PartialEq, Eq)]
pub struct Address(pub [u8; 20]);

/// The address of an ERC20 token contract.
#[derive(Clone, Copy, Debug, PartialEq, Eq)]
pub struct TokenAddress(pub Address);

/// The address of a smart contract.
#[derive(Clone, Copy, Debug, PartialEq, Eq)]
pub struct ContractAddress(pub Address);

impl Address {
    /// The bytes of the address.
    pub open spec fn bytes(self) -> Seq<u8> {
        self.0@
    }

    /// Addresses with the same bytes are the same address.
    pub proof fn lemma_bytes_injective(self, other: Address)
        ensures
            self.bytes() == other.bytes() ==> self == other,
    {
        if self.bytes() == other.bytes() {
            assert forall|i: int| 0 <= i < 20 implies self.0[i] == other.0[i] by {
                assert(self.bytes()[i] == other.bytes()[i]);
            }
            assert(self.0 =~= other.0);
        }
    }

    /// Whether two addresses are the same.
    pub fn same_as(&self, other: &Address) -> (r: bool)
        ensures
            r == (self == other),
    {
        let mut i: usize = 0;
        while i < 20
            invariant
                0 <= i <= 20,
                forall|j: int| 0 <= j < i ==> self.0[j] == other.0[j],
            decreases 20 - i,
        {
            if self.0[i] != other.0[i] {
                return false;
            }
            i = i + 1;
        }
        proof {
            assert(self.0 =~= other.0);
        }
        true
    }
}

/// The marker address that orders use for the native token (ETH):
/// twenty bytes of `0xee`.
pub open spec fn native_token_bytes() -> Seq<u8> {
    Seq::new(20, |i: int| 0xeeu8)
}

impl TokenAddress {
    /// Whether this is the marker address of the native token.
    pub fn is_native(&self) -> (r: bool)
        ensures
            r == (self.0.bytes() == native_token_bytes()),
    {
        let mut i: usize = 0;
        while i < 20
            invariant
                0 <= i <= 20,
                forall|j: int| 0 <= j < i ==> self.0.0[j] == 0xeeu8,
            decreases 20 - i,
        {
            if self.0.0[i] != 0xee {
                proof {
                    assert(self.0.bytes()[i as int] != native_token_bytes()[i as int]);
                }
                return false;
            }
            i = i + 1;
        }
        proof {
            assert(self.0.bytes() =~= native_token_bytes());
        }
        true
    }
}

/// Who is allowed to spend which token: a contract and a token.
#[derive(Clone, Copy, Debug, PartialEq, Eq)]
pub struct Spender {
    pub address: ContractAddress,
    pub token: TokenAddress,
}

impl Spender {
    /// The key by which spenders are ordered: the contract address, then the
    /// token address, compared byte by byte.
    pub open spec fn key(self) -> Seq<u8> {
        self.address.0.bytes() + self.token.0.bytes()
    }

    /// The key is the twenty bytes of the contract address, most
    /// significant first, followed by the twenty bytes of the token
    /// address.
    pub proof fn lemma_key_layout(self)
        ensures
            self.key().len() == 40,
            self.key().subrange(0, 20) == self.address.0.0@,
            self.key().subrange(20, 40) == self.token.0.0@,
            forall|i: int| 0 <= i < 20 ==> self.key()[i] == self.address.0.0[i] && self.key()[20 + i]
                == self.token.0.0[i],
    {
        assert(self.key().subrange(0, 20) =~= self.address.0.0@);
        assert(self.key().subrange(20, 40) =~= self.token.0.0@);
    }

    /// Spenders with the same key are the same spender.
    pub proof fn lemma_key_injective(self, other: Spender)
        ensures
            self.key() == other.key() ==> self == other,
    {
        if self.key() == other.key() {
            assert(self.address.0.bytes() =~= self.key().subrange(0, 20));
            assert(other.address.0.bytes() =~= other.key().subrange(0, 20));
            assert(self.token.0.bytes() =~= self.key().subrange(20, 40));
            assert(other.token.0.bytes() =~= other.key().subrange(20, 40));
            self.address.0.lemma_bytes_injective(other.address.0);
            self.token.0.lemma_bytes_injective(other.token.0);
        }
    }

    /// Whether two spenders are the same.
    pub fn same_as(&self, other: &Spender) -> (r: bool)
        ensures
            r == (self == other),
    {
        self.address.0.same_as(&other.address.0) && self.token.0.same_as(&other.token.0)
    }

    /// The key of this spender, as bytes.
    pub fn key_bytes(&self) -> (r: Vec<u8>)
        ensures
            r@ == self.key(),
            r@.len() == 40,
    {
        let mut r: Vec<u8> = Vec::new();
        let mut i: usize = 0;
        while i < 20
            invariant
                0 <= i <= 20,
                r@ == self.address.0.bytes().take(i as int),
            decreases 20 - i,
        {
            r.push(self.address.0.0[i]);
            proof {
                assert(self.address.0.bytes().take(i + 1) =~= self.address.0.bytes().take(
                    i as int,
                ).push(self.address.0.0[i as int]));
            }
            i = i + 1;
        }
        let mut j: usize = 0;
        while j < 20
            invariant
                0 <= j <= 20,
                r@ == self.address.0.bytes() + self.token.0.bytes().take(j as int),
            decreases 20 - j,
        {
            r.push(self.token.0.0[j]);
            proof {
                assert(self.token.0.bytes().take(j + 1) =~= self.token.0.bytes().take(
                    j as int,
                ).push(self.token.0.0[j as int]));
            }
            j = j + 1;
        }
        proof {
            assert(self.address.0.bytes() =~= self.address.0.bytes().take(20));
            assert(self.token.0.bytes() =~= self.token.0.bytes().take(20));
        }
        r
    }
}

/// An amount of a token that a spender may spend.
#[derive(Clone, Copy, Debug, PartialEq, Eq)]
pub struct Allowance {
    pub spender: Spender,
    pub amount: Amount,
}

/// An allowance that some action needs.
#[derive(Clone, Copy, Debug, PartialEq, Eq)]
pub struct Required(pub Allowance);

/// An allowance that is already granted on chain.
#[derive(Clone, Copy, Debug, PartialEq, Eq)]
pub struct Existing(pub Allowance);

/// An allowance that has to be granted by an approval transaction.
#[derive(Clone, Copy, Debug, PartialEq, Eq)]
pub struct Approval(pub Allowance);

impl Required {
    /// The approval that this required allowance needs, given what is
    /// already granted.
    pub open spec fn spec_approval(self, existing: Existing) -> Option<Approval> {
        if existing.0.amount.value() < self.0.amount.value() {
            Some(Approval(self.0))
        } else {
            None
        }
    }

    /// Returns the approval to send when the existing allowance is smaller
    /// than the required one, and `None` when it already covers it.
    pub fn approval(&self, existing: &Existing) -> (r: Option<Approval>)
        ensures
            r == self.spec_approval(*existing),
    {
        if existing.0.amount.less_than(&self.0.amount) {
            Some(Approval(self.0))
        } else {
            None
        }
    }
}

impl Approval {
    /// This approval raised to the largest amount.
    pub open spec fn spec_max(self) -> Approval {
        Approval(Allowance { spender: self.0.spender, amount: Amount { hi: u128::MAX, lo: u128::MAX } })
    }

    /// Approves the largest amount possible for the same spender, so that
    /// the approval need not be repeated.
    pub fn max(self) -> (r: Approval)
        ensures
            r == self.spec_max(),
            r.0.spender == self.0.spender,
            r.0.amount.value() == amount_max(),
    {
        Approval(Allowance { spender: self.0.spender, amount: Amount::max_value() })
    }
}

/// A transaction.
#[derive(Clone, Debug)]
pub struct Tx {
    pub from: Address,
    pub to: Address,
    /// The amount of wei sent along.
    pub value: Amount,
    pub input: Vec<u8>,
    pub access_list: AccessList,
}

impl Tx {
    /// The same transaction with `list` merged into its access list.
    pub fn merge_access_list(self, list: AccessList) -> (r: Tx)
        requires
            self.access_list.wf(),
            list.wf(),
        ensures
            r.from == self.from,
            r.to == self.to,
            r.value == self.value,
            r.input@ == self.input@,
            r.access_list.wf(),
            r.access_list.accounts() == self.access_list.accounts().union(list.accounts()),
            r.access_list.slots() == self.access_list.slots().union(list.slots()),
    {
        Tx {
            from: self.from,
            to: self.to,
            value: self.value,
            input: self.input,
            access_list: self.access_list.merge(list),
        }
    }
}

/// Once the largest amount is approved, no required allowance needs another
/// approval.
pub proof fn lemma_max_approval_covers_everything(required: Required, approval: Approval)
    ensures
        required.spec_approval(Existing(approval.spec_max().0)) is None,
{
    required.0.amount.lemma_value_bounded();
}

} // verus!
