//! Solutions that solvers hand back for an auction, and what the driver
//! derives from them before it settles one on chain.

use vstd::prelude::*;
use vstd::multiset::Multiset;
use rand::Rng;
use crate::amount::{Amount, amount_max, nat_min};
use crate::access_list::AccessList;
use crate::eth::{Address, Allowance, Approval, ContractAddress, Existing, Required, Spender, TokenAddress, Tx, native_token_bytes};
use crate::lex::{KeyOrder, compare_bytes, lex_lt, lemma_lex_transitive, lemma_lex_asymmetric, lemma_lex_irreflexive, lemma_lex_concat};

verus! {

/// The kind of an order.
#[derive(Clone, Copy, Debug, PartialEq, Eq, Structural)]
pub enum Kind {
    /// An order placed by a user at the market price.
    Market,
    /// An order placed by a user with a limit price.
    Limit,
    /// An order that only provides liquidity to the auction.
    Liquidity,
}

/// The part of an auction order that the settlement logic reads.
#[derive(Clone, Copy, Debug, PartialEq, Eq)]
pub struct Order {
    pub kind: Kind,
    /// The token that the order buys.
    pub buy_token: TokenAddress,
    /// The account that receives what the order buys.
    pub receiver: Address,
}

impl Order {
    /// Whether the order buys the native token (ETH).
    pub fn buys_eth(&self) -> (r: bool)
        ensures
            r == (self.buy_token.0.bytes() == native_token_bytes()),
    {
        self.buy_token.is_native()
    }

    /// The account that receives what the order buys.
    pub fn receiver(&self) -> (r: Address)
        ensures
            r == self.receiver,
    {
        self.receiver
    }
}

/// A trade that fills an auction order.
#[derive(Clone, Copy, Debug, PartialEq, Eq)]
pub struct Fulfillment {
    pub order: Order,
    /// The amount of the order that is executed.
    pub executed: Amount,
}

/// A just-in-time order that the solver itself contributes.
#[derive(Clone, Copy, Debug, PartialEq, Eq)]
pub struct Jit {
    pub order: Order,
    /// The amount of the order that is executed.
    pub executed: Amount,
}

/// A trade settled by a solution.
#[derive(Clone, Copy, Debug, PartialEq, Eq)]
pub enum Trade {
    Fulfillment(Fulfillment),
    Jit(Jit),
}

/// An interaction given by the solver as-is, with the allowances it needs.
#[derive(Clone, Debug, PartialEq, Eq)]
pub struct CustomInteraction {
    pub allowances: Vec<Required>,
}

/// A source of on-chain liquidity.
#[derive(Clone, Copy, Debug, PartialEq, Eq)]
pub struct Liquidity {
    pub address: ContractAddress,
}

/// An amount of a token.
#[derive(Clone, Copy, Debug, PartialEq, Eq)]
pub struct Asset {
    pub token: TokenAddress,
    pub amount: Amount,
}

/// An interaction with a source of liquidity.
#[derive(Clone, Copy, Debug, PartialEq, Eq)]
pub struct LiquidityInteraction {
    pub liquidity: Liquidity,
    /// What the interaction hands out.
    pub output: Asset,
}

/// An interaction that a solution executes during settlement.
#[derive(Clone, Debug, PartialEq, Eq)]
pub enum Interaction {
    Custom(CustomInteraction),
    Liquidity(LiquidityInteraction),
}

/// The clearing price of a token.
#[derive(Clone, Copy, Debug, PartialEq, Eq, Structural)]
pub struct Price(pub Amount);

/// The solver that generated a solution, by the account it settles from.
#[derive(Clone, Copy, Debug, PartialEq, Eq)]
pub struct Solver {
    pub account: Address,
}

impl Solver {
    /// The account of the solver.
    pub fn account(&self) -> (r: Address)
        ensures
            r == self.account,
    {
        self.account
    }
}

/// A solution represents a set of orders which the solver has found an
/// optimal way to settle.
#[derive(Clone, Debug)]
pub struct Solution {
    /// Trades settled by this solution.
    pub trades: Vec<Trade>,
    /// Token prices for this solution, at most one per token (see
    /// [`Solution::prices_unique`]).
    pub prices: Vec<(TokenAddress, Price)>,
    pub interactions: Vec<Interaction>,
    /// The solver which generated this solution.
    pub solver: Solver,
}

/// The next step towards the partial access list of a trade.
#[derive(Debug)]
pub enum PartialAccessList {
    /// The partial access list is known: it is this one.
    Done(AccessList),
    /// Ask the chain whether the trade pays out to a smart contract, and go
    /// on with [`Solution::partial_access_list_after_check`].
    CheckReceiver,
    /// Simulate this transaction; its access list is the partial access
    /// list of the trade.
    Simulate(Tx),
}

/// The transaction that moves one wei from the solver into the receiver of
/// the trade.
pub open spec fn one_wei_transfer(tx: Tx, solver: Solver, trade: Fulfillment) -> bool {
    &&& tx.from == solver.account
    &&& tx.to == trade.order.receiver
    &&& tx.value.value() == 1
    &&& tx.input@.len() == 0
    &&& tx.access_list.wf()
    &&& tx.access_list.accounts().is_empty()
    &&& tx.access_list.slots().is_empty()
}

/// `step` hands back the empty access list.
pub open spec fn is_done_empty(step: PartialAccessList) -> bool {
    match step {
        PartialAccessList::Done(list) => list.wf() && list.accounts().is_empty()
            && list.slots().is_empty(),
        _ => false,
    }
}

impl Solution {
    /// The prices name each token at most once.
    pub open spec fn prices_unique(self) -> bool {
        forall|i: int, j: int|
            0 <= i < self.prices@.len() && 0 <= j < self.prices@.len() && i != j
                ==> (#[trigger] self.prices@[i]).0 != (#[trigger] self.prices@[j]).0
    }
}

/// Whether an order was placed by a user (and is not a liquidity order).
pub open spec fn is_user_order(order: Order) -> bool {
    order.kind is Market || order.kind is Limit
}

/// The fulfillments of user orders among `trades`, in their order.
pub open spec fn user_fulfillments(trades: Seq<Trade>) -> Seq<Fulfillment>
    decreases trades.len(),
{
    if trades.len() == 0 {
        seq![]
    } else {
        let rest = user_fulfillments(trades.drop_last());
        match trades.last() {
            Trade::Fulfillment(f) => if is_user_order(f.order) {
                rest.push(f)
            } else {
                rest
            },
            Trade::Jit(_) => rest,
        }
    }
}

/// The allowance that an interaction with liquidity needs: the liquidity
/// contract may spend the output token, up to the output amount.
pub open spec fn liquidity_allowance(interaction: LiquidityInteraction) -> Required {
    Required(
        Allowance {
            spender: Spender {
                address: interaction.liquidity.address,
                token: interaction.output.token,
            },
            amount: interaction.output.amount,
        },
    )
}

/// The allowances that one interaction needs.
pub open spec fn interaction_allowances(interaction: Interaction) -> Seq<Required> {
    match interaction {
        Interaction::Custom(custom) => custom.allowances@,
        Interaction::Liquidity(liquidity) => seq![liquidity_allowance(liquidity)],
    }
}

/// The allowances that a sequence of interactions needs, interaction by
/// interaction, before they are normalised.
pub open spec fn all_allowances(interactions: Seq<Interaction>) -> Seq<Required>
    decreases interactions.len(),
{
    if interactions.len() == 0 {
        seq![]
    } else {
        all_allowances(interactions.drop_last()) + interaction_allowances(interactions.last())
    }
}

/// The sum of the amounts that `allowances` require for `spender`.
pub open spec fn total_for(allowances: Seq<Required>, spender: Spender) -> nat
    decreases allowances.len(),
{
    if allowances.len() == 0 {
        0
    } else {
        total_for(allowances.drop_last(), spender) + if allowances.last().0.spender == spender {
            allowances.last().0.amount.value()
        } else {
            0
        }
    }
}

/// Whether some allowance in `allowances` is for `spender`.
pub open spec fn has_spender(allowances: Seq<Required>, spender: Spender) -> bool {
    exists|i: int| 0 <= i < allowances.len() && #[trigger] allowances[i].0.spender == spender
}

/// The spenders of `allowances` strictly ascend by their keys.
pub open spec fn ascending_spenders(allowances: Seq<Required>) -> bool {
    forall|i: int, j: int|
        0 <= i < j < allowances.len() ==> lex_lt(
            #[trigger] allowances[i].0.spender.key(),
            #[trigger] allowances[j].0.spender.key(),
        )
}

/// `normalized` is the normal form of `allowances`: one allowance per
/// spender that `allowances` names, ascending by spender, each for the sum
/// of what `allowances` require of that spender, capped at the largest
/// amount.
pub open spec fn is_normal_form(normalized: Seq<Required>, allowances: Seq<Required>) -> bool {
    &&& ascending_spenders(normalized)
    &&& forall|s: Spender| #[trigger]
        has_spender(normalized, s) <==> has_spender(allowances, s)
    &&& forall|i: int|
        0 <= i < normalized.len() ==> (#[trigger] normalized[i]).0.amount.value() == nat_min(
            total_for(allowances, normalized[i].0.spender),
            amount_max(),
        )
}

/// The approvals that have to be sent, given for each required allowance
/// the allowance that already exists: one for each required allowance that
/// the existing one does not cover, in their order, each raised to the
/// largest amount.
pub open spec fn needed_approvals(allowances: Seq<(Required, Existing)>) -> Seq<Approval>
    decreases allowances.len(),
{
    if allowances.len() == 0 {
        seq![]
    } else {
        let rest = needed_approvals(allowances.drop_last());
        let (required, existing) = allowances.last();
        match required.spec_approval(existing) {
            Some(approval) => rest.push(approval.spec_max()),
            None => rest,
        }
    }
}

/// The normal form of allowances ascends by spender as allowances are
/// ordered: by the bytes of the contract address, compared from the most
/// significant, and for one contract address by the bytes of the token
/// address.
pub proof fn lemma_normal_form_by_address_then_token(normalized: Seq<Required>, allowances: Seq<Required>)
    requires
        is_normal_form(normalized, allowances),
    ensures
        forall|i: int, j: int|
            0 <= i < j < normalized.len() ==> {
                let a = (#[trigger] normalized[i]).0.spender;
                let b = (#[trigger] normalized[j]).0.spender;
                lex_lt(a.address.0.0@, b.address.0.0@) || (a.address.0.0@ == b.address.0.0@ && lex_lt(
                    a.token.0.0@,
                    b.token.0.0@,
                ))
            },
{
    assert forall|i: int, j: int| 0 <= i < j < normalized.len() implies {
        let a = (#[trigger] normalized[i]).0.spender;
        let b = (#[trigger] normalized[j]).0.spender;
        lex_lt(a.address.0.0@, b.address.0.0@) || (a.address.0.0@ == b.address.0.0@ && lex_lt(
            a.token.0.0@,
            b.token.0.0@,
        ))
    } by {
        let a = normalized[i].0.spender;
        let b = normalized[j].0.spender;
        a.lemma_key_layout();
        b.lemma_key_layout();
        assert(a.key() =~= a.address.0.0@ + a.token.0.0@);
        assert(b.key() =~= b.address.0.0@ + b.token.0.0@);
        assert(lex_lt(a.key(), b.key()));
        lemma_lex_concat(a.address.0.0@, a.token.0.0@, b.address.0.0@, b.token.0.0@);
    }
}

/// The total that allowances require of a spender grows one allowance at a
/// time by the amount of each allowance for that spender; no allowances
/// require nothing.
pub proof fn lemma_total_for_step(allowances: Seq<Required>, x: Required, s: Spender)
    ensures
        total_for(Seq::empty(), s) == 0,
        x.0.spender == s ==> total_for(allowances.push(x), s) == total_for(allowances, s)
            + x.0.amount.value(),
        x.0.spender != s ==> total_for(allowances.push(x), s) == total_for(allowances, s),
{
    assert(allowances.push(x).drop_last() =~= allowances);
    assert(allowances.push(x).last() == x);
}

/// The approvals of a list of allowances grow one pair at a time: a pair
/// whose existing amount is smaller than the required amount (whatever the
/// existing amount, zero included) adds one approval, for the required
/// spender and at the largest amount; any other pair adds none. No pairs
/// give no approvals.
pub proof fn lemma_needed_approvals_step(pairs: Seq<(Required, Existing)>, pair: (Required, Existing))
    ensures
        needed_approvals(Seq::empty()) == Seq::<Approval>::empty(),
        pair.1.0.amount.value() < pair.0.0.amount.value() ==> {
            let r = needed_approvals(pairs.push(pair));
            &&& r.len() == needed_approvals(pairs).len() + 1
            &&& r.drop_last() == needed_approvals(pairs)
            &&& r.last().0.spender == pair.0.0.spender
            &&& r.last().0.amount.value() == amount_max()
        },
        pair.1.0.amount.value() >= pair.0.0.amount.value() ==> needed_approvals(pairs.push(pair))
            == needed_approvals(pairs),
{
    assert(pairs.push(pair).drop_last() =~= pairs);
    assert(pairs.push(pair).last() == pair);
    let r = needed_approvals(pairs.push(pair));
    if pair.1.0.amount.value() < pair.0.0.amount.value() {
        assert(r.drop_last() =~= needed_approvals(pairs));
    }
}

/// The user trades of a list of trades grow one trade at a time: a
/// fulfillment of a market or limit order adds itself; a fulfillment of a
/// liquidity order and a just-in-time trade add nothing. No trades give no
/// user trades.
pub proof fn lemma_user_fulfillments_step(trades: Seq<Trade>, trade: Trade)
    ensures
        user_fulfillments(Seq::empty()) == Seq::<Fulfillment>::empty(),
        match trade {
            Trade::Fulfillment(f) => if f.order.kind == Kind::Market || f.order.kind == Kind::Limit {
                user_fulfillments(trades.push(trade)) == user_fulfillments(trades).push(f)
            } else {
                user_fulfillments(trades.push(trade)) == user_fulfillments(trades)
            },
            Trade::Jit(_) => user_fulfillments(trades.push(trade)) == user_fulfillments(trades),
        },
        user_fulfillments(trades.push(trade)).len() <= user_fulfillments(trades).len() + 1,
{
    assert(trades.push(trade).drop_last() =~= trades);
    assert(trades.push(trade).last() == trade);
}

/// No two allowances of `allowances` are for one spender.
pub open spec fn distinct_spenders(allowances: Seq<Required>) -> bool {
    forall|i: int, j: int|
        0 <= i < allowances.len() && 0 <= j < allowances.len() && i != j ==> (#[trigger] allowances[i]).0.spender
            != (#[trigger] allowances[j]).0.spender
}

/// Appending an allowance adds its spender to the spenders named.
proof fn lemma_has_spender_push(allowances: Seq<Required>, x: Required, s: Spender)
    ensures
        has_spender(allowances.push(x), s) <==> (has_spender(allowances, s) || x.0.spender == s),
{
    let pushed = allowances.push(x);
    if has_spender(allowances, s) {
        let i = choose|i: int| 0 <= i < allowances.len() && #[trigger] allowances[i].0.spender == s;
        assert(pushed[i] == allowances[i]);
    }
    if x.0.spender == s {
        assert(pushed[allowances.len() as int] == x);
    }
    if has_spender(pushed, s) {
        let i = choose|i: int| 0 <= i < pushed.len() && #[trigger] pushed[i].0.spender == s;
        if i < allowances.len() {
            assert(pushed[i] == allowances[i]);
        }
    }
}

/// Dropping the first of ascending allowances drops exactly its spender.
proof fn lemma_drop_first_spenders(a: Seq<Required>, s: Spender)
    requires
        a.len() > 0,
        ascending_spenders(a),
    ensures
        ascending_spenders(a.drop_first()),
        has_spender(a.drop_first(), s) <==> (has_spender(a, s) && s != a[0].0.spender),
{
    let rest = a.drop_first();
    assert forall|i: int, j: int| 0 <= i < j < rest.len() implies lex_lt(
        #[trigger] rest[i].0.spender.key(),
        #[trigger] rest[j].0.spender.key(),
    ) by {
        assert(rest[i] == a[i + 1] && rest[j] == a[j + 1]);
    }
    if has_spender(rest, s) {
        let i = choose|i: int| 0 <= i < rest.len() && #[trigger] rest[i].0.spender == s;
        assert(a[i + 1] == rest[i]);
        assert(lex_lt(a[0].0.spender.key(), a[i + 1].0.spender.key()));
        lemma_lex_irreflexive(a[0].0.spender.key());
    }
    if has_spender(a, s) && s != a[0].0.spender {
        let i = choose|i: int| 0 <= i < a.len() && #[trigger] a[i].0.spender == s;
        assert(rest[i - 1] == a[i]);
    }
}

/// Two sequences of allowances that ascend by spender and name the same
/// spenders have the same spenders at every position.
proof fn lemma_ascending_same_spenders(a: Seq<Required>, b: Seq<Required>)
    requires
        ascending_spenders(a),
        ascending_spenders(b),
        forall|s: Spender| #[trigger] has_spender(a, s) <==> has_spender(b, s),
    ensures
        a.len() == b.len(),
        forall|i: int| 0 <= i < a.len() ==> (#[trigger] a[i]).0.spender == b[i].0.spender,
    decreases a.len() + b.len(),
{
    if a.len() == 0 || b.len() == 0 {
        if a.len() > 0 {
            assert(has_spender(a, a[0].0.spender));
            assert(has_spender(b, a[0].0.spender));
        }
        if b.len() > 0 {
            assert(has_spender(b, b[0].0.spender));
            assert(has_spender(a, b[0].0.spender));
        }
    } else {
        let sa = a[0].0.spender;
        let sb = b[0].0.spender;
        assert(has_spender(a, sa));
        assert(has_spender(b, sb));
        if sa != sb {
            assert(has_spender(a, sb) == has_spender(b, sb));
            assert(has_spender(a, sa) == has_spender(b, sa));
            let k = choose|k: int| 0 <= k < a.len() && #[trigger] a[k].0.spender == sb;
            let l = choose|l: int| 0 <= l < b.len() && #[trigger] b[l].0.spender == sa;
            assert(k != 0 && l != 0);
            assert(lex_lt(a[0].0.spender.key(), a[k].0.spender.key()));
            assert(lex_lt(b[0].0.spender.key(), b[l].0.spender.key()));
            lemma_lex_asymmetric(sa.key(), sb.key());
        }
        assert forall|s: Spender| #[trigger] has_spender(a.drop_first(), s) <==> has_spender(b.drop_first(), s) by {
            lemma_drop_first_spenders(a, s);
            lemma_drop_first_spenders(b, s);
        }
        lemma_drop_first_spenders(a, sa);
        lemma_drop_first_spenders(b, sa);
        lemma_ascending_same_spenders(a.drop_first(), b.drop_first());
        assert forall|i: int| 0 <= i < a.len() implies (#[trigger] a[i]).0.spender == b[i].0.spender by {
            if i > 0 {
                assert(a.drop_first()[i - 1] == a[i]);
                assert(b.drop_first()[i - 1] == b[i]);
            }
        }
    }
}

/// The normal form of a list of allowances is unique: any two results that
/// meet its description are equal, whatever order the interactions listed
/// their allowances in.
pub proof fn lemma_normal_form_unique(a: Seq<Required>, b: Seq<Required>, allowances: Seq<Required>)
    requires
        is_normal_form(a, allowances),
        is_normal_form(b, allowances),
    ensures
        a == b,
{
    lemma_ascending_same_spenders(a, b);
    assert forall|i: int| 0 <= i < a.len() implies a[i] == b[i] by {
        assert(a[i].0.spender == b[i].0.spender);
        a[i].0.amount.lemma_value_injective(b[i].0.amount);
    }
    assert(a =~= b);
}

/// What one allowance contributes to the total of `spender`.
pub open spec fn contribution(allowance: Required, spender: Spender) -> nat {
    if allowance.0.spender == spender {
        allowance.0.amount.value()
    } else {
        0
    }
}

/// Taking out one allowance takes out its contribution to each total.
proof fn lemma_total_for_remove(allowances: Seq<Required>, k: int, s: Spender)
    requires
        0 <= k < allowances.len(),
    ensures
        total_for(allowances, s) == total_for(allowances.remove(k), s) + contribution(allowances[k], s),
    decreases allowances.len(),
{
    let rest = allowances.remove(k);
    if k == allowances.len() - 1 {
        assert(rest =~= allowances.drop_last());
    } else {
        lemma_total_for_remove(allowances.drop_last(), k, s);
        assert(allowances.drop_last().remove(k) =~= rest.drop_last());
        assert(rest.last() == allowances.last());
    }
}

/// The totals of a list of allowances do not depend on its order.
proof fn lemma_total_for_reordered(a: Seq<Required>, b: Seq<Required>, s: Spender)
    requires
        a.to_multiset() == b.to_multiset(),
    ensures
        total_for(a, s) == total_for(b, s),
    decreases a.len(),
{
    broadcast use vstd::seq_lib::group_to_multiset_ensures, vstd::multiset::group_multiset_axioms;

    if a.len() == 0 {
        assert(b.to_multiset().len() == 0);
        assert(b.len() == 0);
    } else {
        let x = a.last();
        let rest = a.drop_last();
        assert(a =~= rest.push(x));
        assert(a.to_multiset() =~= rest.to_multiset().insert(x));
        assert(b.to_multiset().count(x) > 0);
        assert(b.contains(x));
        let k = choose|k: int| 0 <= k < b.len() && b[k] == x;
        assert(b.remove(k).to_multiset() =~= b.to_multiset().remove(x));
        assert(rest.to_multiset() =~= b.remove(k).to_multiset());
        lemma_total_for_reordered(rest, b.remove(k), s);
        lemma_total_for_remove(b, k, s);
    }
}

/// Lists of allowances with the same elements name the same spenders.
proof fn lemma_has_spender_reordered(a: Seq<Required>, b: Seq<Required>, s: Spender)
    requires
        a.to_multiset() == b.to_multiset(),
    ensures
        has_spender(a, s) == has_spender(b, s),
{
    broadcast use vstd::seq_lib::group_to_multiset_ensures;

    if has_spender(a, s) {
        let i = choose|i: int| 0 <= i < a.len() && #[trigger] a[i].0.spender == s;
        assert(a.contains(a[i]));
        assert(a.to_multiset().count(a[i]) > 0);
        assert(b.to_multiset().count(a[i]) > 0);
        assert(b.contains(a[i]));
        let j = choose|j: int| 0 <= j < b.len() && b[j] == a[i];
        assert(b[j].0.spender == s);
    }
    if has_spender(b, s) {
        let i = choose|i: int| 0 <= i < b.len() && #[trigger] b[i].0.spender == s;
        assert(b.contains(b[i]));
        assert(b.to_multiset().count(b[i]) > 0);
        assert(a.to_multiset().count(b[i]) > 0);
        assert(a.contains(b[i]));
        let j = choose|j: int| 0 <= j < a.len() && a[j] == b[i];
        assert(a[j].0.spender == s);
    }
}

/// The normal form does not depend on the order of the allowances it is
/// made from: lists with the same elements have the same normal form.
pub proof fn lemma_normal_form_order_free(
    r1: Seq<Required>,
    r2: Seq<Required>,
    a: Seq<Required>,
    b: Seq<Required>,
)
    requires
        is_normal_form(r1, a),
        is_normal_form(r2, b),
        a.to_multiset() == b.to_multiset(),
    ensures
        r1 == r2,
{
    assert forall|s: Spender| #[trigger] has_spender(r1, s) <==> has_spender(b, s) by {
        assert(has_spender(r1, s) == has_spender(a, s));
        lemma_has_spender_reordered(a, b, s);
    }
    assert forall|i: int| 0 <= i < r1.len() implies (#[trigger] r1[i]).0.amount.value() == nat_min(
        total_for(b, r1[i].0.spender),
        amount_max(),
    ) by {
        lemma_total_for_reordered(a, b, r1[i].0.spender);
    }
    lemma_normal_form_unique(r1, r2, b);
}

/// The allowances of one interaction, as a multiset.
pub open spec fn interaction_bag(interaction: Interaction) -> Multiset<Required> {
    interaction_allowances(interaction).to_multiset()
}

/// The interactions, each taken as the multiset of its allowances, as a
/// multiset: what stays the same when interactions are reordered, or the
/// allowances inside an interaction are.
pub open spec fn interaction_bags(interactions: Seq<Interaction>) -> Multiset<Multiset<Required>> {
    interactions.map_values(|i: Interaction| interaction_bag(i)).to_multiset()
}

/// Taking out one interaction takes out its allowances.
proof fn lemma_all_allowances_remove(interactions: Seq<Interaction>, k: int)
    requires
        0 <= k < interactions.len(),
    ensures
        all_allowances(interactions).to_multiset() == all_allowances(interactions.remove(k)).to_multiset().add(
            interaction_bag(interactions[k]),
        ),
    decreases interactions.len(),
{
    broadcast use vstd::seq_lib::lemma_multiset_commutative, vstd::multiset::group_multiset_axioms;

    let rest = interactions.remove(k);
    let last = interactions.last();
    if k == interactions.len() - 1 {
        assert(rest =~= interactions.drop_last());
        assert(all_allowances(interactions).to_multiset() =~= all_allowances(rest).to_multiset().add(
            interaction_bag(last),
        ));
    } else {
        lemma_all_allowances_remove(interactions.drop_last(), k);
        assert(interactions.drop_last().remove(k) =~= rest.drop_last());
        assert(rest.last() == last);
        assert(all_allowances(interactions).to_multiset() =~= all_allowances(
            interactions.drop_last(),
        ).to_multiset().add(interaction_bag(last)));
        assert(all_allowances(rest).to_multiset() =~= all_allowances(rest.drop_last()).to_multiset().add(
            interaction_bag(last),
        ));
        assert(all_allowances(interactions).to_multiset() =~= all_allowances(rest).to_multiset().add(
            interaction_bag(interactions[k]),
        ));
    }
}

/// Reordering interactions, or the allowances inside them, keeps the
/// allowances they need, as a multiset.
proof fn lemma_all_allowances_reordered(i1: Seq<Interaction>, i2: Seq<Interaction>)
    requires
        interaction_bags(i1) == interaction_bags(i2),
    ensures
        all_allowances(i1).to_multiset() == all_allowances(i2).to_multiset(),
    decreases i1.len(),
{
    broadcast use vstd::seq_lib::group_to_multiset_ensures, vstd::multiset::group_multiset_axioms;

    let f = |i: Interaction| interaction_bag(i);
    let m1 = i1.map_values(f);
    let m2 = i2.map_values(f);
    if i1.len() == 0 {
        assert(m2.to_multiset().len() == 0);
        assert(i2.len() == 0);
        assert(all_allowances(i1).to_multiset() =~= all_allowances(i2).to_multiset());
    } else {
        let x = i1.last();
        let rest = i1.drop_last();
        assert(m1 =~= rest.map_values(f).push(f(x)));
        assert(m1.to_multiset() =~= rest.map_values(f).to_multiset().insert(f(x)));
        assert(m2.to_multiset().count(f(x)) > 0);
        assert(m2.contains(f(x)));
        let k = choose|k: int| 0 <= k < m2.len() && m2[k] == f(x);
        assert(i2.remove(k).map_values(f) =~= m2.remove(k));
        assert(m2.remove(k).to_multiset() =~= m2.to_multiset().remove(f(x)));
        assert(interaction_bags(rest) =~= interaction_bags(i2.remove(k)));
        lemma_all_allowances_reordered(rest, i2.remove(k));
        lemma_all_allowances_remove(i2, k);
        lemma_all_allowances_remove(i1, i1.len() - 1);
        assert(i1.remove(i1.len() - 1) =~= rest);
        assert(all_allowances(i1).to_multiset() =~= all_allowances(i2).to_multiset());
    }
}

/// The allowances of a solution do not depend on the order of its
/// interactions, nor on the order of the allowances inside them: two
/// solutions whose interactions need the same allowances, interaction by
/// interaction and in whatever order, have the same normalised allowances.
pub proof fn lemma_allowances_order_free(
    r1: Seq<Required>,
    r2: Seq<Required>,
    i1: Seq<Interaction>,
    i2: Seq<Interaction>,
)
    requires
        is_normal_form(r1, all_allowances(i1)),
        is_normal_form(r2, all_allowances(i2)),
        interaction_bags(i1) == interaction_bags(i2),
    ensures
        r1 == r2,
{
    lemma_all_allowances_reordered(i1, i2);
    lemma_normal_form_order_free(r1, r2, all_allowances(i1), all_allowances(i2));
}

impl Solution {
    /// The trades which fulfill non-liquidity auction orders. These are the
    /// orders placed by end-users.
    pub fn user_trades(&self) -> (r: Vec<Fulfillment>)
        ensures
            r@ == user_fulfillments(self.trades@),
    {
        let mut r: Vec<Fulfillment> = Vec::new();
        let mut i: usize = 0;
        while i < self.trades.len()
            invariant
                0 <= i <= self.trades@.len(),
                r@ == user_fulfillments(self.trades@.take(i as int)),
            decreases self.trades@.len() - i,
        {
            proof {
                assert(self.trades@.take(i + 1).drop_last() =~= self.trades@.take(i as int));
            }
            match &self.trades[i] {
                Trade::Fulfillment(fulfillment) => match fulfillment.order.kind {
                    Kind::Market | Kind::Limit => r.push(*fulfillment),
                    Kind::Liquidity => {},
                },
                Trade::Jit(_) => {},
            }
            i = i + 1;
        }
        proof {
            assert(self.trades@.take(self.trades@.len() as int) =~= self.trades@);
        }
        r
    }

    /// The allowances of all interactions, interaction by interaction.
    fn collect_allowances(&self) -> (r: Vec<Required>)
        ensures
            r@ == all_allowances(self.interactions@),
    {
        let mut r: Vec<Required> = Vec::new();
        let mut i: usize = 0;
        while i < self.interactions.len()
            invariant
                0 <= i <= self.interactions@.len(),
                r@ == all_allowances(self.interactions@.take(i as int)),
            decreases self.interactions@.len() - i,
        {
            proof {
                assert(self.interactions@.take(i + 1).drop_last() =~= self.interactions@.take(
                    i as int,
                ));
            }
            let ghost before = r@;
            match &self.interactions[i] {
                Interaction::Custom(custom) => {
                    let mut j: usize = 0;
                    while j < custom.allowances.len()
                        invariant
                            0 <= j <= custom.allowances@.len(),
                            r@ == before + custom.allowances@.take(j as int),
                        decreases custom.allowances@.len() - j,
                    {
                        r.push(custom.allowances[j]);
                        proof {
                            assert(custom.allowances@.take(j + 1) =~= custom.allowances@.take(
                                j as int,
                            ).push(custom.allowances@[j as int]));
                        }
                        j = j + 1;
                    }
                    proof {
                        assert(custom.allowances@.take(custom.allowances@.len() as int)
                            =~= custom.allowances@);
                    }
                },
                Interaction::Liquidity(liquidity) => {
                    r.push(
                        Required(
                            Allowance {
                                spender: Spender {
                                    address: liquidity.liquidity.address,
                                    token: liquidity.output.token,
                                },
                                amount: liquidity.output.amount,
                            },
                        ),
                    );
                    proof {
                        assert(r@ =~= before + seq![liquidity_allowance(*liquidity)]);
                    }
                },
            }
            i = i + 1;
        }
        proof {
            assert(self.interactions@.take(self.interactions@.len() as int) =~= self.interactions@);
        }
        r
    }

    /// Sums up the allowances per spender, keeping spenders in the order in
    /// which they first occur.
    fn sum_per_spender(all: &Vec<Required>) -> (r: Vec<Required>)
        ensures
            distinct_spenders(r@),
            forall|s: Spender| #[trigger] has_spender(r@, s) <==> has_spender(all@, s),
            forall|i: int|
                0 <= i < r@.len() ==> (#[trigger] r@[i]).0.amount.value() == nat_min(
                    total_for(all@, r@[i].0.spender),
                    amount_max(),
                ),
    {
        let mut acc: Vec<Required> = Vec::new();
        let mut k: usize = 0;
        while k < all.len()
            invariant
                0 <= k <= all@.len(),
                distinct_spenders(acc@),
                forall|s: Spender| #[trigger]
                    has_spender(acc@, s) <==> has_spender(all@.take(k as int), s),
                forall|i: int|
                    0 <= i < acc@.len() ==> (#[trigger] acc@[i]).0.amount.value() == nat_min(
                        total_for(all@.take(k as int), acc@[i].0.spender),
                        amount_max(),
                    ),
            decreases all@.len() - k,
        {
            let a = all[k];
            let ghost prev = all@.take(k as int);
            let ghost next = all@.take(k + 1);
            proof {
                assert(next =~= prev.push(a));
                assert(next.drop_last() =~= prev);
            }
            let mut idx: usize = 0;
            let mut found = false;
            while idx < acc.len()
                invariant_except_break
                    0 <= idx <= acc@.len(),
                    !found,
                    forall|j: int| 0 <= j < idx ==> (#[trigger] acc@[j]).0.spender != a.0.spender,
                ensures
                    0 <= idx <= acc@.len(),
                    found ==> idx < acc@.len() && acc@[idx as int].0.spender == a.0.spender,
                    !found ==> forall|j: int|
                        0 <= j < acc@.len() ==> (#[trigger] acc@[j]).0.spender != a.0.spender,
                decreases acc@.len() - idx,
            {
                if acc[idx].0.spender.same_as(&a.0.spender) {
                    found = true;
                    break;
                }
                idx = idx + 1;
            }
            let ghost old_acc = acc@;
            if found {
                let current = acc[idx];
                acc.set(
                    idx,
                    Required(
                        Allowance {
                            spender: current.0.spender,
                            amount: current.0.amount.saturating_add(a.0.amount),
                        },
                    ),
                );
                proof {
                    assert forall|s: Spender| #[trigger]
                        has_spender(acc@, s) <==> has_spender(next, s) by {
                        lemma_has_spender_push(prev, a, s);
                        if has_spender(acc@, s) {
                            let i = choose|i: int| 0 <= i < acc@.len() && #[trigger] acc@[i].0.spender == s;
                            assert(old_acc[i].0.spender == s);
                        }
                        if has_spender(old_acc, s) {
                            let i = choose|i: int| 0 <= i < old_acc.len() && #[trigger] old_acc[i].0.spender == s;
                            assert(acc@[i].0.spender == s);
                        }
                        if a.0.spender == s {
                            assert(acc@[idx as int].0.spender == s);
                        }
                    }
                    assert forall|i: int, j: int|
                        0 <= i < acc@.len() && 0 <= j < acc@.len() && i != j implies (#[trigger] acc@[i]).0.spender
                            != (#[trigger] acc@[j]).0.spender by {
                        assert(old_acc[i].0.spender == acc@[i].0.spender);
                        assert(old_acc[j].0.spender == acc@[j].0.spender);
                    }
                }
            } else {
                proof {
                    assert(has_spender(acc@, a.0.spender) == has_spender(prev, a.0.spender));
                    if has_spender(acc@, a.0.spender) {
                        let i = choose|i: int| 0 <= i < acc@.len() && #[trigger] acc@[i].0.spender == a.0.spender;
                        assert(false);
                    }
                }
                acc.push(
                    Required(
                        Allowance { spender: a.0.spender, amount: Amount::zero().saturating_add(a.0.amount) },
                    ),
                );
                proof {
                    a.0.amount.lemma_value_bounded();
                    assert forall|s: Spender| #[trigger]
                        has_spender(acc@, s) <==> has_spender(next, s) by {
                        lemma_has_spender_push(prev, a, s);
                        lemma_has_spender_push(old_acc, acc@.last(), s);
                        assert(acc@ =~= old_acc.push(acc@.last()));
                    }
                }
            }
            proof {
                assert forall|i: int|
                    0 <= i < acc@.len() implies (#[trigger] acc@[i]).0.amount.value() == nat_min(
                        total_for(next, acc@[i].0.spender),
                        amount_max(),
                    ) by {
                    if acc@[i].0.spender != a.0.spender {
                        assert(acc@[i] == old_acc[i]);
                    } else if found {
                        assert(i == idx);
                    } else {
                        assert(i == old_acc.len());
                        assert(total_for(prev, a.0.spender) == 0) by {
                            lemma_total_for_absent(prev, a.0.spender);
                        }
                    }
                }
            }
            k = k + 1;
        }
        proof {
            assert(all@.take(all@.len() as int) =~= all@);
        }
        acc
    }

    /// Sorts allowances of distinct spenders ascending by spender.
    fn sort_by_spender(items: &Vec<Required>) -> (r: Vec<Required>)
        requires
            distinct_spenders(items@),
        ensures
            ascending_spenders(r@),
            r@.len() == items@.len(),
            forall|x: Required| #[trigger] r@.contains(x) <==> items@.contains(x),
    {
        let mut sorted: Vec<Required> = Vec::new();
        let mut k: usize = 0;
        while k < items.len()
            invariant
                0 <= k <= items@.len(),
                distinct_spenders(items@),
                ascending_spenders(sorted@),
                sorted@.len() == k,
                forall|x: Required| #[trigger] sorted@.contains(x) <==> items@.take(k as int).contains(x),
            decreases items@.len() - k,
        {
            let x = items[k];
            let x_key = x.0.spender.key_bytes();
            let mut p: usize = 0;
            loop
                invariant_except_break
                    0 <= p <= sorted@.len(),
                    x_key@ == x.0.spender.key(),
                    forall|j: int| 0 <= j < p ==> lex_lt((#[trigger] sorted@[j]).0.spender.key(), x.0.spender.key()),
                ensures
                    0 <= p <= sorted@.len(),
                    forall|j: int| 0 <= j < p ==> lex_lt((#[trigger] sorted@[j]).0.spender.key(), x.0.spender.key()),
                    p < sorted@.len() ==> sorted@[p as int].0.spender.key() == x.0.spender.key()
                        || lex_lt(x.0.spender.key(), sorted@[p as int].0.spender.key()),
                decreases sorted@.len() - p,
            {
                if p == sorted.len() {
                    break;
                }
                let p_key = sorted[p].0.spender.key_bytes();
                match compare_bytes(&p_key, &x_key) {
                    KeyOrder::Less => {
                        p = p + 1;
                    },
                    _ => {
                        break;
                    },
                }
            }
            let ghost old_sorted = sorted@;
            proof {
                assert(items@.take(k + 1) =~= items@.take(k as int).push(x));
                if p < old_sorted.len() {
                    let y = old_sorted[p as int];
                    assert(old_sorted.contains(y));
                    assert(items@.take(k as int).contains(y));
                    let m = choose|m: int| 0 <= m < k && #[trigger] items@.take(k as int)[m] == y;
                    assert(items@[m] == y);
                    assert(items@[m].0.spender != items@[k as int].0.spender);
                    y.0.spender.lemma_key_injective(x.0.spender);
                }
            }
            sorted.insert(p, x);
            proof {
                assert forall|i: int, j: int|
                    0 <= i < j < sorted@.len() implies lex_lt(
                    #[trigger] sorted@[i].0.spender.key(),
                    #[trigger] sorted@[j].0.spender.key(),
                ) by {
                    if j < p {
                        assert(sorted@[i] == old_sorted[i] && sorted@[j] == old_sorted[j]);
                    } else if j == p {
                        assert(sorted@[i] == old_sorted[i]);
                    } else if i < p {
                        assert(sorted@[i] == old_sorted[i] && sorted@[j] == old_sorted[j - 1]);
                        assert(lex_lt(old_sorted[i].0.spender.key(), x.0.spender.key()));
                        assert(lex_lt(x.0.spender.key(), old_sorted[p as int].0.spender.key()));
                        if j - 1 > p {
                            assert(lex_lt(old_sorted[p as int].0.spender.key(), old_sorted[j - 1].0.spender.key()));
                            lemma_lex_transitive(x.0.spender.key(), old_sorted[p as int].0.spender.key(), old_sorted[j - 1].0.spender.key());
                        }
                        lemma_lex_transitive(old_sorted[i].0.spender.key(), x.0.spender.key(), old_sorted[j - 1].0.spender.key());
                    } else if i == p {
                        assert(sorted@[j] == old_sorted[j - 1]);
                        if j - 1 > p {
                            assert(lex_lt(old_sorted[p as int].0.spender.key(), old_sorted[j - 1].0.spender.key()));
                            lemma_lex_transitive(x.0.spender.key(), old_sorted[p as int].0.spender.key(), old_sorted[j - 1].0.spender.key());
                        }
                    } else {
                        assert(sorted@[i] == old_sorted[i - 1] && sorted@[j] == old_sorted[j - 1]);
                    }
                }
                assert forall|y: Required| #[trigger] sorted@.contains(y) <==> items@.take(k + 1).contains(y) by {
                    if sorted@.contains(y) {
                        let i = choose|i: int| 0 <= i < sorted@.len() && #[trigger] sorted@[i] == y;
                        if i < p {
                            assert(old_sorted[i] == y);
                            assert(old_sorted.contains(y));
                        } else if i > p {
                            assert(old_sorted[i - 1] == y);
                            assert(old_sorted.contains(y));
                        }
                        assert(items@.take(k + 1)[k as int] == x);
                    }
                    if items@.take(k + 1).contains(y) {
                        let m = choose|m: int| 0 <= m < k + 1 && #[trigger] items@.take(k + 1)[m] == y;
                        if m < k {
                            assert(items@.take(k as int)[m] == y);
                            assert(old_sorted.contains(y));
                            let i = choose|i: int| 0 <= i < old_sorted.len() && #[trigger] old_sorted[i] == y;
                            if i < p {
                                assert(sorted@[i] == y);
                            } else {
                                assert(sorted@[i + 1] == y);
                            }
                        } else {
                            assert(sorted@[p as int] == y);
                        }
                    }
                }
            }
            k = k + 1;
        }
        proof {
            assert(items@.take(items@.len() as int) =~= items@);
        }
        sorted
    }

    /// The first step towards the partial access list of a user trade.
    ///
    /// The settlement contract fails if the receiver of ETH is a smart
    /// contract that needs more gas than a plain transfer allows unless its
    /// access list is already given; so for every trade that buys ETH and
    /// pays it to a contract, moving one wei into that contract is simulated
    /// first, and the access lists so found are passed on to the simulation
    /// of the whole settlement. Trades that do not buy ETH need nothing.
    pub fn partial_access_list(&self, trade: &Fulfillment) -> (r: PartialAccessList)
        ensures
            trade.order.buy_token.0.bytes() == native_token_bytes() ==> r is CheckReceiver,
            trade.order.buy_token.0.bytes() != native_token_bytes() ==> is_done_empty(r),
    {
        if !trade.order.buys_eth() {
            PartialAccessList::Done(AccessList::new())
        } else {
            PartialAccessList::CheckReceiver
        }
    }

    /// The step after the chain has told whether the trade pays out to a
    /// smart contract: nothing to do if it does not, otherwise simulate
    /// moving one wei from the solver into the receiver.
    pub fn partial_access_list_after_check(&self, trade: &Fulfillment, pays_to_contract: bool) -> (r:
        PartialAccessList)
        ensures
            !pays_to_contract ==> is_done_empty(r),
            pays_to_contract ==> (r matches PartialAccessList::Simulate(tx) && one_wei_transfer(
                tx,
                self.solver,
                *trade,
            )),
    {
        if !pays_to_contract {
            return PartialAccessList::Done(AccessList::new());
        }
        let tx = Tx {
            from: self.solver.account(),
            to: trade.order.receiver(),
            value: Amount::from_u128(1),
            input: Vec::new(),
            access_list: AccessList::new(),
        };
        PartialAccessList::Simulate(tx)
    }

    /// The approvals to send before settling, given each required allowance
    /// (see [`Solution::allowances`]) with the allowance that the settlement
    /// contract already has for its spender. As a gas optimization, the
    /// largest amount possible is always approved, which minimizes the
    /// number of approvals necessary over time.
    pub fn approvals(allowances: &Vec<(Required, Existing)>) -> (r: Vec<Approval>)
        ensures
            r@ == needed_approvals(allowances@),
    {
        let mut r: Vec<Approval> = Vec::new();
        let mut i: usize = 0;
        while i < allowances.len()
            invariant
                0 <= i <= allowances@.len(),
                r@ == needed_approvals(allowances@.take(i as int)),
            decreases allowances@.len() - i,
        {
            proof {
                assert(allowances@.take(i + 1).drop_last() =~= allowances@.take(i as int));
            }
            let (required, existing) = allowances[i];
            match required.approval(&existing) {
                Some(approval) => r.push(approval.max()),
                None => {},
            }
            i = i + 1;
        }
        proof {
            assert(allowances@.take(allowances@.len() as int) =~= allowances@);
        }
        r
    }

    /// The allowances of this solution in normal form: one allowance per
    /// spender, for the sum of what the interactions require of it (capped
    /// at the largest amount), ordered by spender.
    pub fn allowances(&self) -> (r: Vec<Required>)
        ensures
            is_normal_form(r@, all_allowances(self.interactions@)),
    {
        let all = self.collect_allowances();
        let summed = Self::sum_per_spender(&all);
        let sorted = Self::sort_by_spender(&summed);
        proof {
            assert forall|s: Spender| #[trigger]
                has_spender(sorted@, s) <==> has_spender(all@, s) by {
                if has_spender(sorted@, s) {
                    let i = choose|i: int| 0 <= i < sorted@.len() && #[trigger] sorted@[i].0.spender == s;
                    assert(sorted@.contains(sorted@[i]));
                    let m = choose|m: int| 0 <= m < summed@.len() && #[trigger] summed@[m] == sorted@[i];
                    assert(summed@[m].0.spender == s);
                    assert(has_spender(summed@, s));
                }
                assert(has_spender(summed@, s) == has_spender(all@, s));
                if has_spender(summed@, s) {
                    let m = choose|m: int| 0 <= m < summed@.len() && #[trigger] summed@[m].0.spender == s;
                    assert(summed@.contains(summed@[m]));
                    assert(sorted@.contains(summed@[m]));
                    let i = choose|i: int| 0 <= i < sorted@.len() && #[trigger] sorted@[i] == summed@[m];
                    assert(sorted@[i].0.spender == s);
                }
            }
            assert forall|i: int|
                0 <= i < sorted@.len() implies (#[trigger] sorted@[i]).0.amount.value() == nat_min(
                    total_for(all@, sorted@[i].0.spender),
                    amount_max(),
                ) by {
                assert(sorted@.contains(sorted@[i]));
                let m = choose|m: int| 0 <= m < summed@.len() && #[trigger] summed@[m] == sorted@[i];
                assert(summed@[m] == sorted@[i]);
            }
        }
        sorted
    }
}

/// A spender that no allowance names has nothing required of it.
proof fn lemma_total_for_absent(allowances: Seq<Required>, s: Spender)
    requires
        !has_spender(allowances, s),
    ensures
        total_for(allowances, s) == 0,
    decreases allowances.len(),
{
    if allowances.len() > 0 {
        let rest = allowances.drop_last();
        if has_spender(rest, s) {
            let i = choose|i: int| 0 <= i < rest.len() && #[trigger] rest[i].0.spender == s;
            assert(allowances[i] == rest[i]);
        }
        assert(allowances[allowances.len() - 1] == allowances.last());
        lemma_total_for_absent(rest, s);
    }
}

/// The bytes of a 32-bit number, most significant first.
pub open spec fn be_bytes(x: u32) -> Seq<u8> {
    seq![
        (x / 0x100_0000) as u8,
        ((x / 0x1_0000) % 0x100) as u8,
        ((x / 0x100) % 0x100) as u8,
        (x % 0x100) as u8,
    ]
}

/// A draw of a random 32-bit number.
///
/// Calls `rand::thread_rng().gen::<u32>()`. Nothing is claimed of the
/// number: it comes from the thread-local random number generator.
#[verifier::external_body]
fn random_u32() -> u32 {
    rand::thread_rng().gen()
}

/// A unique solution ID.
#[derive(Clone, Copy, Debug, PartialEq, Eq, Structural)]
pub struct Id(pub u32);

impl Id {
    /// A random ID.
    pub fn random() -> Id {
        Id(random_u32())
    }

    /// The ID as four bytes, most significant first.
    pub fn to_bytes(self) -> (r: [u8; 4])
        ensures
            r@ == be_bytes(self.0),
    {
        let x = self.0;
        let r = [
            (x / 0x100_0000) as u8,
            ((x / 0x1_0000) % 0x100) as u8,
            ((x / 0x100) % 0x100) as u8,
            (x % 0x100) as u8,
        ];
        proof {
            assert(r@ =~= be_bytes(x));
        }
        r
    }
}

/// Different IDs have different bytes.
pub proof fn lemma_be_bytes_injective(x: u32, y: u32)
    ensures
        be_bytes(x) == be_bytes(y) ==> x == y,
{
    if be_bytes(x) == be_bytes(y) {
        assert(be_bytes(x)[0] == be_bytes(y)[0]);
        assert(be_bytes(x)[1] == be_bytes(y)[1]);
        assert(be_bytes(x)[2] == be_bytes(y)[2]);
        assert(be_bytes(x)[3] == be_bytes(y)[3]);
        assert(x == (x / 0x100_0000) * 0x100_0000 + ((x / 0x1_0000) % 0x100) * 0x1_0000 + ((x / 0x100) % 0x100) * 0x100 + x % 0x100) by (nonlinear_arith);
        assert(y == (y / 0x100_0000) * 0x100_0000 + ((y / 0x1_0000) % 0x100) * 0x1_0000 + ((y / 0x100) % 0x100) * 0x100 + y % 0x100) by (nonlinear_arith);
    }
}

/// The rational numbers of the `num` crate.
#[verifier::external_type_specification]
#[verifier::external_body]
#[verifier::reject_recursive_types(T)]
pub struct ExRatio<T>(num::rational::Ratio<T>);

/// The big integers of the `num` crate.
#[verifier::external_type_specification]
#[verifier::external_body]
pub struct ExBigInt(num::BigInt);

/// `Clone` of the rational numbers of the `num` crate, which the cloning of
/// a [`Score`] calls. Nothing is claimed of the copy.
pub assume_specification<T: Clone>[ <num::rational::Ratio<T> as Clone>::clone ](
    r: &num::rational::Ratio<T>,
) -> num::rational::Ratio<T>;

/// The solution score. This is often referred to as the "objective value".
#[derive(Debug, PartialEq, Eq, PartialOrd, Ord, Clone)]
pub struct Score(pub num::BigRational);

impl From<num::BigRational> for Score {
    fn from(inner: num::BigRational) -> (r: Score) {
        Score(inner)
    }
}

impl vstd::std_specs::convert::FromSpecImpl<num::BigRational> for Score {
    open spec fn obeys_from_spec() -> bool {
        true
    }

    open spec fn from_spec(v: num::BigRational) -> Score {
        Score(v)
    }
}

/// Why solving an auction failed, with the underlying error as text.
#[derive(Clone, Debug, PartialEq, Eq)]
pub enum Error {
    Solver(String),
    Simulation(String),
    Blockchain(String),
    Boundary(String),
}

/// The message of an error.
pub open spec fn error_message(error: Error) -> Seq<char> {
    match error {
        Error::Solver(e) => "solver error: "@ + e@,
        Error::Simulation(e) => "simulation error: "@ + e@,
        Error::Blockchain(e) => "blockchain error: "@ + e@,
        Error::Boundary(e) => "boundary error: "@ + e@,
    }
}

impl Error {
    /// The message of this error: what failed, then the underlying error.
    pub fn message(&self) -> (r: String)
        ensures
            r@ == error_message(*self),
    {
        match self {
            Error::Solver(e) => String::from_str("solver error: ").concat(e.as_str()),
            Error::Simulation(e) => String::from_str("simulation error: ").concat(e.as_str()),
            Error::Blockchain(e) => String::from_str("blockchain error: ").concat(e.as_str()),
            Error::Boundary(e) => String::from_str("boundary error: ").concat(e.as_str()),
        }
    }
}

} // verus!
