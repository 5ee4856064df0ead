use driver::amount::Amount;
use driver::eth::{Address, Allowance, Approval, ContractAddress, Existing, Required, Spender, TokenAddress};
use driver::solution::{
    Asset, CustomInteraction, Fulfillment, Interaction, Jit, Kind, Liquidity, LiquidityInteraction, Order, Solution, Solver, Trade,
};

fn address(b: u8) -> Address {
    Address([b; 20])
}

fn spender(contract: u8, token: u8) -> Spender {
    Spender { address: ContractAddress(address(contract)), token: TokenAddress(address(token)) }
}

fn required(contract: u8, token: u8, amount: u128) -> Required {
    Required(Allowance { spender: spender(contract, token), amount: Amount::from_u128(amount) })
}

fn solution(interactions: Vec<Interaction>) -> Solution {
    Solution { trades: Vec::new(), prices: Vec::new(), interactions, solver: Solver { account: address(9) } }
}

fn liquidity(contract: u8, token: u8, amount: u128) -> Interaction {
    Interaction::Liquidity(LiquidityInteraction {
        liquidity: Liquidity { address: ContractAddress(address(contract)) },
        output: Asset { token: TokenAddress(address(token)), amount: Amount::from_u128(amount) },
    })
}

#[test]
fn allowances_are_summed_per_spender_and_sorted() {
    let s = solution(vec![
        Interaction::Custom(CustomInteraction { allowances: vec![required(2, 1, 5), required(1, 3, 3)] }),
        liquidity(1, 3, 4),
        Interaction::Custom(CustomInteraction { allowances: vec![required(1, 2, 1)] }),
    ]);
    let r = s.allowances();
    assert_eq!(r, vec![required(1, 2, 1), required(1, 3, 7), required(2, 1, 5)]);
}

#[test]
fn allowances_of_no_interactions_are_empty() {
    assert_eq!(solution(Vec::new()).allowances(), Vec::new());
}

#[test]
fn allowances_saturate_at_the_largest_amount() {
    let big = Required(Allowance { spender: spender(1, 1), amount: Amount { hi: u128::MAX, lo: 5 } });
    let s = solution(vec![Interaction::Custom(CustomInteraction { allowances: vec![big, big] })]);
    let r = s.allowances();
    assert_eq!(r.len(), 1);
    assert_eq!(r[0].0.amount, Amount::max_value());
}

#[test]
fn allowances_do_not_depend_on_the_order_of_interactions() {
    let a = solution(vec![liquidity(3, 1, 2), liquidity(1, 1, 4), liquidity(3, 1, 1)]);
    let b = solution(vec![liquidity(1, 1, 4), liquidity(3, 1, 1), liquidity(3, 1, 2)]);
    assert_eq!(a.allowances(), b.allowances());
    assert_eq!(a.allowances(), vec![required(1, 1, 4), required(3, 1, 3)]);
}

#[test]
fn approvals_cover_only_insufficient_allowances_at_max() {
    let pairs = vec![
        (required(1, 1, 10), Existing(Allowance { spender: spender(1, 1), amount: Amount::from_u128(10) })),
        (required(2, 1, 10), Existing(Allowance { spender: spender(2, 1), amount: Amount::from_u128(9) })),
        (required(3, 1, 0), Existing(Allowance { spender: spender(3, 1), amount: Amount::zero() })),
    ];
    let r = Solution::approvals(&pairs);
    assert_eq!(r, vec![Approval(Allowance { spender: spender(2, 1), amount: Amount::max_value() })]);
}

#[test]
fn max_approval_is_never_needed_again() {
    let approval = Approval(Allowance { spender: spender(2, 1), amount: Amount::from_u128(1) }).max();
    let existing = Existing(approval.0);
    let req = Required(Allowance { spender: spender(2, 1), amount: Amount { hi: u128::MAX, lo: u128::MAX } });
    assert_eq!(req.approval(&existing), None);
}

#[test]
fn approval_needed_when_existing_is_smaller() {
    let req = required(1, 1, 10);
    let existing = Existing(Allowance { spender: spender(1, 1), amount: Amount::from_u128(3) });
    assert_eq!(req.approval(&existing), Some(Approval(req.0)));
}

fn order(kind: Kind) -> Order {
    Order { kind, buy_token: TokenAddress(address(1)), receiver: address(2) }
}

#[test]
fn user_trades_are_market_and_limit_fulfillments() {
    let f = |kind, n| Fulfillment { order: order(kind), executed: Amount::from_u128(n) };
    let mut s = solution(Vec::new());
    s.trades = vec![
        Trade::Fulfillment(f(Kind::Market, 1)),
        Trade::Jit(Jit { order: order(Kind::Market), executed: Amount::from_u128(2) }),
        Trade::Fulfillment(f(Kind::Liquidity, 3)),
        Trade::Fulfillment(f(Kind::Limit, 4)),
    ];
    assert_eq!(s.user_trades(), vec![f(Kind::Market, 1), f(Kind::Limit, 4)]);
}

#[test]
fn allowances_do_not_depend_on_the_order_inside_interactions() {
    let a = solution(vec![
        Interaction::Custom(CustomInteraction { allowances: vec![required(2, 1, 5), required(1, 3, 3)] }),
        liquidity(1, 3, 4),
    ]);
    let b = solution(vec![
        liquidity(1, 3, 4),
        Interaction::Custom(CustomInteraction { allowances: vec![required(1, 3, 3), required(2, 1, 5)] }),
    ]);
    assert_eq!(a.allowances(), b.allowances());
}
