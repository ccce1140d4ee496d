//! The parsed form of one expression line.

use vstd::prelude::*;
use crate::price::{wrap_i32, Price};

verus! {

/// One line: its sub-expressions and an optional trailing comment.
#[derive(Debug)]
pub struct CompoundExpr {
    pub exprs: Vec<Expr>,
    pub comment: Option<String>,
}

/// A sub-expression: account tokens (first credit, second debit), hint
/// tokens, and price legs.
#[derive(Debug, Clone)]
pub struct Expr {
    pub accounts: Vec<String>,
    pub hints: Vec<String>,
    pub trans: Vec<ExprTrans>,
}

/// One price leg.
#[derive(Debug, Clone)]
pub struct ExprTrans {
    pub shares: Option<Price>,
    pub price_debit: Price,
    pub price_credit_chain: Vec<ExprCreditPrice>,
    pub cash_backs: Vec<Price>,
    pub multiple: u32,
}

/// A step of a leg's credit chain.
#[derive(Debug, Clone, Copy, PartialEq, Eq, Structural)]
pub enum ExprCreditPrice {
    /// A reward of the given amount, taken off the running balance.
    Reward(Price),
    /// The running balance becomes the given amount; the difference is a reward.
    Credit(Price),
}

/// An account carried over from a previous sub-expression.
#[derive(Debug, Clone)]
pub enum ExprWeakAccount {
    Credit(String),
    Debit(String),
}

/// The amount a chain step names.
pub open spec fn step_amount(e: ExprCreditPrice) -> int {
    match e {
        ExprCreditPrice::Reward(r) => r.0 as int,
        ExprCreditPrice::Credit(c) => c.0 as int,
    }
}

/// The running balance after a chain step.
pub open spec fn next_balance(bal: int, e: ExprCreditPrice) -> int {
    match e {
        ExprCreditPrice::Reward(r) => wrap_i32(bal - r.0),
        ExprCreditPrice::Credit(c) => c.0 as int,
    }
}

/// The reward that a chain step posts, given the balance before it.
pub open spec fn step_reward(bal: int, e: ExprCreditPrice) -> int {
    match e {
        ExprCreditPrice::Reward(r) => r.0 as int,
        ExprCreditPrice::Credit(c) => wrap_i32(bal - c.0),
    }
}

/// The running balance before step `k` of `chain`, starting from `bal`.
pub open spec fn balance_at(chain: Seq<ExprCreditPrice>, bal: int, k: int) -> int
    decreases k,
{
    if k <= 0 {
        bal
    } else {
        next_balance(balance_at(chain, bal, k - 1), chain[k - 1])
    }
}

/// Each step's amount is at most the balance at that point, checked step
/// by step.
pub open spec fn chain_fits(chain: Seq<ExprCreditPrice>, bal: int) -> bool
    decreases chain.len(),
{
    if chain.len() == 0 {
        true
    } else {
        step_amount(chain[0]) <= bal && chain_fits(chain.drop_first(), next_balance(bal, chain[0]))
    }
}

impl ExprTrans {
    pub open spec fn spec_is_empty(&self) -> bool {
        &&& self.shares is None
        &&& self.price_debit.0 == 0
        &&& self.price_credit_chain@.len() == 0
        &&& self.cash_backs@.len() == 0
        &&& self.multiple == 1
    }

    pub open spec fn spec_is_valid(&self) -> bool {
        &&& !self.spec_is_empty()
        &&& !(self.price_debit.0 <= 0 && self.cash_backs@.len() == 0)
        &&& chain_fits(self.price_credit_chain@, self.price_debit.0 as int)
    }

    pub open spec fn spec_is_cashback_only(&self) -> bool {
        &&& self.cash_backs@.len() > 0
        &&& self.price_credit_chain@.len() == 0
        &&& self.price_debit.0 == 0
    }

    pub fn is_empty(&self) -> (r: bool)
        ensures
            r == self.spec_is_empty(),
    {
        self.shares.is_none() && self.price_debit.0 == 0 && self.price_credit_chain.len() == 0
            && self.cash_backs.len() == 0 && self.multiple == 1
    }

    pub fn is_valid(&self) -> (r: bool)
        ensures
            r == self.spec_is_valid(),
    {
        if self.is_empty() {
            return false;
        }
        if self.price_debit.as_raw() <= 0 && self.cash_backs.len() == 0 {
            return false;
        }
        let chain = &self.price_credit_chain;
        let mut credit_price = self.price_debit;
        let mut i: usize = 0;
        assert(chain@.skip(0) == chain@);
        while i < chain.len()
            invariant
                i <= chain@.len(),
                chain@ == self.price_credit_chain@,
                self.spec_is_valid() == chain_fits(
                    chain@.skip(i as int),
                    credit_price.0 as int,
                ),
            decreases chain@.len() - i,
        {
            let ghost rest = chain@.skip(i as int);
            assert(rest.drop_first() == chain@.skip(i + 1));
            assert(rest[0] == chain@[i as int]);
            match chain[i] {
                ExprCreditPrice::Reward(r) => {
                    if r.as_raw() > credit_price.as_raw() {
                        assert(!chain_fits(rest, credit_price.0 as int));
                        return false;
                    }
                    credit_price = credit_price.sub(r);
                },
                ExprCreditPrice::Credit(c) => {
                    if c.as_raw() > credit_price.as_raw() {
                        assert(!chain_fits(rest, credit_price.0 as int));
                        return false;
                    }
                    credit_price = c;
                },
            }
            i = i + 1;
        }
        assert(chain@.skip(i as int).len() == 0);
        true
    }

    pub fn is_cashback_only(&self) -> (r: bool)
        ensures
            r == self.spec_is_cashback_only(),
    {
        self.cash_backs.len() > 0 && self.price_credit_chain.len() == 0 && self.price_debit.0 == 0
    }
}

impl Default for ExprTrans {
    fn default() -> (r: ExprTrans)
        ensures
            r.spec_is_empty(),
    {
        ExprTrans {
            shares: None,
            price_debit: Price(0),
            price_credit_chain: Vec::new(),
            cash_backs: Vec::new(),
            multiple: 1,
        }
    }
}

/// The running balance after a chain step, in exact arithmetic.
pub open spec fn exact_next(bal: int, e: ExprCreditPrice) -> int {
    match e {
        ExprCreditPrice::Reward(r) => bal - r.0,
        ExprCreditPrice::Credit(c) => c.0 as int,
    }
}

/// The running balance before step `k` of `chain` in exact arithmetic.
pub open spec fn exact_balance_at(chain: Seq<ExprCreditPrice>, bal: int, k: int) -> int
    decreases k,
{
    if k <= 0 {
        bal
    } else {
        exact_next(exact_balance_at(chain, bal, k - 1), chain[k - 1])
    }
}

/// In a leg that passes the validity check, every reward or credit amount
/// of its chain is at most the running balance just before it.
pub proof fn lemma_valid_chain_within_balance(t: ExprTrans)
    requires
        t.spec_is_valid(),
    ensures
        forall|k: int|
            0 <= k < t.price_credit_chain@.len() ==> step_amount(t.price_credit_chain@[k])
                <= #[trigger] exact_balance_at(t.price_credit_chain@, t.price_debit.0 as int, k),
{
    lemma_fits_exact(t.price_credit_chain@, t.price_debit.0 as int, t.price_debit.0 as int);
}

/// The checked balance wraps downward only, so it never exceeds the exact
/// one; an amount within it is within the exact balance.
proof fn lemma_fits_exact(chain: Seq<ExprCreditPrice>, w: int, e: int)
    requires
        chain_fits(chain, w),
        w <= e,
    ensures
        forall|k: int|
            0 <= k < chain.len() ==> step_amount(chain[k]) <= #[trigger] exact_balance_at(chain, e, k),
    decreases chain.len(),
{
    if chain.len() > 0 {
        let rest = chain.drop_first();
        let w1 = next_balance(w, chain[0]);
        let e1 = exact_next(e, chain[0]);
        match chain[0] {
            ExprCreditPrice::Reward(r) => {
                let v = w - r.0;
                assert(v >= 0);
                assert(v % 0x1_0000_0000 <= v);
                assert(w1 <= v);
            },
            ExprCreditPrice::Credit(c) => {},
        }
        lemma_fits_exact(rest, w1, e1);
        assert forall|k: int| 0 <= k < chain.len() implies step_amount(chain[k])
            <= #[trigger] exact_balance_at(chain, e, k) by {
            if k > 0 {
                lemma_exact_shift(chain, e, k);
                assert(chain[k] == rest[k - 1]);
            }
        }
    }
}

proof fn lemma_exact_shift(chain: Seq<ExprCreditPrice>, bal: int, k: int)
    requires
        0 < k <= chain.len(),
    ensures
        exact_balance_at(chain, bal, k) == exact_balance_at(chain.drop_first(), exact_next(bal, chain[0]), k - 1),
    decreases k,
{
    if k > 1 {
        lemma_exact_shift(chain, bal, k - 1);
        assert(chain[k - 1] == chain.drop_first()[k - 2]);
    } else {
        assert(exact_balance_at(chain, bal, 0) == bal);
        assert(exact_balance_at(chain.drop_first(), exact_next(bal, chain[0]), 0) == exact_next(bal, chain[0]));
    }
}

impl Expr {
    pub open spec fn spec_is_empty(&self) -> bool {
        self.accounts@.len() == 0 && self.hints@.len() == 0 && self.trans@.len() == 0
    }

    pub fn new() -> (r: Expr)
        ensures
            r.spec_is_empty(),
    {
        Expr { accounts: Vec::new(), hints: Vec::new(), trans: Vec::new() }
    }

    pub fn is_empty(&self) -> (r: bool)
        ensures
            r == self.spec_is_empty(),
    {
        self.accounts.len() == 0 && self.hints.len() == 0 && self.trans.len() == 0
    }
}

} // verus!
