//! Transactions and the factory that builds them from parsed expressions.

use vstd::prelude::*;
use crate::date::{Date, date_text};
use crate::expr::{Expr, ExprCreditPrice, ExprTrans, balance_at, step_reward};
use crate::price::{Price, price_text};
use crate::text::{nat_text, string_of};
use crate::price::nat_chars;
use crate::tokmap::{TokenMapper, mapper_frame};

verus! {

/// The amount of an entry.
#[derive(Clone, Copy, Debug, PartialEq, Eq, Structural)]
pub enum Amount {
    Price(Price),
}

/// One ledger line: an account and an amount.
#[derive(Debug)]
pub struct Entry {
    pub account: String,
    pub amount: Amount,
}

/// A finished transaction.
#[derive(Debug)]
pub struct Transaction {
    pub has_build_error: bool,
    pub date: Date,
    pub num_base: u32,
    pub debit_entries: Vec<Entry>,
    pub credit_entries: Vec<Entry>,
    pub description: Option<String>,
    pub orig_expr: Option<String>,
}

/// An entry as (account name, minor units).
pub open spec fn entry_view(e: Entry) -> (Seq<char>, int) {
    match e.amount {
        Amount::Price(p) => (e.account@, p.0 as int),
    }
}

pub open spec fn entries_view(v: Seq<Entry>) -> Seq<(Seq<char>, int)> {
    v.map_values(|e: Entry| entry_view(e))
}

pub open spec fn opt_view(o: Option<String>) -> Option<Seq<char>> {
    match o {
        Some(s) => Some(s@),
        None => None,
    }
}

/// What a mapper can observe of the factory while it resolves: the raw
/// tokens of both sides, which sides are already resolved, and the hints
/// declared by the current sub-expression.
pub struct ResolveCtx {
    pub credit_tok: Option<Seq<char>>,
    pub debit_tok: Option<Seq<char>>,
    pub credit_done: bool,
    pub debit_done: bool,
    pub hints: Set<Seq<char>>,
}

impl ResolveCtx {
    /// The credit side is being resolved.
    pub open spec fn is_credit(self) -> bool {
        !self.credit_done
    }

    /// The debit side is being resolved.
    pub open spec fn is_debit(self) -> bool {
        self.credit_done && !self.debit_done
    }

    /// Some member of `list` is the credit token.
    pub open spec fn check_credit(self, list: Seq<Seq<char>>) -> bool {
        seq_has(list, tok_or_empty(self.credit_tok))
    }

    /// Some member of `list` is the debit token.
    pub open spec fn check_debit(self, list: Seq<Seq<char>>) -> bool {
        seq_has(list, tok_or_empty(self.debit_tok))
    }

    /// Some member of `list` is the token of the side not being resolved;
    /// false when both sides are resolved.
    pub open spec fn check_opposite(self, list: Seq<Seq<char>>) -> bool {
        if self.is_debit() {
            self.check_credit(list)
        } else if self.is_credit() {
            self.check_debit(list)
        } else {
            false
        }
    }
}

/// `t` is a member of `list`.
pub open spec fn seq_has(list: Seq<Seq<char>>, t: Seq<char>) -> bool {
    exists|i: int| 0 <= i < list.len() && list[i] == t
}

pub open spec fn tok_or_empty(t: Option<Seq<char>>) -> Seq<char> {
    match t {
        Some(s) => s,
        None => Seq::empty(),
    }
}

pub open spec fn name_or(o: Option<Seq<char>>, fallback: Seq<char>) -> Seq<char> {
    match o {
        Some(s) => s,
        None => fallback,
    }
}

/// Hint keys are kept and consumed flags are only ever set.
pub open spec fn hints_grow(a: TransactionFactory, b: TransactionFactory) -> bool {
    &&& b.hint_keys == a.hint_keys
    &&& b.hint_used@.len() == a.hint_used@.len()
    &&& forall|i: int| 0 <= i < a.hint_used@.len() && #[trigger] a.hint_used@[i] ==> b.hint_used@[i]
}

/// From `a` to `b` exactly the hints whose text is in `checked` become
/// consumed; the hint list itself is kept.
pub open spec fn hints_checked(a: TransactionFactory, b: TransactionFactory, checked: Set<Seq<char>>) -> bool {
    &&& b.hint_keys == a.hint_keys
    &&& b.hint_used@.len() == a.hint_used@.len()
    &&& forall|i: int| 0 <= i < a.hint_used@.len() ==> #[trigger] b.hint_used@[i] == (a.hint_used@[i]
        || checked.contains(a.hint_keys@[i]@))
}

pub proof fn lemma_hints_checked_trans(
    a: TransactionFactory,
    b: TransactionFactory,
    c: TransactionFactory,
    s1: Set<Seq<char>>,
    s2: Set<Seq<char>>,
)
    requires
        hints_checked(a, b, s1),
        hints_checked(b, c, s2),
    ensures
        hints_checked(a, c, s1.union(s2)),
        hints_grow(a, c),
{
    assert forall|i: int| 0 <= i < a.hint_used@.len() implies #[trigger] c.hint_used@[i] == (a.hint_used@[i]
        || s1.union(s2).contains(a.hint_keys@[i]@)) by {
        assert(b.hint_used@[i] == (a.hint_used@[i] || s1.contains(a.hint_keys@[i]@)));
    }
}

/// `s` when `cond` holds, else nothing.
pub open spec fn set_when(cond: bool, s: Set<Seq<char>>) -> Set<Seq<char>> {
    if cond { s } else { Set::empty() }
}

/// One replication of leg `t` resolves at least one reward.
pub open spec fn leg_asks(t: ExprTrans) -> bool {
    t.price_credit_chain@.len() > 0 || t.cash_backs@.len() > 0
}

/// Some leg of `ts` resolves at least one reward.
pub open spec fn legs_ask(ts: Seq<ExprTrans>) -> bool {
    exists|i: int| 0 <= i < ts.len() && #[trigger] ts[i].multiple > 0 && leg_asks(ts[i])
}

/// The hints that resolving `e` from sides `s` checks: those of the credit
/// token, of the debit token, and of rewards when some leg has one.
pub open spec fn expr_checks<M: TokenMapper>(m: &M, s: SideState, e: Expr) -> Set<Seq<char>> {
    let n = e.accounts@.len();
    set_when(n >= 1, m.spec_account_hints(ctx_credit_s(s, e), e.accounts@[0]@)).union(set_when(
        n >= 2,
        m.spec_account_hints(ctx_debit_s(m, s, e), e.accounts@[1]@),
    )).union(set_when(legs_ask(e.trans@), m.spec_reward_hints(ctx_entries_s(m, s, e))))
}

/// Some hint declared by `e` is not checked while resolving it.
pub open spec fn expr_unconsumed<M: TokenMapper>(m: &M, s: SideState, e: Expr) -> bool {
    exists|i: int| 0 <= i < e.hints@.len() && !expr_checks(m, s, e).contains(#[trigger] e.hints@[i]@)
}

pub open spec fn str_views(v: Seq<String>) -> Seq<Seq<char>> {
    v.map_values(|x: String| x@)
}

/// The hints of `keys`, with their flags `used`, other than `h`, in order.
pub open spec fn kept_hints(keys: Seq<Seq<char>>, used: Seq<bool>, h: Seq<char>) -> (Seq<Seq<char>>, Seq<bool>)
    decreases keys.len(),
{
    if keys.len() == 0 || used.len() == 0 {
        (Seq::empty(), Seq::empty())
    } else {
        let p = kept_hints(keys.drop_last(), used.drop_last(), h);
        if keys.last() == h { p } else { (p.0.push(keys.last()), p.1.push(used.last())) }
    }
}

/// `s` repeated `n` times.
pub open spec fn repeat_seq<A>(s: Seq<A>, n: nat) -> Seq<A>
    decreases n,
{
    if n == 0 {
        Seq::empty()
    } else {
        repeat_seq(s, (n - 1) as nat) + s
    }
}

/// The credit lines of a leg's chain, each posted to `r`.
pub open spec fn chain_credits(chain: Seq<ExprCreditPrice>, bal: int, r: Seq<char>) -> Seq<(Seq<char>, int)> {
    chain_credits_upto(chain, bal, r, chain.len() as int)
}

/// The first `n` credit lines of a chain.
pub open spec fn chain_credits_upto(chain: Seq<ExprCreditPrice>, bal: int, r: Seq<char>, n: int) -> Seq<(Seq<char>, int)> {
    Seq::new(n as nat, |k: int| chain_credit_at(chain, bal, r, k))
}

/// Credit line `k` of a chain.
pub open spec fn chain_credit_at(chain: Seq<ExprCreditPrice>, bal: int, r: Seq<char>, k: int) -> (Seq<char>, int) {
    (r, step_reward(balance_at(chain, bal, k), chain[k]))
}

/// Debit lines of one replication of leg `t`.
pub open spec fn leg_debits(t: ExprTrans, d: Seq<char>, c: Seq<char>) -> Seq<(Seq<char>, int)> {
    (if !t.spec_is_cashback_only() {
        seq![(d, t.price_debit.0 as int)]
    } else {
        Seq::empty()
    }) + t.cash_backs@.map_values(|p: Price| (c, p.0 as int))
}

/// Credit lines of one replication of leg `t`: rewards of the chain, the
/// remaining balance on the credit account, then one reward per cashback.
pub open spec fn leg_credits(t: ExprTrans, c: Seq<char>, r: Seq<char>) -> Seq<(Seq<char>, int)> {
    let chain = t.price_credit_chain@;
    let bal = t.price_debit.0 as int;
    (if !t.spec_is_cashback_only() {
        chain_credits(chain, bal, r) + seq![(c, balance_at(chain, bal, chain.len() as int))]
    } else {
        Seq::empty()
    }) + t.cash_backs@.map_values(|p: Price| (r, p.0 as int))
}

/// Debit lines of all legs, each replicated `multiple` times.
pub open spec fn trans_debits(ts: Seq<ExprTrans>, d: Seq<char>, c: Seq<char>) -> Seq<(Seq<char>, int)>
    decreases ts.len(),
{
    if ts.len() == 0 {
        Seq::empty()
    } else {
        trans_debits(ts.drop_last(), d, c) + repeat_seq(leg_debits(ts.last(), d, c), ts.last().multiple as nat)
    }
}

/// Credit lines of all legs, each replicated `multiple` times.
pub open spec fn trans_credits(ts: Seq<ExprTrans>, c: Seq<char>, r: Seq<char>) -> Seq<(Seq<char>, int)>
    decreases ts.len(),
{
    if ts.len() == 0 {
        Seq::empty()
    } else {
        trans_credits(ts.drop_last(), c, r) + repeat_seq(leg_credits(ts.last(), c, r), ts.last().multiple as nat)
    }
}

/// A leg whose sides are not resolved enough to balance.
pub open spec fn leg_unresolved(t: ExprTrans, credit: Option<Seq<char>>, debit: Option<Seq<char>>) -> bool {
    if t.cash_backs@.len() == 0 {
        debit is None || credit is None
    } else {
        credit is None
    }
}

/// The raw tokens of both sides and the accounts they resolved to.
pub struct SideState {
    pub credit_tok: Option<Seq<char>>,
    pub debit_tok: Option<Seq<char>>,
    pub credit: Option<Seq<char>>,
    pub debit: Option<Seq<char>>,
}

/// Context in which the credit token of `e` is resolved.
pub open spec fn ctx_credit_s(s: SideState, e: Expr) -> ResolveCtx {
    let n = e.accounts@.len();
    ResolveCtx {
        credit_tok: if n >= 1 { Some(e.accounts@[0]@) } else { s.credit_tok },
        debit_tok: if n >= 2 { Some(e.accounts@[1]@) } else { s.debit_tok },
        credit_done: if n >= 1 { false } else { s.credit is Some },
        debit_done: if n >= 2 { false } else { s.debit is Some },
        hints: e.hints@.map_values(|h: String| h@).to_set(),
    }
}

/// The credit account after resolving `e`.
pub open spec fn credit_after_s<M: TokenMapper>(m: &M, s: SideState, e: Expr) -> Option<Seq<char>> {
    if e.accounts@.len() >= 1 {
        m.spec_account(ctx_credit_s(s, e), e.accounts@[0]@)
    } else {
        s.credit
    }
}

/// Context in which the debit token of `e` is resolved.
pub open spec fn ctx_debit_s<M: TokenMapper>(m: &M, s: SideState, e: Expr) -> ResolveCtx {
    ResolveCtx { credit_done: credit_after_s(m, s, e) is Some, ..ctx_credit_s(s, e) }
}

/// The debit account after resolving `e`.
pub open spec fn debit_after_s<M: TokenMapper>(m: &M, s: SideState, e: Expr) -> Option<Seq<char>> {
    if e.accounts@.len() >= 2 {
        m.spec_account(ctx_debit_s(m, s, e), e.accounts@[1]@)
    } else {
        s.debit
    }
}

/// Context in which the rewards of `e` are resolved.
pub open spec fn ctx_entries_s<M: TokenMapper>(m: &M, s: SideState, e: Expr) -> ResolveCtx {
    ResolveCtx { debit_done: debit_after_s(m, s, e) is Some, ..ctx_debit_s(m, s, e) }
}

/// Both sides after resolving `e`.
pub open spec fn side_after_s<M: TokenMapper>(m: &M, s: SideState, e: Expr) -> SideState {
    let c = ctx_credit_s(s, e);
    SideState { credit_tok: c.credit_tok, debit_tok: c.debit_tok, credit: credit_after_s(m, s, e), debit: debit_after_s(m, s, e) }
}

/// What the sub-expressions `es` add to a transaction, starting from the
/// sides `s`: the sides after them, the debit lines, the credit lines,
/// whether some leg had an unresolved side, and whether some declared hint
/// was never checked.
pub open spec fn fold_exprs<M: TokenMapper>(m: &M, s: SideState, es: Seq<Expr>) -> (SideState, Seq<(Seq<char>, int)>, Seq<(Seq<char>, int)>, bool, bool)
    decreases es.len(),
{
    if es.len() == 0 {
        (s, Seq::empty(), Seq::empty(), false, false)
    } else {
        let p = fold_exprs(m, s, es.drop_last());
        let e = es.last();
        let fb = m.spec_fallback();
        let cr = credit_after_s(m, p.0, e);
        let dr = debit_after_s(m, p.0, e);
        (
            side_after_s(m, p.0, e),
            p.1 + trans_debits(e.trans@, name_or(dr, fb), name_or(cr, fb)),
            p.2 + trans_credits(e.trans@, name_or(cr, fb), name_or(m.spec_reward(ctx_entries_s(m, p.0, e)), fb)),
            p.3 || exists|i: int| 0 <= i < e.trans@.len() && leg_unresolved(#[trigger] e.trans@[i], cr, dr),
            p.4 || expr_unconsumed(m, p.0, e),
        )
    }
}

/// Builds one transaction from the sub-expressions of a line.
pub struct TransactionFactory {
    pub transaction: Transaction,
    pub credit_tok: Option<String>,
    pub debit_tok: Option<String>,
    pub credit_account: Option<String>,
    pub debit_account: Option<String>,
    /// Hints of the current sub-expression, and whether each was consumed.
    pub hint_keys: Vec<String>,
    pub hint_used: Vec<bool>,
    /// A hint of an earlier sub-expression was never consumed.
    pub stale_unconsumed: bool,
    /// The account a mapper has chosen last.
    pub current_account: Option<String>,
}

impl TransactionFactory {
    pub open spec fn wf(&self) -> bool {
        self.hint_used@.len() == self.hint_keys@.len()
    }

    pub open spec fn hint_set(&self) -> Set<Seq<char>> {
        self.hint_keys@.map_values(|h: String| h@).to_set()
    }

    pub open spec fn ctx(&self) -> ResolveCtx {
        ResolveCtx {
            credit_tok: opt_view(self.credit_tok),
            debit_tok: opt_view(self.debit_tok),
            credit_done: self.credit_account is Some,
            debit_done: self.debit_account is Some,
            hints: self.hint_set(),
        }
    }

    /// Some declared hint has not been consumed.
    pub open spec fn has_unconsumed(&self) -> bool {
        self.stale_unconsumed || exists|i: int| 0 <= i < self.hint_used@.len() && !#[trigger] self.hint_used@[i]
    }

    /// The raw tokens and resolved accounts of both sides.
    pub open spec fn side(&self) -> SideState {
        SideState {
            credit_tok: opt_view(self.credit_tok),
            debit_tok: opt_view(self.debit_tok),
            credit: opt_view(self.credit_account),
            debit: opt_view(self.debit_account),
        }
    }

    /// Context in which the credit token of `e` is resolved.
    pub open spec fn ctx_credit(&self, e: Expr) -> ResolveCtx {
        ctx_credit_s(self.side(), e)
    }

    /// The credit account after resolving `e`.
    pub open spec fn credit_after<M: TokenMapper>(&self, m: &M, e: Expr) -> Option<Seq<char>> {
        credit_after_s(m, self.side(), e)
    }

    /// Context in which the debit token of `e` is resolved.
    pub open spec fn ctx_debit<M: TokenMapper>(&self, m: &M, e: Expr) -> ResolveCtx {
        ctx_debit_s(m, self.side(), e)
    }

    /// The debit account after resolving `e`.
    pub open spec fn debit_after<M: TokenMapper>(&self, m: &M, e: Expr) -> Option<Seq<char>> {
        debit_after_s(m, self.side(), e)
    }

    /// Context in which the rewards of `e` are resolved.
    pub open spec fn ctx_entries<M: TokenMapper>(&self, m: &M, e: Expr) -> ResolveCtx {
        ctx_entries_s(m, self.side(), e)
    }

    /// A new factory holding an empty transaction dated 1970-01-01.
    pub fn new() -> (r: TransactionFactory)
        ensures
            r.wf(),
            !r.has_unconsumed(),
            r.transaction.debit_entries@.len() == 0,
            r.transaction.credit_entries@.len() == 0,
            !r.transaction.has_build_error,
            r.credit_account is None,
            r.debit_account is None,
            r.credit_tok is None,
            r.debit_tok is None,
            r.side() == (SideState { credit_tok: None, debit_tok: None, credit: None, debit: None }),
    {
        TransactionFactory {
            transaction: Transaction {
                has_build_error: false,
                date: Date(1970, 1, 1),
                num_base: 0,
                debit_entries: Vec::new(),
                credit_entries: Vec::new(),
                description: None,
                orig_expr: None,
            },
            credit_tok: None,
            debit_tok: None,
            credit_account: None,
            debit_account: None,
            hint_keys: Vec::new(),
            hint_used: Vec::new(),
            stale_unconsumed: false,
            current_account: None,
        }
    }

    /// Records the account a mapper has chosen.
    pub fn set_account(&mut self, account: String)
        ensures
            final(self).current_account == Some(account),
            final(self).transaction == old(self).transaction,
            final(self).credit_tok == old(self).credit_tok,
            final(self).debit_tok == old(self).debit_tok,
            final(self).credit_account == old(self).credit_account,
            final(self).debit_account == old(self).debit_account,
            final(self).stale_unconsumed == old(self).stale_unconsumed,
            final(self).hint_keys == old(self).hint_keys,
            final(self).hint_used == old(self).hint_used,
    {
        self.current_account = Some(account);
    }

    pub fn is_credit(&self) -> (r: bool)
        ensures
            r == self.ctx().is_credit(),
    {
        self.credit_account.is_none()
    }

    pub fn is_debit(&self) -> (r: bool)
        ensures
            r == self.ctx().is_debit(),
    {
        !self.is_credit() && self.debit_account.is_none()
    }

    /// Whether `hint` was declared; marks it consumed.
    pub fn check_hint(&mut self, hint: &String) -> (r: bool)
        requires
            old(self).wf(),
        ensures
            final(self).wf(),
            r == old(self).hint_set().contains(hint@),
            mapper_frame(*old(self), *final(self)),
            hints_checked(*old(self), *final(self), set![hint@]),
            final(self).current_account == old(self).current_account,
            forall|i: int| 0 <= i < old(self).hint_used@.len() ==> #[trigger] final(self).hint_used@[i]
                == (old(self).hint_used@[i] || old(self).hint_keys@[i]@ == hint@),
    {
        let mut found = false;
        let mut i: usize = 0;
        while i < self.hint_keys.len()
            invariant
                self.wf(),
                i <= self.hint_keys@.len(),
                self.hint_keys == old(self).hint_keys,
                self.transaction == old(self).transaction,
                self.credit_tok == old(self).credit_tok,
                self.debit_tok == old(self).debit_tok,
                self.credit_account == old(self).credit_account,
                self.debit_account == old(self).debit_account,
                self.stale_unconsumed == old(self).stale_unconsumed,
                self.current_account == old(self).current_account,
                self.hint_used@.len() == old(self).hint_used@.len(),
                forall|j: int| 0 <= j < i ==> #[trigger] self.hint_used@[j]
                    == (old(self).hint_used@[j] || old(self).hint_keys@[j]@ == hint@),
                forall|j: int| i <= j < self.hint_used@.len() ==> #[trigger] self.hint_used@[j] == old(self).hint_used@[j],
                found == exists|j: int| 0 <= j < i && old(self).hint_keys@[j]@ == hint@,
            decreases self.hint_keys@.len() - i,
        {
            if self.hint_keys[i] == *hint {
                self.hint_used.set(i, true);
                found = true;
            }
            i = i + 1;
        }
        proof {
            let ks = old(self).hint_keys@.map_values(|h: String| h@);
            if found {
                let j = choose|j: int| 0 <= j < i && old(self).hint_keys@[j]@ == hint@;
                assert(ks[j] == hint@);
            } else {
                assert forall|j: int| 0 <= j < ks.len() implies ks[j] != hint@ by {}
            }
        }
        found
    }

    /// Forgets `hint`: the other hints and their flags stay, in order, and
    /// nothing else changes.
    pub fn remove_hint(&mut self, hint: &String)
        requires
            old(self).wf(),
        ensures
            final(self).wf(),
            kept_hints(str_views(old(self).hint_keys@), old(self).hint_used@, hint@) == (
            str_views(final(self).hint_keys@),
            final(self).hint_used@,
            ),
            final(self).transaction == old(self).transaction,
            final(self).credit_tok == old(self).credit_tok,
            final(self).debit_tok == old(self).debit_tok,
            final(self).credit_account == old(self).credit_account,
            final(self).debit_account == old(self).debit_account,
            final(self).stale_unconsumed == old(self).stale_unconsumed,
            final(self).current_account == old(self).current_account,
    {
        let mut keys: Vec<String> = Vec::new();
        let mut used: Vec<bool> = Vec::new();
        let mut i: usize = 0;
        let ghost ks = str_views(self.hint_keys@);
        assert(ks.take(0) =~= Seq::<Seq<char>>::empty());
        assert(self.hint_used@.take(0) =~= Seq::<bool>::empty());
        assert(str_views(keys@) =~= Seq::<Seq<char>>::empty());
        while i < self.hint_keys.len()
            invariant
                self.wf(),
                *self == *old(self),
                ks == str_views(self.hint_keys@),
                i <= self.hint_keys@.len(),
                keys@.len() == used@.len(),
                kept_hints(ks.take(i as int), self.hint_used@.take(i as int), hint@) == (str_views(keys@), used@),
            decreases self.hint_keys@.len() - i,
        {
            proof {
                assert(ks.take(i + 1).drop_last() == ks.take(i as int));
                assert(ks.take(i + 1).last() == self.hint_keys@[i as int]@);
                assert(self.hint_used@.take(i + 1).drop_last() == self.hint_used@.take(i as int));
                assert(self.hint_used@.take(i + 1).last() == self.hint_used@[i as int]);
            }
            if self.hint_keys[i] != *hint {
                let ghost k0 = keys@;
                keys.push(self.hint_keys[i].clone());
                used.push(self.hint_used[i]);
                assert(str_views(keys@) =~= str_views(k0).push(self.hint_keys@[i as int]@));
            }
            i = i + 1;
        }
        assert(ks.take(i as int) == ks);
        assert(self.hint_used@.take(i as int) == self.hint_used@);
        self.hint_keys = keys;
        self.hint_used = used;
    }

    /// Whether some member of `account` is the credit token.
    pub fn check_credit(&self, account: &Vec<String>) -> (r: bool)
        ensures
            r == self.ctx().check_credit(account@.map_values(|a: String| a@)),
    {
        let tok = match &self.credit_tok {
            Some(t) => t.clone(),
            None => String::new(),
        };
        contains_token(account, &tok)
    }

    /// Whether some member of `account` is the debit token.
    pub fn check_debit(&self, account: &Vec<String>) -> (r: bool)
        ensures
            r == self.ctx().check_debit(account@.map_values(|a: String| a@)),
    {
        let tok = match &self.debit_tok {
            Some(t) => t.clone(),
            None => String::new(),
        };
        contains_token(account, &tok)
    }

    /// Whether some member of `account` is the token of the side not being
    /// resolved; false once both sides are resolved.
    pub fn check_opposite(&self, account: &Vec<String>) -> (r: bool)
        ensures
            r == self.ctx().check_opposite(account@.map_values(|a: String| a@)),
    {
        if self.is_debit() {
            self.check_credit(account)
        } else if self.is_credit() {
            self.check_debit(account)
        } else {
            false
        }
    }
}

/// Everything but the entries, the scratch account and the consumed flags
/// of hints is unchanged, and those flags are only set.
pub open spec fn entries_frame(a: TransactionFactory, b: TransactionFactory) -> bool {
    &&& b.credit_tok == a.credit_tok
    &&& b.debit_tok == a.debit_tok
    &&& b.credit_account == a.credit_account
    &&& b.debit_account == a.debit_account
    &&& b.stale_unconsumed == a.stale_unconsumed
    &&& hints_grow(a, b)
    &&& b.transaction.has_build_error == a.transaction.has_build_error
    &&& b.transaction.date == a.transaction.date
    &&& b.transaction.num_base == a.transaction.num_base
    &&& b.transaction.description == a.transaction.description
    &&& b.transaction.orig_expr == a.transaction.orig_expr
}

/// The name a reward resolves to in `ctx`.
pub open spec fn reward_name<M: TokenMapper>(m: &M, ctx: ResolveCtx) -> Seq<char> {
    name_or(m.spec_reward(ctx), m.spec_fallback())
}

proof fn lemma_entries_push(v: Seq<Entry>, e: Entry)
    ensures
        entries_view(v.push(e)) == entries_view(v).push(entry_view(e)),
{
    assert(entries_view(v.push(e)) =~= entries_view(v).push(entry_view(e)));
}

pub proof fn lemma_hints_grow_trans(a: TransactionFactory, b: TransactionFactory, c: TransactionFactory)
    requires
        hints_grow(a, b),
        hints_grow(b, c),
    ensures
        hints_grow(a, c),
{
    assert forall|i: int| 0 <= i < a.hint_used@.len() && #[trigger] a.hint_used@[i] implies c.hint_used@[i] by {
        assert(b.hint_used@[i]);
    }
}

impl TransactionFactory {
    /// Resolves `tok` for the credit side (`cr_or_dr == 1`) or the debit
    /// side; a side the mapper declines stays as it was.
    fn map_account<M: TokenMapper>(&mut self, cr_or_dr: u32, token_mapper: &M, tok: &String)
        requires
            old(self).wf(),
        ensures
            final(self).wf(),
            hints_grow(*old(self), *final(self)),
            hints_checked(*old(self), *final(self), token_mapper.spec_account_hints(old(self).ctx(), tok@)),
            final(self).transaction == old(self).transaction,
            final(self).credit_tok == old(self).credit_tok,
            final(self).debit_tok == old(self).debit_tok,
            final(self).stale_unconsumed == old(self).stale_unconsumed,
            cr_or_dr == 1 ==> final(self).debit_account == old(self).debit_account,
            cr_or_dr != 1 ==> final(self).credit_account == old(self).credit_account,
            cr_or_dr == 1 ==> opt_view(final(self).credit_account) == (match token_mapper.spec_account(old(self).ctx(), tok@) {
                Some(a) => Some(a),
                None => opt_view(old(self).credit_account),
            }),
            cr_or_dr != 1 ==> opt_view(final(self).debit_account) == (match token_mapper.spec_account(old(self).ctx(), tok@) {
                Some(a) => Some(a),
                None => opt_view(old(self).debit_account),
            }),
    {
        self.current_account = None;
        assert(self.ctx() == old(self).ctx());
        if token_mapper.on_account(self, tok) {
            let chosen = match &self.current_account {
                Some(a) => Some(a.clone()),
                None => None,
            };
            if let Some(account) = chosen {
                if cr_or_dr == 1 {
                    self.credit_account = Some(account);
                } else {
                    self.debit_account = Some(account);
                }
            }
        }
    }

    /// The account of the next reward, asking the mapper.
    fn reward_account<M: TokenMapper>(&mut self, token_mapper: &M) -> (r: String)
        requires
            old(self).wf(),
        ensures
            final(self).wf(),
            mapper_frame(*old(self), *final(self)),
            hints_checked(*old(self), *final(self), token_mapper.spec_reward_hints(old(self).ctx())),
            r@ == reward_name(token_mapper, old(self).ctx()),
    {
        self.current_account = None;
        assert(self.ctx() == old(self).ctx());
        token_mapper.on_reward(self);
        match &self.current_account {
            Some(a) => a.clone(),
            None => token_mapper.fallback_account(),
        }
    }

    /// Emits one replication of leg `t` with debit account `d` and credit
    /// account `c`.
    fn emit_leg<M: TokenMapper>(&mut self, token_mapper: &M, t: &ExprTrans, d: &String, c: &String)
        requires
            old(self).wf(),
        ensures
            final(self).wf(),
            entries_frame(*old(self), *final(self)),
            hints_checked(*old(self), *final(self), set_when(leg_asks(*t), token_mapper.spec_reward_hints(old(self).ctx()))),
            entries_view(final(self).transaction.debit_entries@) == entries_view(old(self).transaction.debit_entries@)
                + leg_debits(*t, d@, c@),
            entries_view(final(self).transaction.credit_entries@) == entries_view(old(self).transaction.credit_entries@)
                + leg_credits(*t, c@, reward_name(token_mapper, old(self).ctx())),
    {
        let ghost r_name = reward_name(token_mapper, old(self).ctx());
        let ghost chain = t.price_credit_chain@;
        let ghost bal = t.price_debit.0 as int;
        let ghost d0 = entries_view(old(self).transaction.debit_entries@);
        let ghost c0 = entries_view(old(self).transaction.credit_entries@);
        let ghost main_debits: Seq<(Seq<char>, int)> = if !t.spec_is_cashback_only() {
            seq![(d@, bal)]
        } else {
            Seq::empty()
        };
        let ghost main_credits: Seq<(Seq<char>, int)> = if !t.spec_is_cashback_only() {
            chain_credits(chain, bal, r_name) + seq![(c@, balance_at(chain, bal, chain.len() as int))]
        } else {
            Seq::empty()
        };
        let ghost rh = token_mapper.spec_reward_hints(old(self).ctx());
        let ghost chain_asked = !t.spec_is_cashback_only() && t.price_credit_chain@.len() > 0;
        if !t.is_cashback_only() {
            let entry = Entry { account: d.clone(), amount: Amount::Price(t.price_debit) };
            proof { lemma_entries_push(self.transaction.debit_entries@, entry); }
            self.transaction.debit_entries.push(entry);
            let mut price = t.price_debit;
            let mut k: usize = 0;
            while k < t.price_credit_chain.len()
                invariant
                    self.wf(),
                    entries_frame(*old(self), *self),
                    hints_checked(*old(self), *self, set_when(k > 0, rh)),
                    rh == token_mapper.spec_reward_hints(old(self).ctx()),
                    self.ctx() == old(self).ctx(),
                    chain == t.price_credit_chain@,
                    k <= chain.len(),
                    entries_view(self.transaction.debit_entries@) == d0 + main_debits,
                    entries_view(self.transaction.credit_entries@) == c0 + chain_credits_upto(chain, bal, r_name, k as int),
                    price.0 == balance_at(chain, bal, k as int),
                    r_name == reward_name(token_mapper, old(self).ctx()),
                decreases chain.len() - k,
            {
                let step = t.price_credit_chain[k];
                let (reward, next) = match step {
                    ExprCreditPrice::Reward(r) => (r, price.sub(r)),
                    ExprCreditPrice::Credit(cp) => (price.sub(cp), cp),
                };
                let ghost before = *self;
                let acc = self.reward_account(token_mapper);
                let entry = Entry { account: acc, amount: Amount::Price(reward) };
                proof {
                    lemma_hints_grow_trans(*old(self), before, *self);
                    lemma_hints_checked_trans(*old(self), before, *self, set_when(k > 0, rh), rh);
                    assert(set_when(k > 0, rh).union(rh) =~= set_when(k + 1 > 0, rh));
                    lemma_entries_push(self.transaction.credit_entries@, entry);
                }
                self.transaction.credit_entries.push(entry);
                price = next;
                k = k + 1;
                let ghost prev = chain_credits_upto(chain, bal, r_name, k - 1);
                let ghost last = chain_credit_at(chain, bal, r_name, k - 1);
                assert(chain_credits_upto(chain, bal, r_name, k as int) =~= prev.push(last));
            }
            let entry = Entry { account: c.clone(), amount: Amount::Price(price) };
            proof { lemma_entries_push(self.transaction.credit_entries@, entry); }
            self.transaction.credit_entries.push(entry);
            assert(entries_view(self.transaction.credit_entries@) =~= c0 + main_credits);
            assert(set_when(k > 0, rh) == set_when(chain_asked, rh));
        } else {
            assert(set_when(chain_asked, rh) =~= Set::<Seq<char>>::empty());
            assert(entries_view(self.transaction.credit_entries@) =~= c0 + main_credits);
            assert(entries_view(self.transaction.debit_entries@) =~= d0 + main_debits);
        }
        let mut k: usize = 0;
        while k < t.cash_backs.len()
            invariant
                self.wf(),
                entries_frame(*old(self), *self),
                hints_checked(*old(self), *self, set_when(chain_asked || k > 0, rh)),
                rh == token_mapper.spec_reward_hints(old(self).ctx()),
                self.ctx() == old(self).ctx(),
                k <= t.cash_backs@.len(),
                entries_view(self.transaction.debit_entries@) == d0 + main_debits
                    + t.cash_backs@.take(k as int).map_values(|p: Price| (c@, p.0 as int)),
                entries_view(self.transaction.credit_entries@) == c0 + main_credits
                    + t.cash_backs@.take(k as int).map_values(|p: Price| (r_name, p.0 as int)),
                r_name == reward_name(token_mapper, old(self).ctx()),
            decreases t.cash_backs@.len() - k,
        {
            let e = t.cash_backs[k];
            let ghost before = *self;
            let acc = self.reward_account(token_mapper);
            let centry = Entry { account: acc, amount: Amount::Price(e) };
            let dentry = Entry { account: c.clone(), amount: Amount::Price(e) };
            proof {
                lemma_hints_grow_trans(*old(self), before, *self);
                lemma_hints_checked_trans(*old(self), before, *self, set_when(chain_asked || k > 0, rh), rh);
                assert(set_when(chain_asked || k > 0, rh).union(rh) =~= set_when(chain_asked || k + 1 > 0, rh));
                lemma_entries_push(self.transaction.credit_entries@, centry);
                lemma_entries_push(self.transaction.debit_entries@, dentry);
            }
            self.transaction.credit_entries.push(centry);
            self.transaction.debit_entries.push(dentry);
            proof {
                assert(t.cash_backs@.take(k + 1) == t.cash_backs@.take(k as int).push(e));
                assert(t.cash_backs@.take(k + 1).map_values(|p: Price| (c@, p.0 as int))
                    =~= t.cash_backs@.take(k as int).map_values(|p: Price| (c@, p.0 as int)).push((c@, e.0 as int)));
                assert(t.cash_backs@.take(k + 1).map_values(|p: Price| (r_name, p.0 as int))
                    =~= t.cash_backs@.take(k as int).map_values(|p: Price| (r_name, p.0 as int)).push((r_name, e.0 as int)));
            }
            k = k + 1;
        }
        assert(t.cash_backs@.take(k as int) == t.cash_backs@);
        assert(set_when(chain_asked || k > 0, rh) == set_when(leg_asks(*t), rh));
        assert(entries_view(self.transaction.debit_entries@) =~= d0 + leg_debits(*t, d@, c@));
        assert(entries_view(self.transaction.credit_entries@) =~= c0 + leg_credits(*t, c@, r_name));
    }
}

impl TransactionFactory {
    /// Adds the entries of one sub-expression.
    ///
    /// The hints of `expr` replace the tracked ones (an unconsumed earlier
    /// hint is remembered); its first account token is resolved as the
    /// credit side and its second as the debit side; then every leg is
    /// emitted `multiple` times, unresolved sides posting to the fallback
    /// account and marking the transaction.
    pub fn set_expr<M: TokenMapper>(&mut self, token_mapper: &M, expr: &Expr)
        requires
            old(self).wf(),
        ensures
            final(self).wf(),
            opt_view(final(self).credit_account) == old(self).credit_after(token_mapper, *expr),
            opt_view(final(self).debit_account) == old(self).debit_after(token_mapper, *expr),
            final(self).ctx() == old(self).ctx_entries(token_mapper, *expr),
            final(self).side() == side_after_s(token_mapper, old(self).side(), *expr),
            final(self).stale_unconsumed == old(self).has_unconsumed(),
            final(self).has_unconsumed() == (old(self).has_unconsumed() || expr_unconsumed(
                token_mapper,
                old(self).side(),
                *expr,
            )),
            forall|i: int| 0 <= i < final(self).hint_used@.len() ==> #[trigger] final(self).hint_used@[i]
                == expr_checks(token_mapper, old(self).side(), *expr).contains(final(self).hint_keys@[i]@),
            final(self).hint_keys@.map_values(|h: String| h@) == expr.hints@.map_values(|h: String| h@),
            entries_view(final(self).transaction.debit_entries@) == entries_view(old(self).transaction.debit_entries@)
                + trans_debits(
                expr.trans@,
                name_or(old(self).debit_after(token_mapper, *expr), token_mapper.spec_fallback()),
                name_or(old(self).credit_after(token_mapper, *expr), token_mapper.spec_fallback()),
            ),
            entries_view(final(self).transaction.credit_entries@) == entries_view(old(self).transaction.credit_entries@)
                + trans_credits(
                expr.trans@,
                name_or(old(self).credit_after(token_mapper, *expr), token_mapper.spec_fallback()),
                reward_name(token_mapper, old(self).ctx_entries(token_mapper, *expr)),
            ),
            final(self).transaction.has_build_error == (old(self).transaction.has_build_error || exists|i: int|
                0 <= i < expr.trans@.len() && leg_unresolved(
                    #[trigger] expr.trans@[i],
                    old(self).credit_after(token_mapper, *expr),
                    old(self).debit_after(token_mapper, *expr),
                )),
            final(self).transaction.date == old(self).transaction.date,
            final(self).transaction.num_base == old(self).transaction.num_base,
            final(self).transaction.description == old(self).transaction.description,
            final(self).transaction.orig_expr == old(self).transaction.orig_expr,
    {
        let ghost f0 = *old(self);
        let ghost e = *expr;
        // Hints of this sub-expression replace the tracked ones.
        let mut unconsumed = self.stale_unconsumed;
        let mut i: usize = 0;
        while i < self.hint_used.len()
            invariant
                self.wf(),
                *self == f0,
                i <= self.hint_used@.len(),
                unconsumed == (self.stale_unconsumed || exists|j: int| 0 <= j < i && !#[trigger] self.hint_used@[j]),
            decreases self.hint_used@.len() - i,
        {
            if !self.hint_used[i] {
                unconsumed = true;
            }
            i = i + 1;
        }
        self.stale_unconsumed = unconsumed;
        let mut keys: Vec<String> = Vec::new();
        let mut used: Vec<bool> = Vec::new();
        let mut i: usize = 0;
        while i < expr.hints.len()
            invariant
                i <= expr.hints@.len(),
                keys@.len() == i,
                used@.len() == i,
                forall|j: int| 0 <= j < i ==> #[trigger] keys@[j] == expr.hints@[j],
                forall|j: int| 0 <= j < i ==> !#[trigger] used@[j],
            decreases expr.hints@.len() - i,
        {
            keys.push(expr.hints[i].clone());
            used.push(false);
            i = i + 1;
        }
        assert(keys@ == expr.hints@);
        self.hint_keys = keys;
        self.hint_used = used;

        let n = expr.accounts.len();
        if n >= 1 {
            self.credit_account = None;
            self.credit_tok = Some(expr.accounts[0].clone());
        }
        if n >= 2 {
            self.debit_account = None;
            self.debit_tok = Some(expr.accounts[1].clone());
        }
        assert(self.ctx() == f0.ctx_credit(e));
        let ghost fr = *self;
        let ghost ac = if n >= 1 { token_mapper.spec_account_hints(f0.ctx_credit(e), e.accounts@[0]@) } else { Set::empty() };
        let ghost ad = if n >= 2 { token_mapper.spec_account_hints(f0.ctx_debit(token_mapper, e), e.accounts@[1]@) } else { Set::empty() };
        if n >= 1 {
            self.map_account(1, token_mapper, &expr.accounts[0]);
        }
        let ghost fc = *self;
        assert(hints_checked(fr, fc, ac));
        assert(opt_view(self.credit_account) == f0.credit_after(token_mapper, e));
        assert(self.ctx() == f0.ctx_debit(token_mapper, e));
        if n >= 2 {
            self.map_account(2, token_mapper, &expr.accounts[1]);
        }
        assert(hints_checked(fc, *self, ad));
        proof {
            lemma_hints_checked_trans(fr, fc, *self, ac, ad);
        }
        assert(opt_view(self.debit_account) == f0.debit_after(token_mapper, e));
        assert(self.ctx() == f0.ctx_entries(token_mapper, e));

        let fallback = token_mapper.fallback_account();
        let d = match &self.debit_account {
            Some(a) => a.clone(),
            None => fallback.clone(),
        };
        let c = match &self.credit_account {
            Some(a) => a.clone(),
            None => fallback.clone(),
        };
        let ghost cr = f0.credit_after(token_mapper, e);
        let ghost dr = f0.debit_after(token_mapper, e);
        let ghost r_name = reward_name(token_mapper, f0.ctx_entries(token_mapper, e));
        let ghost f1 = *self;
        let ghost rh = token_mapper.spec_reward_hints(f0.ctx_entries(token_mapper, e));
        assert(legs_ask(expr.trans@.take(0)) == false);
        let ghost db0 = entries_view(f0.transaction.debit_entries@);
        let ghost cr0 = entries_view(f0.transaction.credit_entries@);
        assert(entries_view(self.transaction.debit_entries@) == db0 + trans_debits(expr.trans@.take(0), d@, c@)) by {
            assert(expr.trans@.take(0) =~= Seq::<ExprTrans>::empty());
        }
        assert(entries_view(self.transaction.credit_entries@) == cr0 + trans_credits(expr.trans@.take(0), c@, r_name));
        let mut i: usize = 0;
        while i < expr.trans.len()
            invariant
                hints_checked(f1, *self, set_when(legs_ask(expr.trans@.take(i as int)), rh)),
                rh == token_mapper.spec_reward_hints(f0.ctx_entries(token_mapper, e)),
                self.wf(),
                self.credit_tok == f1.credit_tok,
                self.debit_tok == f1.debit_tok,
                self.credit_account == f1.credit_account,
                self.debit_account == f1.debit_account,
                self.stale_unconsumed == f1.stale_unconsumed,
                self.hint_keys == f1.hint_keys,
                self.hint_used@.len() == f1.hint_used@.len(),
                self.transaction.date == f0.transaction.date,
                self.transaction.num_base == f0.transaction.num_base,
                self.transaction.description == f0.transaction.description,
                self.transaction.orig_expr == f0.transaction.orig_expr,
                self.ctx() == f0.ctx_entries(token_mapper, e),
                opt_view(self.credit_account) == cr,
                opt_view(self.debit_account) == dr,
                d@ == name_or(dr, token_mapper.spec_fallback()),
                c@ == name_or(cr, token_mapper.spec_fallback()),
                r_name == reward_name(token_mapper, f0.ctx_entries(token_mapper, e)),
                e == *expr,
                i <= expr.trans@.len(),
                entries_view(self.transaction.debit_entries@) == db0 + trans_debits(expr.trans@.take(i as int), d@, c@),
                entries_view(self.transaction.credit_entries@) == cr0 + trans_credits(expr.trans@.take(i as int), c@, r_name),
                self.transaction.has_build_error == (f0.transaction.has_build_error || exists|j: int|
                    0 <= j < i && leg_unresolved(#[trigger] expr.trans@[j], cr, dr)),
            decreases expr.trans@.len() - i,
        {
            let t = &expr.trans[i];
            if t.cash_backs.len() == 0 {
                if self.debit_account.is_none() || self.credit_account.is_none() {
                    self.transaction.has_build_error = true;
                }
            } else {
                if self.credit_account.is_none() {
                    self.transaction.has_build_error = true;
                }
            }
            assert(self.transaction.has_build_error == (f0.transaction.has_build_error || exists|j: int|
                0 <= j < i + 1 && leg_unresolved(#[trigger] expr.trans@[j], cr, dr))) by {
                if leg_unresolved(expr.trans@[i as int], cr, dr) {
                    assert(leg_unresolved(expr.trans@[i as int], cr, dr));
                }
            }
            let ghost dbi = entries_view(self.transaction.debit_entries@);
            let ghost cri = entries_view(self.transaction.credit_entries@);
            let mut rep: u32 = 0;
            while rep < t.multiple
                invariant
                    hints_checked(f1, *self, set_when(legs_ask(expr.trans@.take(i as int)) || (rep > 0 && leg_asks(*t)), rh)),
                    rh == token_mapper.spec_reward_hints(f0.ctx_entries(token_mapper, e)),
                    t == &expr.trans@[i as int],
                    i < expr.trans@.len(),
                    self.wf(),
                    self.credit_tok == f1.credit_tok,
                    self.debit_tok == f1.debit_tok,
                    self.credit_account == f1.credit_account,
                    self.debit_account == f1.debit_account,
                    self.stale_unconsumed == f1.stale_unconsumed,
                    self.hint_keys == f1.hint_keys,
                    self.hint_used@.len() == f1.hint_used@.len(),
                    self.transaction.date == f0.transaction.date,
                    self.transaction.num_base == f0.transaction.num_base,
                    self.transaction.description == f0.transaction.description,
                    self.transaction.orig_expr == f0.transaction.orig_expr,
                    self.ctx() == f0.ctx_entries(token_mapper, e),
                    self.transaction.has_build_error == (f0.transaction.has_build_error || exists|j: int|
                        0 <= j < i + 1 && leg_unresolved(#[trigger] expr.trans@[j], cr, dr)),
                    r_name == reward_name(token_mapper, f0.ctx_entries(token_mapper, e)),
                    rep <= t.multiple,
                    entries_view(self.transaction.debit_entries@) == dbi + repeat_seq(leg_debits(*t, d@, c@), rep as nat),
                    entries_view(self.transaction.credit_entries@) == cri + repeat_seq(leg_credits(*t, c@, r_name), rep as nat),
                decreases t.multiple - rep,
            {
                let ghost before = *self;
                let ghost sa = set_when(legs_ask(expr.trans@.take(i as int)) || (rep > 0 && leg_asks(*t)), rh);
                self.emit_leg(token_mapper, t, &d, &c);
                proof {
                    lemma_hints_checked_trans(f1, before, *self, sa, set_when(leg_asks(*t), rh));
                    assert(sa.union(set_when(leg_asks(*t), rh)) =~= set_when(legs_ask(expr.trans@.take(i as int))
                        || (rep + 1 > 0 && leg_asks(*t)), rh));
                }
                rep = rep + 1;
            }
            proof {
                assert(expr.trans@.take(i + 1).drop_last() == expr.trans@.take(i as int));
                assert(expr.trans@.take(i + 1).last() == expr.trans@[i as int]);
                let tk = expr.trans@.take(i as int);
                let tk1 = expr.trans@.take(i + 1);
                assert(tk1[i as int] == expr.trans@[i as int]);
                if legs_ask(tk) {
                    let j = choose|j: int| 0 <= j < tk.len() && #[trigger] tk[j].multiple > 0 && leg_asks(tk[j]);
                    assert(tk1[j] == tk[j]);
                }
                if legs_ask(tk1) {
                    let j = choose|j: int| 0 <= j < tk1.len() && #[trigger] tk1[j].multiple > 0 && leg_asks(tk1[j]);
                    if j < i {
                        assert(tk[j] == tk1[j]);
                    }
                }
                assert(legs_ask(tk1) == (legs_ask(tk) || (rep > 0 && leg_asks(*t))));
            }
            i = i + 1;
        }
        assert(expr.trans@.take(i as int) == expr.trans@);
        proof {
            assert(self.hint_keys@.map_values(|h: String| h@) =~= expr.hints@.map_values(|h: String| h@));
            lemma_hints_checked_trans(fr, f1, *self, ac.union(ad), set_when(legs_ask(expr.trans@), rh));
            assert(ac.union(ad).union(set_when(legs_ask(expr.trans@), rh)) =~= expr_checks(token_mapper, f0.side(), e));
            assert forall|i: int| 0 <= i < self.hint_used@.len() implies #[trigger] self.hint_used@[i]
                == expr_checks(token_mapper, f0.side(), e).contains(self.hint_keys@[i]@) by {
                assert(!fr.hint_used@[i]);
            }
            let chk = expr_checks(token_mapper, f0.side(), e);
            let ks = self.hint_keys@.map_values(|h: String| h@);
            if exists|j: int| 0 <= j < self.hint_used@.len() && !#[trigger] self.hint_used@[j] {
                let j = choose|j: int| 0 <= j < self.hint_used@.len() && !#[trigger] self.hint_used@[j];
                assert(ks[j] == self.hint_keys@[j]@);
                assert(ks[j] == e.hints@[j]@);
                assert(!chk.contains(e.hints@[j]@));
            }
            if expr_unconsumed(token_mapper, f0.side(), e) {
                let j = choose|j: int| 0 <= j < e.hints@.len() && !chk.contains(#[trigger] e.hints@[j]@);
                assert(ks[j] == e.hints@[j]@);
                assert(!self.hint_used@[j]);
            }
        }
    }

    /// Finishes the transaction. An unconsumed hint, or no entries at all,
    /// marks it and appends one zero entry on the fallback account.
    pub fn build<M: TokenMapper>(self, token_mapper: &M) -> (r: Transaction)
        requires
            self.wf(),
        ensures
            r.has_build_error == (self.transaction.has_build_error || self.has_unconsumed()
                || (self.transaction.debit_entries@.len() == 0 && self.transaction.credit_entries@.len() == 0)),
            entries_view(r.debit_entries@) == entries_view(self.transaction.debit_entries@),
            entries_view(r.credit_entries@) == entries_view(self.transaction.credit_entries@) + (if self.has_unconsumed()
                || (self.transaction.debit_entries@.len() == 0 && self.transaction.credit_entries@.len() == 0) {
                seq![(token_mapper.spec_fallback(), 0int)]
            } else {
                Seq::empty()
            }),
            r.date == self.transaction.date,
            r.num_base == self.transaction.num_base,
            r.description == self.transaction.description,
            r.orig_expr == self.transaction.orig_expr,
    {
        let mut unconsumed = self.stale_unconsumed;
        let mut i: usize = 0;
        while i < self.hint_used.len()
            invariant
                i <= self.hint_used@.len(),
                unconsumed == (self.stale_unconsumed || exists|j: int| 0 <= j < i && !#[trigger] self.hint_used@[j]),
            decreases self.hint_used@.len() - i,
        {
            if !self.hint_used[i] {
                unconsumed = true;
            }
            i = i + 1;
        }
        let mut transaction = self.transaction;
        if unconsumed || transaction.is_empty() {
            transaction.has_build_error = true;
            let entry = Entry { account: token_mapper.fallback_account(), amount: Amount::Price(Price(0)) };
            proof { lemma_entries_push(transaction.credit_entries@, entry); }
            transaction.credit_entries.push(entry);
        } else {
            assert(entries_view(transaction.credit_entries@) =~= entries_view(transaction.credit_entries@) + Seq::<(Seq<char>, int)>::empty());
        }
        transaction
    }
}

impl Transaction {
    pub fn is_empty(&self) -> (r: bool)
        ensures
            r == (self.debit_entries@.len() == 0 && self.credit_entries@.len() == 0),
    {
        self.credit_entries.len() == 0 && self.debit_entries.len() == 0
    }
}

/// Whether `tok` is a member of `list`.
pub fn contains_token(list: &Vec<String>, tok: &String) -> (r: bool)
    ensures
        r == seq_has(list@.map_values(|a: String| a@), tok@),
{
    let mut i: usize = 0;
    while i < list.len()
        invariant
            i <= list@.len(),
            forall|j: int| 0 <= j < i ==> list@[j]@ != tok@,
        decreases list@.len() - i,
    {
        if list[i] == *tok {
            assert(list@.map_values(|a: String| a@)[i as int] == tok@);
            return true;
        }
        i = i + 1;
    }
    let ghost m = list@.map_values(|a: String| a@);
    assert forall|j: int| 0 <= j < m.len() implies #[trigger] m[j] != tok@ by {
        assert(m[j] == list@[j]@);
    }
    false
}

/// One line per entry: account, a space, `word`, a space, the amount.
pub open spec fn lines_text(es: Seq<(Seq<char>, int)>, word: Seq<char>) -> Seq<char>
    decreases es.len(),
{
    if es.len() == 0 {
        Seq::empty()
    } else {
        lines_text(es.drop_last(), word) + es.last().0 + " "@ + word + " "@ + price_text(es.last().1) + "\n"@
    }
}

/// The description line and the entry lines.
pub open spec fn body_text(t: Transaction) -> Seq<char> {
    "Transaction desc: "@ + (match t.description {
        Some(d) => d@,
        None => Seq::empty(),
    }) + "\n"@ + lines_text(entries_view(t.debit_entries@), "debit"@) + lines_text(
        entries_view(t.credit_entries@),
        "credit"@,
    )
}

/// The full text: the expression if kept, date and numbering base, then
/// the body.
pub open spec fn transaction_text(t: Transaction) -> Seq<char> {
    (match t.orig_expr {
        Some(e) => "Expression: "@ + e@ + "\n"@,
        None => Seq::empty(),
    }) + "Date: "@ + date_text(t.date) + ", num base: "@ + nat_text(t.num_base as nat) + "\n"@ + body_text(t)
}

impl Amount {
    /// The amount as text, such as `20.00`.
    pub fn render(&self) -> (r: String)
        ensures
            match self {
                Amount::Price(p) => r@ == price_text(p.0 as int),
            },
    {
        match self {
            Amount::Price(p) => p.render(),
        }
    }
}

/// Appends one line per entry.
fn push_lines(out: &mut String, es: &Vec<Entry>, word: &str)
    ensures
        final(out)@ == old(out)@ + lines_text(entries_view(es@), word@),
{
    let mut i: usize = 0;
    while i < es.len()
        invariant
            i <= es@.len(),
            out@ == old(out)@ + lines_text(entries_view(es@.take(i as int)), word@),
        decreases es@.len() - i,
    {
        let e = &es[i];
        out.append(e.account.as_str());
        out.append(" ");
        out.append(word);
        out.append(" ");
        let a = e.amount.render();
        out.append(a.as_str());
        out.append("\n");
        proof {
            let ev = entries_view(es@.take(i + 1));
            assert(ev.drop_last() =~= entries_view(es@.take(i as int)));
            assert(ev.last() == entry_view(es@[i as int]));
            assert(out@ =~= old(out)@ + lines_text(ev, word@));
        }
        i = i + 1;
    }
    assert(es@.take(i as int) == es@);
}

impl Transaction {
    /// The description line and the entry lines.
    pub fn body_string(&self) -> (r: String)
        ensures
            r@ == body_text(*self),
    {
        let mut out = String::from_str("Transaction desc: ");
        match &self.description {
            Some(d) => out.append(d.as_str()),
            None => {},
        }
        out.append("\n");
        push_lines(&mut out, &self.debit_entries, "debit");
        push_lines(&mut out, &self.credit_entries, "credit");
        proof {
            assert(out@ =~= body_text(*self));
        }
        out
    }

    /// The full text rendering.
    pub fn to_text(&self) -> (r: String)
        ensures
            r@ == transaction_text(*self),
    {
        let mut out = String::new();
        match &self.orig_expr {
            Some(e) => {
                out.append("Expression: ");
                out.append(e.as_str());
                out.append("\n");
            },
            None => {},
        }
        out.append("Date: ");
        let d = self.date.render();
        out.append(d.as_str());
        out.append(", num base: ");
        let n = string_of(nat_chars(self.num_base).as_slice());
        out.append(n.as_str());
        out.append("\n");
        let b = self.body_string();
        out.append(b.as_str());
        proof {
            assert(out@ =~= transaction_text(*self));
        }
        out
    }
}

/// Total of the amounts of `es`.
pub open spec fn amount_sum(es: Seq<(Seq<char>, int)>) -> int
    decreases es.len(),
{
    if es.len() == 0 {
        0
    } else {
        amount_sum(es.drop_last()) + es.last().1
    }
}

/// No step of `chain` leaves the `i32` range when it is subtracted.
pub open spec fn chain_in_range(chain: Seq<ExprCreditPrice>, bal: int) -> bool {
    forall|k: int| 0 <= k < chain.len() ==> crate::price::in_i32(
        #[trigger] balance_at(chain, bal, k) - crate::expr::step_amount(chain[k]),
    )
}

proof fn lemma_sum_concat(a: Seq<(Seq<char>, int)>, b: Seq<(Seq<char>, int)>)
    ensures
        amount_sum(a + b) == amount_sum(a) + amount_sum(b),
    decreases b.len(),
{
    if b.len() > 0 {
        assert((a + b).drop_last() =~= a + b.drop_last());
        lemma_sum_concat(a, b.drop_last());
    } else {
        assert(a + b =~= a);
    }
}

proof fn lemma_sum_names(cb: Seq<Price>, x: Seq<char>, y: Seq<char>)
    ensures
        amount_sum(cb.map_values(|p: Price| (x, p.0 as int))) == amount_sum(cb.map_values(|p: Price| (y, p.0 as int))),
    decreases cb.len(),
{
    if cb.len() > 0 {
        lemma_sum_names(cb.drop_last(), x, y);
        assert(cb.map_values(|p: Price| (x, p.0 as int)).drop_last() =~= cb.drop_last().map_values(|p: Price| (x, p.0 as int)));
        assert(cb.map_values(|p: Price| (y, p.0 as int)).drop_last() =~= cb.drop_last().map_values(|p: Price| (y, p.0 as int)));
    }
}

proof fn lemma_chain_telescopes(chain: Seq<ExprCreditPrice>, bal: int, r: Seq<char>, k: int)
    requires
        0 <= k <= chain.len(),
        chain_in_range(chain, bal),
    ensures
        amount_sum(chain_credits_upto(chain, bal, r, k)) + balance_at(chain, bal, k) == bal,
    decreases k,
{
    if k == 0 {
        assert(chain_credits_upto(chain, bal, r, 0) =~= Seq::<(Seq<char>, int)>::empty());
    } else {
        lemma_chain_telescopes(chain, bal, r, k - 1);
        let b = balance_at(chain, bal, k - 1);
        assert(crate::price::in_i32(b - crate::expr::step_amount(chain[k - 1])));
        assert(chain_credits_upto(chain, bal, r, k).drop_last() =~= chain_credits_upto(chain, bal, r, k - 1));
        assert(crate::price::wrap_i32(b - crate::expr::step_amount(chain[k - 1])) == b - crate::expr::step_amount(chain[k - 1]))
            by {
            let v = b - crate::expr::step_amount(chain[k - 1]);
            assert(0 <= v + 0x1_0000_0000 < 0x2_0000_0000 || 0 <= v < 0x1_0000_0000);
            if v >= 0 {
                assert(v % 0x1_0000_0000 == v);
            } else {
                assert((v + 0x1_0000_0000) % 0x1_0000_0000 == v + 0x1_0000_0000);
                vstd::arithmetic::div_mod::lemma_mod_add_multiples_vanish(v, 0x1_0000_0000);
            }
        }
    }
}

/// Each replication of a leg posts as much on the credit side as on the
/// debit side, provided no step of its chain leaves the `i32` range.
pub proof fn lemma_leg_balanced(t: ExprTrans, d: Seq<char>, c: Seq<char>, r: Seq<char>)
    requires
        chain_in_range(t.price_credit_chain@, t.price_debit.0 as int),
    ensures
        amount_sum(leg_debits(t, d, c)) == amount_sum(leg_credits(t, c, r)),
{
    let chain = t.price_credit_chain@;
    let bal = t.price_debit.0 as int;
    let cbd = t.cash_backs@.map_values(|p: Price| (c, p.0 as int));
    let cbc = t.cash_backs@.map_values(|p: Price| (r, p.0 as int));
    lemma_sum_names(t.cash_backs@, c, r);
    let main_d: Seq<(Seq<char>, int)> = if !t.spec_is_cashback_only() { seq![(d, bal)] } else { Seq::empty() };
    let main_c: Seq<(Seq<char>, int)> = if !t.spec_is_cashback_only() {
        chain_credits(chain, bal, r) + seq![(c, balance_at(chain, bal, chain.len() as int))]
    } else {
        Seq::empty()
    };
    lemma_sum_concat(main_d, cbd);
    lemma_sum_concat(main_c, cbc);
    if !t.spec_is_cashback_only() {
        lemma_chain_telescopes(chain, bal, r, chain.len() as int);
        lemma_sum_concat(chain_credits(chain, bal, r), seq![(c, balance_at(chain, bal, chain.len() as int))]);
        assert(amount_sum(seq![(d, bal)]) == bal) by {
            assert(seq![(d, bal)].drop_last() =~= Seq::<(Seq<char>, int)>::empty());
            assert(amount_sum(Seq::<(Seq<char>, int)>::empty()) == 0);
            assert(seq![(d, bal)].last() == (d, bal));
        }
        assert(amount_sum(seq![(c, balance_at(chain, bal, chain.len() as int))]) == balance_at(chain, bal, chain.len() as int)) by {
            assert(seq![(c, balance_at(chain, bal, chain.len() as int))].drop_last() =~= Seq::<(Seq<char>, int)>::empty());
            assert(amount_sum(Seq::<(Seq<char>, int)>::empty()) == 0);
        }
    }
    assert(leg_debits(t, d, c) == main_d + cbd);
    assert(leg_credits(t, c, r) == main_c + cbc);
}

} // verus!
