//! The account-resolution capability that the transaction factory relies on.

use vstd::prelude::*;
use crate::transaction::{ResolveCtx, TransactionFactory, hints_checked, hints_grow, opt_view};

verus! {

/// A configuration option that a mapper may accept.
#[derive(Clone, Copy, Debug, PartialEq, Eq, Structural, Hash)]
pub enum TokenMapperOption {
    RuleFile,
}

impl TokenMapperOption {
    pub fn description(&self) -> (r: &'static str)
        ensures
            r@ == "rule-file=<file path> - specify rule files for tokmap"@,
    {
        match self {
            TokenMapperOption::RuleFile => "rule-file=<file path> - specify rule files for tokmap",
        }
    }
}

/// The factory fields that a mapper must leave alone: all but the scratch
/// account and the consumed flags of hints, which may only be set.
pub open spec fn mapper_frame(a: TransactionFactory, b: TransactionFactory) -> bool {
    &&& b.transaction == a.transaction
    &&& b.credit_tok == a.credit_tok
    &&& b.debit_tok == a.debit_tok
    &&& b.credit_account == a.credit_account
    &&& b.debit_account == a.debit_account
    &&& b.stale_unconsumed == a.stale_unconsumed
    &&& hints_grow(a, b)
}

/// Resolves tokens to canonical account names.
///
/// `spec_account` and `spec_reward` say what an implementation resolves in
/// a given factory context; the exec methods are held to them.
pub trait TokenMapper {
    spec fn spec_fallback(&self) -> Seq<char>;

    /// The account that `tok` resolves to in `ctx`, or `None`.
    spec fn spec_account(&self, ctx: ResolveCtx, tok: Seq<char>) -> Option<Seq<char>>;

    /// The account that a reward resolves to in `ctx`, or `None` for the
    /// fallback.
    spec fn spec_reward(&self, ctx: ResolveCtx) -> Option<Seq<char>>;

    /// The hints that resolving `tok` in `ctx` checks, and so consumes.
    spec fn spec_account_hints(&self, ctx: ResolveCtx, tok: Seq<char>) -> Set<Seq<char>>;

    /// The hints that resolving a reward in `ctx` checks, and so consumes.
    spec fn spec_reward_hints(&self, ctx: ResolveCtx) -> Set<Seq<char>>;

    fn is_option_supported(opt: TokenMapperOption) -> bool;

    /// The account tokens the parser should recognise.
    spec fn spec_account_tokens(&self) -> Seq<Seq<char>>;

    /// The hint tokens the parser should recognise.
    spec fn spec_hint_tokens(&self) -> Seq<Seq<char>>;

    fn register_account_tokens(&self) -> (r: Vec<String>)
        ensures
            r@.map_values(|t: String| t@) == self.spec_account_tokens(),
    ;

    fn register_hint_tokens(&self) -> (r: Vec<String>)
        ensures
            r@.map_values(|t: String| t@) == self.spec_hint_tokens(),
    ;

    fn fallback_account(&self) -> (r: String)
        ensures
            r@ == self.spec_fallback(),
    ;

    /// Resolves `account` for the side the factory is filling; on success
    /// the chosen name is left in the factory's scratch account.
    fn on_account(&self, fac: &mut TransactionFactory, account: &String) -> (r: bool)
        requires
            old(fac).wf(),
        ensures
            final(fac).wf(),
            mapper_frame(*old(fac), *final(fac)),
            hints_checked(*old(fac), *final(fac), self.spec_account_hints(old(fac).ctx(), account@)),
            r == (self.spec_account(old(fac).ctx(), account@) is Some),
            r ==> opt_view(final(fac).current_account) == self.spec_account(old(fac).ctx(), account@),
    ;

    /// Resolves the account of a reward, leaving it in the factory's
    /// scratch account, or leaving that empty.
    fn on_reward(&self, fac: &mut TransactionFactory)
        requires
            old(fac).wf(),
            old(fac).current_account is None,
        ensures
            final(fac).wf(),
            mapper_frame(*old(fac), *final(fac)),
            hints_checked(*old(fac), *final(fac), self.spec_reward_hints(old(fac).ctx())),
            opt_view(final(fac).current_account) == self.spec_reward(old(fac).ctx()),
    ;
}

} // verus!
