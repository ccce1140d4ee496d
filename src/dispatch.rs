//! Choice between the available token mappers.

use vstd::prelude::*;
use crate::rule::CookedRule;
use crate::tokmap::{TokenMapper, TokenMapperOption};
use crate::tokmap_example;
use crate::tokmap_rule;
use crate::transaction::{ResolveCtx, TransactionFactory};

verus! {

/// Which token mapper to use; the rule mapper carries its compiled rules.
#[derive(Debug)]
pub enum TokenMapperKind {
    Example,
    Rule(CookedRule),
}

impl TokenMapperKind {
    /// The mapper's name.
    pub fn as_str(&self) -> (r: &'static str)
        ensures
            self is Example ==> r@ == "example"@,
            self is Rule ==> r@ == "rule"@,
    {
        match self {
            TokenMapperKind::Example => "example",
            TokenMapperKind::Rule(_) => "rule",
        }
    }

    /// Names of the mappers that accept option `opt`.
    pub fn generate_option_supported_tokmap_names(opt: TokenMapperOption) -> (r: Vec<&'static str>)
        ensures
            r@.len() == 1,
            r@[0]@ == "rule"@,
    {
        let mut v: Vec<&'static str> = Vec::new();
        if tokmap_example::TokenMapperImpl::supports(opt) {
            v.push("example");
        }
        if tokmap_rule::TokenMapperImpl::supports(opt) {
            v.push("rule");
        }
        v
    }
}

/// One of the token mappers.
#[derive(Debug)]
pub enum TokenMapperDispatch {
    Example(tokmap_example::TokenMapperImpl),
    Rule(tokmap_rule::TokenMapperImpl),
}

impl TokenMapperDispatch {
    pub fn new(kind: TokenMapperKind) -> (r: TokenMapperDispatch)
        ensures
            kind is Example ==> (r matches TokenMapperDispatch::Example(m) && tokmap_example::example_contents(m)),
            kind matches TokenMapperKind::Rule(c) ==> r matches TokenMapperDispatch::Rule(m) && m.rule == c,
    {
        match kind {
            TokenMapperKind::Example => TokenMapperDispatch::Example(tokmap_example::TokenMapperImpl::new()),
            TokenMapperKind::Rule(rule) => TokenMapperDispatch::Rule(tokmap_rule::TokenMapperImpl::new(rule)),
        }
    }

    /// The version of the mapper.
    pub fn get_version(&self) -> (r: &'static str)
        ensures
            r@ == "0.1.0"@,
    {
        "0.1.0"
    }
}

impl TokenMapper for TokenMapperDispatch {
    open spec fn spec_fallback(&self) -> Seq<char> {
        match self {
            TokenMapperDispatch::Example(m) => m.spec_fallback(),
            TokenMapperDispatch::Rule(m) => m.spec_fallback(),
        }
    }

    open spec fn spec_account(&self, ctx: ResolveCtx, tok: Seq<char>) -> Option<Seq<char>> {
        match self {
            TokenMapperDispatch::Example(m) => m.spec_account(ctx, tok),
            TokenMapperDispatch::Rule(m) => m.spec_account(ctx, tok),
        }
    }

    open spec fn spec_reward(&self, ctx: ResolveCtx) -> Option<Seq<char>> {
        match self {
            TokenMapperDispatch::Example(m) => m.spec_reward(ctx),
            TokenMapperDispatch::Rule(m) => m.spec_reward(ctx),
        }
    }

    open spec fn spec_account_hints(&self, ctx: ResolveCtx, tok: Seq<char>) -> Set<Seq<char>> {
        match self {
            TokenMapperDispatch::Example(m) => m.spec_account_hints(ctx, tok),
            TokenMapperDispatch::Rule(m) => m.spec_account_hints(ctx, tok),
        }
    }

    open spec fn spec_reward_hints(&self, ctx: ResolveCtx) -> Set<Seq<char>> {
        match self {
            TokenMapperDispatch::Example(m) => m.spec_reward_hints(ctx),
            TokenMapperDispatch::Rule(m) => m.spec_reward_hints(ctx),
        }
    }

    open spec fn spec_account_tokens(&self) -> Seq<Seq<char>> {
        match self {
            TokenMapperDispatch::Example(m) => m.spec_account_tokens(),
            TokenMapperDispatch::Rule(m) => m.spec_account_tokens(),
        }
    }

    open spec fn spec_hint_tokens(&self) -> Seq<Seq<char>> {
        match self {
            TokenMapperDispatch::Example(m) => m.spec_hint_tokens(),
            TokenMapperDispatch::Rule(m) => m.spec_hint_tokens(),
        }
    }

    fn is_option_supported(opt: TokenMapperOption) -> (r: bool) {
        tokmap_example::TokenMapperImpl::is_option_supported(opt) || tokmap_rule::TokenMapperImpl::is_option_supported(
            opt,
        )
    }

    fn register_account_tokens(&self) -> (r: Vec<String>) {
        match self {
            TokenMapperDispatch::Example(m) => m.register_account_tokens(),
            TokenMapperDispatch::Rule(m) => m.register_account_tokens(),
        }
    }

    fn register_hint_tokens(&self) -> (r: Vec<String>) {
        match self {
            TokenMapperDispatch::Example(m) => m.register_hint_tokens(),
            TokenMapperDispatch::Rule(m) => m.register_hint_tokens(),
        }
    }

    fn fallback_account(&self) -> (r: String) {
        match self {
            TokenMapperDispatch::Example(m) => m.fallback_account(),
            TokenMapperDispatch::Rule(m) => m.fallback_account(),
        }
    }

    fn on_account(&self, fac: &mut TransactionFactory, account: &String) -> (r: bool) {
        match self {
            TokenMapperDispatch::Example(m) => m.on_account(fac, account),
            TokenMapperDispatch::Rule(m) => m.on_account(fac, account),
        }
    }

    fn on_reward(&self, fac: &mut TransactionFactory) {
        match self {
            TokenMapperDispatch::Example(m) => m.on_reward(fac),
            TokenMapperDispatch::Rule(m) => m.on_reward(fac),
        }
    }
}

} // verus!
