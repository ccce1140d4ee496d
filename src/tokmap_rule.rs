//! A token mapper driven by a compiled rule document.

use vstd::prelude::*;
use crate::rule::{
    CookedRule, CookedRuleEntry, CookedRuleEntryAccCheckTarget, CookedV, UserRuleSide, cooked_seq, copy_strings,
    groups_v, views,
};
use crate::tokmap::{TokenMapper, TokenMapperOption};
use crate::transaction::{ResolveCtx, TransactionFactory, hints_checked, lemma_hints_checked_trans};

verus! {

/// Mapper that resolves tokens by the first matching rule entry.
#[derive(Debug)]
pub struct TokenMapperImpl {
    pub rule: CookedRule,
}

/// The entry's side filter admits the side being resolved.
pub open spec fn side_ok(ctx: ResolveCtx, side: Option<UserRuleSide>) -> bool {
    match side {
        None => true,
        Some(UserRuleSide::Debit) => ctx.is_debit(),
        Some(UserRuleSide::Credit) => ctx.is_credit(),
    }
}

/// The entry's account check holds.
pub open spec fn target_ok(ctx: ResolveCtx, t: CookedRuleEntryAccCheckTarget, list: Seq<Seq<char>>) -> bool {
    match t {
        CookedRuleEntryAccCheckTarget::NoOne => true,
        CookedRuleEntryAccCheckTarget::Debit => ctx.check_debit(list),
        CookedRuleEntryAccCheckTarget::Credit => ctx.check_credit(list),
        CookedRuleEntryAccCheckTarget::Opposite => ctx.check_opposite(list),
    }
}

/// Every required hint is declared.
pub open spec fn hints_ok(ctx: ResolveCtx, hints: Seq<Seq<char>>) -> bool {
    forall|i: int| 0 <= i < hints.len() ==> ctx.hints.contains(#[trigger] hints[i])
}

pub open spec fn entry_matches(ctx: ResolveCtx, c: CookedV) -> bool {
    side_ok(ctx, c.side) && target_ok(ctx, c.target, c.list) && hints_ok(ctx, c.hints)
}

/// The account of the first entry of `es` that matches in `ctx`.
pub open spec fn first_match(ctx: ResolveCtx, es: Seq<CookedV>) -> Option<Seq<char>>
    decreases es.len(),
{
    if es.len() == 0 {
        None
    } else if entry_matches(ctx, es[0]) {
        Some(es[0].account)
    } else {
        first_match(ctx, es.drop_first())
    }
}

/// The hints of `hs` checked in order until the first one not declared,
/// that one included.
pub open spec fn hints_tried(ctx: ResolveCtx, hs: Seq<Seq<char>>) -> Set<Seq<char>>
    decreases hs.len(),
{
    if hs.len() == 0 {
        Set::empty()
    } else if ctx.hints.contains(hs[0]) {
        set![hs[0]].union(hints_tried(ctx, hs.drop_first()))
    } else {
        set![hs[0]]
    }
}

/// The hints checked while looking for the first matching entry of `es`:
/// entries are tried in order; an entry whose side filter and account
/// check hold has its hints checked, up to the first missing one, even
/// when it then does not match.
pub open spec fn rules_checked(ctx: ResolveCtx, es: Seq<CookedV>) -> Set<Seq<char>>
    decreases es.len(),
{
    if es.len() == 0 {
        Set::empty()
    } else {
        let c0 = if side_ok(ctx, es[0].side) && target_ok(ctx, es[0].target, es[0].list) {
            hints_tried(ctx, es[0].hints)
        } else {
            Set::empty()
        };
        if entry_matches(ctx, es[0]) { c0 } else { c0.union(rules_checked(ctx, es.drop_first())) }
    }
}

/// The entries of the first group keyed `tok`.
pub open spec fn lookup_group(groups: Seq<(Seq<char>, Seq<CookedV>)>, tok: Seq<char>) -> Option<Seq<CookedV>>
    decreases groups.len(),
{
    if groups.len() == 0 {
        None
    } else if groups[0].0 == tok {
        Some(groups[0].1)
    } else {
        lookup_group(groups.drop_first(), tok)
    }
}

impl TokenMapperImpl {
    pub fn new(rule: CookedRule) -> (r: TokenMapperImpl)
        ensures
            r.rule == rule,
    {
        TokenMapperImpl { rule }
    }

    /// This mapper takes the rule file option.
    pub fn supports(opt: TokenMapperOption) -> (r: bool)
        ensures
            r == (opt == TokenMapperOption::RuleFile),
    {
        match opt {
            TokenMapperOption::RuleFile => true,
        }
    }

    /// Sets the account of the first entry of `rules` that matches; hints
    /// are checked, and so consumed, in order until one is missing.
    fn check_rules(&self, fac: &mut TransactionFactory, rules: &Vec<CookedRuleEntry>) -> (r: bool)
        requires
            old(fac).wf(),
        ensures
            final(fac).wf(),
            crate::tokmap::mapper_frame(*old(fac), *final(fac)),
            hints_checked(*old(fac), *final(fac), rules_checked(old(fac).ctx(), cooked_seq(rules@))),
            r == first_match(old(fac).ctx(), cooked_seq(rules@)) is Some,
            r ==> crate::transaction::opt_view(final(fac).current_account) == first_match(old(fac).ctx(), cooked_seq(rules@)),
            !r ==> final(fac).current_account == old(fac).current_account,
    {
        let ghost ctx = fac.ctx();
        let ghost es = cooked_seq(rules@);
        let mut i: usize = 0;
        let ghost mut acc: Set<Seq<char>> = Set::empty();
        assert(es.skip(0) == es);
        assert(rules_checked(ctx, es) =~= acc.union(rules_checked(ctx, es.skip(0))));
        while i < rules.len()
            invariant
                hints_checked(*old(fac), *fac, acc),
                rules_checked(ctx, es) == acc.union(rules_checked(ctx, es.skip(i as int))),
                fac.wf(),
                crate::tokmap::mapper_frame(*old(fac), *fac),
                fac.current_account == old(fac).current_account,
                fac.ctx() == ctx,
                ctx == old(fac).ctx(),
                es == cooked_seq(rules@),
                i <= rules@.len(),
                first_match(ctx, es) == first_match(ctx, es.skip(i as int)),
            decreases rules@.len() - i,
        {
            let rule = &rules[i];
            let ghost c = es[i as int];
            proof {
                assert(es.skip(i as int)[0] == c);
                assert(es.skip(i as int).drop_first() == es.skip(i + 1));
            }
            let ghost start = *fac;
            let ghost mut c0: Set<Seq<char>> = Set::empty();
            let side_matches = match rule.side {
                None => true,
                Some(UserRuleSide::Debit) => fac.is_debit(),
                Some(UserRuleSide::Credit) => fac.is_credit(),
            };
            if side_matches {
                let target_matches = match rule.acc_check_target {
                    CookedRuleEntryAccCheckTarget::NoOne => true,
                    CookedRuleEntryAccCheckTarget::Debit => fac.check_debit(&rule.acc_check_list),
                    CookedRuleEntryAccCheckTarget::Credit => fac.check_credit(&rule.acc_check_list),
                    CookedRuleEntryAccCheckTarget::Opposite => fac.check_opposite(&rule.acc_check_list),
                };
                if target_matches {
                    let ghost hs = views(rule.hint_check_list@);
                    let ghost mut pre: Set<Seq<char>> = Set::empty();
                    let mut all = true;
                    let mut j: usize = 0;
                    assert(hs.skip(0) == hs);
                    assert(hints_tried(ctx, hs) =~= pre.union(hints_tried(ctx, hs.skip(0))));
                    while all && j < rule.hint_check_list.len()
                        invariant
                            hints_checked(start, *fac, pre),
                            all ==> hints_tried(ctx, hs) == pre.union(hints_tried(ctx, hs.skip(j as int))),
                            !all ==> hints_tried(ctx, hs) == pre,
                            start.wf(),
                            fac.wf(),
                            crate::tokmap::mapper_frame(*old(fac), *fac),
                            fac.current_account == old(fac).current_account,
                            fac.ctx() == ctx,
                            j <= rule.hint_check_list@.len(),
                            hs == views(rule.hint_check_list@),
                            all == forall|k: int| 0 <= k < j ==> ctx.hints.contains(#[trigger] hs[k]),
                        decreases rule.hint_check_list@.len() - j,
                    {
                        let ghost before = *fac;
                        let ok = fac.check_hint(&rule.hint_check_list[j]);
                        proof {
                            crate::transaction::lemma_hints_grow_trans(*old(fac), before, *fac);
                            lemma_hints_checked_trans(start, before, *fac, pre, set![hs[j as int]]);
                            assert(hs.skip(j as int)[0] == hs[j as int]);
                            assert(hs.skip(j as int).drop_first() == hs.skip(j + 1));
                        }
                        assert(fac.ctx() == ctx);
                        if !ok {
                            assert(!ctx.hints.contains(hs[j as int]));
                            all = false;
                            proof {
                                assert(hints_tried(ctx, hs) =~= pre.union(set![hs[j as int]]));
                            }
                        } else {
                            proof {
                                assert(hints_tried(ctx, hs) =~= pre.union(set![hs[j as int]]).union(hints_tried(ctx, hs.skip(j + 1))));
                            }
                        }
                        proof {
                            pre = pre.union(set![hs[j as int]]);
                        }
                        j = j + 1;
                    }
                    proof {
                        if all {
                            assert(hs.skip(j as int).len() == 0);
                            assert(hints_tried(ctx, hs) =~= pre);
                        }
                        c0 = hints_tried(ctx, hs);
                    }
                    if all {
                        assert(hints_ok(ctx, c.hints));
                        let ghost before = *fac;
                        fac.set_account(rule.account.clone());
                        proof {
                            lemma_hints_checked_trans(*old(fac), start, *fac, acc, c0);
                            assert(rules_checked(ctx, es.skip(i as int)) == c0);
                            assert(rules_checked(ctx, es) =~= acc.union(c0));
                        }
                        return true;
                    }
                }
            }
            proof {
                lemma_hints_checked_trans(*old(fac), start, *fac, acc, c0);
                assert(rules_checked(ctx, es.skip(i as int)) == c0.union(rules_checked(ctx, es.skip(i + 1))));
                assert(rules_checked(ctx, es) =~= acc.union(c0).union(rules_checked(ctx, es.skip(i + 1))));
                acc = acc.union(c0);
            }
            i = i + 1;
        }
        assert(es.skip(i as int).len() == 0);
        assert(rules_checked(ctx, es) =~= acc);
        false
    }
}

impl TokenMapper for TokenMapperImpl {
    open spec fn spec_fallback(&self) -> Seq<char> {
        self.rule.fallback@
    }

    open spec fn spec_account(&self, ctx: ResolveCtx, tok: Seq<char>) -> Option<Seq<char>> {
        match lookup_group(groups_v(self.rule.ruleset_main@), tok) {
            Some(es) => first_match(ctx, es),
            None => None,
        }
    }

    open spec fn spec_reward(&self, ctx: ResolveCtx) -> Option<Seq<char>> {
        match first_match(ctx, cooked_seq(self.rule.ruleset_reward@)) {
            Some(a) => Some(a),
            None => Some(self.rule.fallback@),
        }
    }

    fn is_option_supported(opt: TokenMapperOption) -> (r: bool) {
        Self::supports(opt)
    }

    open spec fn spec_account_hints(&self, ctx: ResolveCtx, tok: Seq<char>) -> Set<Seq<char>> {
        match lookup_group(groups_v(self.rule.ruleset_main@), tok) {
            Some(es) => rules_checked(ctx, es),
            None => Set::empty(),
        }
    }

    open spec fn spec_reward_hints(&self, ctx: ResolveCtx) -> Set<Seq<char>> {
        rules_checked(ctx, cooked_seq(self.rule.ruleset_reward@))
    }

    open spec fn spec_account_tokens(&self) -> Seq<Seq<char>> {
        views(self.rule.accounts@)
    }

    open spec fn spec_hint_tokens(&self) -> Seq<Seq<char>> {
        views(self.rule.hints@)
    }

    fn register_account_tokens(&self) -> (r: Vec<String>) {
        copy_strings(&self.rule.accounts)
    }

    fn register_hint_tokens(&self) -> (r: Vec<String>) {
        copy_strings(&self.rule.hints)
    }

    fn fallback_account(&self) -> (r: String) {
        self.rule.fallback.clone()
    }

    fn on_account(&self, fac: &mut TransactionFactory, account: &String) -> (r: bool) {
        let ghost g = groups_v(self.rule.ruleset_main@);
        let mut k: usize = 0;
        assert(g.skip(0) == g);
        while k < self.rule.ruleset_main.len()
            invariant
                k <= self.rule.ruleset_main@.len(),
                g == groups_v(self.rule.ruleset_main@),
                *fac == *old(fac),
                fac.wf(),
                lookup_group(g, account@) == lookup_group(g.skip(k as int), account@),
            decreases self.rule.ruleset_main@.len() - k,
        {
            assert(g.skip(k as int)[0] == g[k as int]);
            if self.rule.ruleset_main[k].0 == *account {
                return self.check_rules(fac, &self.rule.ruleset_main[k].1);
            }
            assert(g.skip(k as int).drop_first() == g.skip(k + 1));
            k = k + 1;
        }
        assert(g.skip(k as int).len() == 0);
        false
    }

    fn on_reward(&self, fac: &mut TransactionFactory) {
        if !self.check_rules(fac, &self.rule.ruleset_reward) {
            fac.set_account(self.rule.fallback.clone());
        }
    }
}

} // verus!
