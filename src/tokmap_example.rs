//! A fixed token mapper for a handful of Chinese bank and expense tokens.

use vstd::prelude::*;
use crate::tokmap::{TokenMapper, TokenMapperOption};
use crate::transaction::{ResolveCtx, TransactionFactory};

verus! {

/// Built-in mapper: six bank tokens and two expense tokens.
#[derive(Debug)]
pub struct TokenMapperImpl {
    pub bank_account_tokens: Vec<String>,
    pub expense_account_tokens: Vec<String>,
}

pub open spec fn views(v: Seq<String>) -> Seq<Seq<char>> {
    v.map_values(|s: String| s@)
}

/// Resolution shared by the banks that issue both a savings account and a
/// credit card.
pub open spec fn bank_common_spec(
    ctx: ResolveCtx,
    banks: Seq<Seq<char>>,
    saving: Seq<char>,
    card: Seq<char>,
    bill: Seq<char>,
) -> Seq<char> {
    let a0 = card;
    let a1 = if ctx.is_credit() && (ctx.hints.contains("储蓄卡"@) || ctx.check_debit(banks)) {
        saving
    } else {
        a0
    };
    let a2 = if ctx.is_debit() && !ctx.hints.contains("还款"@) { saving } else { a1 };
    if ctx.is_debit() && ctx.hints.contains("还款"@) && !ctx.hints.contains("未出账单"@) {
        bill
    } else {
        a2
    }
}

/// A string vector holding the given literals.
fn strings(items: &[&str]) -> (r: Vec<String>)
    ensures
        r@.len() == items@.len(),
        forall|i: int| 0 <= i < items@.len() ==> #[trigger] r@[i]@ == items@[i]@,
{
    let mut r: Vec<String> = Vec::new();
    let mut i: usize = 0;
    while i < items.len()
        invariant
            i <= items@.len(),
            r@.len() == i,
            forall|j: int| 0 <= j < i ==> #[trigger] r@[j]@ == items@[j]@,
        decreases items@.len() - i,
    {
        r.push(String::from_str(items[i]));
        i = i + 1;
    }
    r
}

/// `s` when `cond` holds, else nothing.
pub open spec fn when(cond: bool, s: Set<Seq<char>>) -> Set<Seq<char>> {
    if cond { s } else { Set::empty() }
}

/// The hints that `bank_common` checks: the savings hint when resolving the
/// credit side; the repayment hint, and then the unbilled hint if the
/// repayment hint is declared, when resolving the debit side.
pub open spec fn bank_common_hints(ctx: ResolveCtx) -> Set<Seq<char>> {
    when(ctx.is_credit(), set!["储蓄卡"@]).union(when(
        ctx.is_debit(),
        set!["还款"@].union(when(ctx.hints.contains("还款"@), set!["未出账单"@])),
    ))
}

/// The tokens this mapper holds: six banks and two expenses.
pub open spec fn example_contents(m: TokenMapperImpl) -> bool {
    &&& views(m.bank_account_tokens@) == seq!["工行"@, "农行"@, "中行"@, "建行"@, "交行"@, "邮储"@]
    &&& views(m.expense_account_tokens@) == seq!["用餐"@, "杂项"@]
}

impl TokenMapperImpl {
    pub fn new() -> (r: TokenMapperImpl)
        ensures
            example_contents(r),
    {
        let r = TokenMapperImpl {
            bank_account_tokens: strings(&["工行", "农行", "中行", "建行", "交行", "邮储"]),
            expense_account_tokens: strings(&["用餐", "杂项"]),
        };
        assert(views(r.bank_account_tokens@) =~= seq!["工行"@, "农行"@, "中行"@, "建行"@, "交行"@, "邮储"@]);
        assert(views(r.expense_account_tokens@) =~= seq!["用餐"@, "杂项"@]);
        r
    }

    /// This mapper takes no options.
    pub fn supports(opt: TokenMapperOption) -> (r: bool)
        ensures
            !r,
    {
        false
    }

    fn bank_common(
        &self,
        fac: &mut TransactionFactory,
        saving_acc_name: &str,
        credit_card_name: &str,
        credit_card_bill_name: &str,
    )
        requires
            old(fac).wf(),
        ensures
            final(fac).wf(),
            crate::tokmap::mapper_frame(*old(fac), *final(fac)),
            crate::transaction::hints_checked(*old(fac), *final(fac), bank_common_hints(old(fac).ctx())),
            final(fac).current_account matches Some(a) && a@ == bank_common_spec(
                old(fac).ctx(),
                views(self.bank_account_tokens@),
                saving_acc_name@,
                credit_card_name@,
                credit_card_bill_name@,
            ),
    {
        let ghost ctx = fac.ctx();
        fac.set_account(String::from_str(credit_card_name));
        if fac.is_credit() {
            if fac.check_hint(&String::from_str("储蓄卡")) || fac.check_debit(&self.bank_account_tokens) {
                fac.set_account(String::from_str(saving_acc_name));
            }
        }
        assert(fac.ctx() == ctx);
        if fac.is_debit() && !fac.check_hint(&String::from_str("还款")) {
            fac.set_account(String::from_str(saving_acc_name));
        }
        assert(fac.ctx() == ctx);
        if fac.is_debit() && fac.check_hint(&String::from_str("还款")) && !fac.check_hint(
            &String::from_str("未出账单"),
        ) {
            fac.set_account(String::from_str(credit_card_bill_name));
        }
    }
}

impl TokenMapper for TokenMapperImpl {
    open spec fn spec_fallback(&self) -> Seq<char> {
        "不平衡的-CNY"@
    }

    open spec fn spec_account(&self, ctx: ResolveCtx, tok: Seq<char>) -> Option<Seq<char>> {
        if tok == "工行"@ {
            Some("资产:银行:ICBC 工商银行"@)
        } else if tok == "农行"@ {
            let a0 = "负债:信用卡:农行 6666"@;
            let a1 = if ctx.is_credit() && ctx.hints.contains("储蓄卡"@) { "资产:银行:ABC 农业银行"@ } else { a0 };
            Some(if ctx.is_debit() && !ctx.hints.contains("还款"@) { "资产:银行:ABC 农业银行"@ } else { a1 })
        } else if tok == "中行"@ {
            Some(bank_common_spec(ctx, views(self.bank_account_tokens@), "资产:银行:BOC 中国银行"@,
                "负债:信用卡:中行 1234"@, "负债:信用卡:中行 1234:已出账单"@))
        } else if tok == "建行"@ {
            Some(bank_common_spec(ctx, views(self.bank_account_tokens@), "资产:银行:CCB 建设银行"@,
                "负债:信用卡:建行 8888"@, "负债:信用卡:建行 8888:已出账单"@))
        } else if tok == "用餐"@ {
            Some("支出:用餐"@)
        } else if tok == "杂项"@ {
            Some("支出:杂项"@)
        } else {
            None
        }
    }

    open spec fn spec_reward(&self, ctx: ResolveCtx) -> Option<Seq<char>> {
        let a0 = "收入:优惠券变现"@;
        let a1 = if ctx.check_debit(seq!["用餐"@, "杂项"@]) { "收入:优惠或礼遇"@ } else { a0 };
        Some(if ctx.hints.contains("利息"@) { "收入:利息"@ } else { a1 })
    }

    open spec fn spec_account_hints(&self, ctx: ResolveCtx, tok: Seq<char>) -> Set<Seq<char>> {
        if tok == "工行"@ {
            Set::empty()
        } else if tok == "农行"@ {
            when(ctx.is_credit(), set!["储蓄卡"@]).union(when(ctx.is_debit(), set!["还款"@]))
        } else if tok == "中行"@ || tok == "建行"@ {
            bank_common_hints(ctx)
        } else {
            Set::empty()
        }
    }

    open spec fn spec_reward_hints(&self, ctx: ResolveCtx) -> Set<Seq<char>> {
        set!["利息"@]
    }

    open spec fn spec_account_tokens(&self) -> Seq<Seq<char>> {
        views(self.bank_account_tokens@) + views(self.expense_account_tokens@)
    }

    open spec fn spec_hint_tokens(&self) -> Seq<Seq<char>> {
        seq!["还款"@, "未出账单"@, "利息"@, "信用卡"@, "储蓄卡"@]
    }

    fn is_option_supported(opt: TokenMapperOption) -> (r: bool) {
        Self::supports(opt)
    }

    fn register_account_tokens(&self) -> (r: Vec<String>) {
        let mut v = crate::rule::copy_strings(&self.bank_account_tokens);
        let mut e = crate::rule::copy_strings(&self.expense_account_tokens);
        v.append(&mut e);
        assert(views(v@) =~= views(self.bank_account_tokens@) + views(self.expense_account_tokens@));
        v
    }

    fn register_hint_tokens(&self) -> (r: Vec<String>) {
        let r = strings(&["还款", "未出账单", "利息", "信用卡", "储蓄卡"]);
        assert(views(r@) =~= seq!["还款"@, "未出账单"@, "利息"@, "信用卡"@, "储蓄卡"@]);
        r
    }

    fn fallback_account(&self) -> (r: String) {
        String::from_str("不平衡的-CNY")
    }

    fn on_account(&self, fac: &mut TransactionFactory, account: &String) -> (r: bool) {
        let ghost ctx = fac.ctx();
        if *account == String::from_str("工行") {
            fac.set_account(String::from_str("资产:银行:ICBC 工商银行"));
        } else if *account == String::from_str("农行") {
            fac.set_account(String::from_str("负债:信用卡:农行 6666"));
            if fac.is_credit() && fac.check_hint(&String::from_str("储蓄卡")) {
                fac.set_account(String::from_str("资产:银行:ABC 农业银行"));
            }
            assert(fac.ctx() == ctx);
            if fac.is_debit() && !fac.check_hint(&String::from_str("还款")) {
                fac.set_account(String::from_str("资产:银行:ABC 农业银行"));
            }
        } else if *account == String::from_str("中行") {
            self.bank_common(fac, "资产:银行:BOC 中国银行", "负债:信用卡:中行 1234", "负债:信用卡:中行 1234:已出账单");
        } else if *account == String::from_str("建行") {
            self.bank_common(fac, "资产:银行:CCB 建设银行", "负债:信用卡:建行 8888", "负债:信用卡:建行 8888:已出账单");
        } else if *account == String::from_str("用餐") {
            fac.set_account(String::from_str("支出:用餐"));
        } else if *account == String::from_str("杂项") {
            fac.set_account(String::from_str("支出:杂项"));
        } else {
            return false;
        }
        true
    }

    fn on_reward(&self, fac: &mut TransactionFactory) {
        fac.set_account(String::from_str("收入:优惠券变现"));
        let expense = strings(&["用餐", "杂项"]);
        assert(views(expense@) == seq!["用餐"@, "杂项"@]);
        if fac.check_debit(&expense) {
            fac.set_account(String::from_str("收入:优惠或礼遇"));
        }
        if fac.check_hint(&String::from_str("利息")) {
            fac.set_account(String::from_str("收入:利息"));
        }
    }
}

} // verus!
