use hyoubkp::datagen::{DataGenDispatch, DataGenImpl, DataGenImplStr, DataGenKind};
use hyoubkp::date::Date;
use hyoubkp::dispatch::{TokenMapperDispatch, TokenMapperKind};
use hyoubkp::error::Error;
use hyoubkp::executor::{Executor, ExecutorDate};
use hyoubkp::expr::{ExprCreditPrice, ExprTrans};
use hyoubkp::many::Many;
use hyoubkp::parser::Parser;
use hyoubkp::price::Price;
use hyoubkp::rule::{
    expand_check_list, import_entry, CookedRule, CookedRuleEntryAccCheckTarget, UserRule,
    UserRuleRuleEntry, UserRuleSide,
};
use hyoubkp::tokmap::TokenMapperOption;
use hyoubkp::transaction::{Amount, TransactionFactory};
use hyoubkp::trie::{NodeKind, Trie};

fn s(x: &str) -> String {
    x.to_string()
}

fn strings(xs: &[&str]) -> Vec<String> {
    xs.iter().map(|x| x.to_string()).collect()
}

fn entry() -> UserRuleRuleEntry {
    UserRuleRuleEntry {
        token: vec![],
        side: None,
        hint: vec![],
        opposite: vec![],
        debit: vec![],
        credit: vec![],
        account: None,
        import: vec![],
    }
}

#[test]
fn price_parse_forms() {
    assert_eq!(Price::parse("20").unwrap().as_raw(), 2000);
    assert_eq!(Price::parse("6.2").unwrap().as_raw(), 620);
    assert_eq!(Price::parse("20.00").unwrap().as_raw(), 2000);
    assert_eq!(Price::parse("20.05").unwrap().as_raw(), 2005);
    assert_eq!(Price::parse("20.").unwrap().as_raw(), 2000);
    assert_eq!(Price::parse("+5").unwrap().as_raw(), 500);
}

#[test]
fn price_parse_errors() {
    assert!(Price::parse("1.234").is_err());
    assert!(Price::parse("1.2.3").is_err());
    assert!(Price::parse("abc").is_err());
    assert!(Price::parse(".5").is_err());
    assert!(Price::parse("").is_err());
    assert!(Price::parse("99999999").is_err());
}

#[test]
fn price_render_and_parts() {
    assert_eq!(Price(2000).render(), "20.00");
    assert_eq!(Price(620).render(), "6.20");
    assert_eq!(Price(-150).render(), "-1.50");
    assert_eq!(Price(-50).render(), "0.50");
    assert_eq!(Price(-150).integer_part(), -1);
    assert_eq!(Price(-150).fractional_part(), 50);
    assert_eq!(Price::new_unchecked(3, 7).as_raw(), 307);
    assert_eq!(Price(2000).sub(Price(500)), Price(1500));
}

#[test]
fn price_round_trip_canonical() {
    for lit in ["20.00", "0.05", "123.45", "7.90"] {
        assert_eq!(Price::parse(lit).unwrap().render(), lit);
    }
}

fn leg(debit: i32, chain: Vec<ExprCreditPrice>, cash_backs: Vec<Price>) -> ExprTrans {
    ExprTrans {
        shares: None,
        price_debit: Price(debit),
        price_credit_chain: chain,
        cash_backs,
        multiple: 1,
    }
}

#[test]
fn leg_validity_follows_running_balance() {
    assert!(leg(2000, vec![ExprCreditPrice::Reward(Price(500))], vec![]).is_valid());
    assert!(!leg(2000, vec![ExprCreditPrice::Reward(Price(3000))], vec![]).is_valid());
    assert!(!leg(
        2000,
        vec![ExprCreditPrice::Credit(Price(1500)), ExprCreditPrice::Reward(Price(2000))],
        vec![]
    )
    .is_valid());
    assert!(!leg(0, vec![], vec![]).is_valid());
    assert!(leg(0, vec![], vec![Price(100)]).is_valid());
    assert!(leg(0, vec![], vec![Price(100)]).is_cashback_only());
    assert!(ExprTrans::default().is_empty());
}

#[test]
fn multiple_replicates_leg() {
    let mut executor = Executor::new(TokenMapperKind::Example);
    let t = executor.parse_expr("工行农行 10x3").unwrap();
    assert_eq!(t.debit_entries.len(), 3);
    assert_eq!(t.credit_entries.len(), 3);
    assert!(!t.has_build_error);
    let t = executor.parse_expr("工行农行 10-2x2").unwrap();
    assert_eq!(t.debit_entries.len(), 2);
    assert_eq!(t.credit_entries.len(), 4);
}

#[test]
fn cashback_posts_both_sides() {
    let mut executor = Executor::new(TokenMapperKind::Example);
    let t = executor.parse_expr("工行农行 20+3").unwrap();
    assert_eq!(
        t.body_string(),
        "Transaction desc: \n\
         资产:银行:ABC 农业银行 debit 20.00\n\
         资产:银行:ICBC 工商银行 debit 3.00\n\
         资产:银行:ICBC 工商银行 credit 20.00\n\
         收入:优惠券变现 credit 3.00\n"
    );
}

#[test]
fn unchecked_hint_marks_transaction() {
    let mut executor = Executor::new(TokenMapperKind::Example);
    let t = executor.parse_expr("工行农行利息 20").unwrap();
    assert!(t.has_build_error);
    assert_eq!(t.credit_entries.len(), 2);
    let t = executor.parse_expr("工行农行利息 20-1").unwrap();
    assert!(!t.has_build_error);
}

#[test]
fn comment_becomes_description() {
    let mut executor = Executor::new(TokenMapperKind::Example);
    let t = executor.parse_expr("工行农行 20 'lunch").unwrap();
    assert_eq!(t.description, Some(s("lunch")));
    assert!(!t.has_build_error);
    let t = executor.parse_expr("工行农行 20'lunch").unwrap();
    assert!(t.has_build_error);
    assert_eq!(t.description, Some(s("lunch FIXME:[工行农行 20'lunch]")));
}

#[test]
fn parse_errors_carry_position() {
    let mut executor = Executor::new(TokenMapperKind::Example);
    let e = executor.parse_expr("工行农行 20/2").err().unwrap();
    assert_eq!(e.ch, '/');
    let e = executor.parse_expr("xyz").err().unwrap();
    assert_eq!(e.ch, 'x');
    assert_eq!(e.pos, 0);
    let e = executor.parse_expr("").err().unwrap();
    assert_eq!(e.ch, '\0');
    let e = executor.parse_expr("工行农行 20x2x3").err().unwrap();
    assert_eq!(e.ch, 'x');
    assert_eq!(e.pos, 17);
}

#[test]
fn directives_set_date_and_base() {
    let mut executor = Executor::new(TokenMapperKind::Example);
    executor.parse_directive(".date 2024-05-06").unwrap();
    executor.parse_directive(".num 7").unwrap();
    assert!(executor.parse_directive(".num x").is_err());
    let t = executor.parse_expr("工行农行 20").unwrap();
    assert_eq!(t.date, Date(2024, 5, 6));
    assert_eq!(t.num_base, 7);
    assert_eq!(
        t.to_text(),
        "Expression: 工行农行 20\n\
         Date: 2024-05-06, num base: 7\n\
         Transaction desc: \n\
         资产:银行:ABC 农业银行 debit 20.00\n\
         资产:银行:ICBC 工商银行 credit 20.00\n"
    );
    executor.enable_realtime_date();
    assert!(matches!(executor.date, ExecutorDate::Realtime));
    assert_eq!(executor.get_tokmap_version(), "0.1.0");
}

#[test]
fn date_parse_and_render() {
    assert_eq!(Date::parse("2024-05-06"), Date(2024, 5, 6));
    assert_eq!(Date::parse("2024-xx-06"), Date(2024, 0, 6));
    assert_eq!(Date::parse("today"), Date(1970, 1, 1));
    assert_eq!(Date(7, 3, 4).render(), "0007-03-04");
    let today = Date::today();
    assert!(today.1 >= 1 && today.1 <= 12);
}

#[test]
fn trie_finds_fed_tokens() {
    let mut t = Trie::new();
    let word: Vec<char> = "ab".chars().collect();
    t.feed(&word, NodeKind::AccountToken);
    let a = t.find(0, 'a').unwrap();
    let b = t.find(a, 'b').unwrap();
    assert_eq!(t.nodes[b].kind, NodeKind::AccountToken);
    assert_eq!(t.nodes[a].kind, NodeKind::Staging);
    assert!(t.find(0, 'b').is_none());
}

#[test]
fn parser_files_accounts_and_hints() {
    let mut p = Parser::new(&strings(&["工行", "农行"]), &strings(&["还款"]));
    let ce = p.parse_expr("工行还款农行 20").unwrap();
    assert_eq!(ce.exprs.len(), 1);
    assert_eq!(ce.exprs[0].accounts, strings(&["工行", "农行"]));
    assert_eq!(ce.exprs[0].hints, strings(&["还款"]));
    assert_eq!(ce.exprs[0].trans[0].price_debit, Price(2000));
}

#[test]
fn weak_account_carries_over() {
    let mut p = Parser::new(&strings(&["工行", "农行", "中行"]), &strings(&[]));
    let ce = p.parse_expr("工行农行 10，中行 5").unwrap();
    assert_eq!(ce.exprs.len(), 2);
    assert_eq!(ce.exprs[1].accounts, strings(&["农行", "中行"]));
}

#[test]
fn import_overrides_and_substitutes() {
    let mut imp = entry();
    imp.token = strings(&["工行"]);
    imp.import = strings(&["main", "X", "Y"]);
    let mut e = entry();
    e.token = strings(&["other"]);
    e.account = Some(s("$1"));
    e.hint = strings(&["$2", "plain"]);
    e.debit = strings(&["$1"]);
    e.side = Some(UserRuleSide::Debit);
    let args = strings(&["X", "Y"]);
    let r = import_entry(&imp, &e, &args);
    assert_eq!(r.token, strings(&["工行"]));
    assert_eq!(r.account, Some(s("X")));
    assert_eq!(r.hint, strings(&["Y", "plain"]));
    assert_eq!(r.debit, strings(&["X"]));
    assert_eq!(r.side, Some(UserRuleSide::Debit));
}

fn sample_rule() -> UserRule {
    let mut bank = entry();
    bank.token = strings(&["工行"]);
    bank.account = Some(s("资产:银行:ICBC 工商银行"));
    let mut tpl = entry();
    tpl.token = strings(&["农行"]);
    tpl.account = Some(s("$1"));
    tpl.opposite = strings(&["#bank"]);
    let mut use_tpl = entry();
    use_tpl.import = strings(&["tpl", "资产:银行:ABC 农业银行"]);
    let mut reward = entry();
    reward.account = Some(s("收入:返现"));
    reward.hint = strings(&["返现"]);
    UserRule {
        fallback: s("不平衡的-CNY"),
        hints: strings(&["返现"]),
        tags: vec![(s("工行"), strings(&["bank"]))],
        ruleset: vec![
            (s("main"), vec![bank, use_tpl]),
            (s("tpl"), vec![tpl]),
            (s("reward"), vec![reward]),
        ],
    }
}

#[test]
fn rule_document_compiles() {
    let c = CookedRule::from_user_rule(sample_rule()).unwrap();
    assert_eq!(c.fallback, "不平衡的-CNY");
    assert_eq!(c.tags, vec![(s("bank"), strings(&["工行"]))]);
    assert_eq!(c.ruleset_main.len(), 2);
    assert_eq!(c.ruleset_main[1].0, "农行");
    let e = &c.ruleset_main[1].1[0];
    assert_eq!(e.account, "资产:银行:ABC 农业银行");
    assert_eq!(e.acc_check_target, CookedRuleEntryAccCheckTarget::Opposite);
    assert_eq!(e.acc_check_list, strings(&["工行"]));
    assert_eq!(c.ruleset_reward.len(), 1);
    assert!(c.accounts.contains(&s("工行")));
    assert!(c.accounts.contains(&s("农行")));
}

#[test]
fn tag_expansion_exact_and_undeclared_fails() {
    let tags = vec![(s("food"), strings(&["a", "b"])), (s("drink"), strings(&["c"]))];
    assert_eq!(
        expand_check_list(&tags, &strings(&["#food", "x", "a"])).unwrap(),
        strings(&["a", "b", "x"])
    );
    assert!(expand_check_list(&tags, &strings(&["#snack"])).is_err());
    let mut rule = sample_rule();
    rule.ruleset[1].1[0].opposite = strings(&["#nosuch"]);
    assert!(CookedRule::from_user_rule(rule).is_err());
}

#[test]
fn rule_load_errors() {
    let mut rule = sample_rule();
    rule.ruleset[0].1[0].debit = strings(&["a"]);
    rule.ruleset[0].1[0].credit = strings(&["b"]);
    assert!(CookedRule::from_user_rule(rule).is_err());
    let mut rule = sample_rule();
    rule.ruleset[0].1[0].account = None;
    assert!(CookedRule::from_user_rule(rule).is_err());
    let mut rule = sample_rule();
    rule.ruleset.pop();
    assert!(CookedRule::from_user_rule(rule).is_err());
    let mut rule = sample_rule();
    let mut cyc = entry();
    cyc.import = strings(&["main"]);
    rule.ruleset[0].1.push(cyc);
    assert!(CookedRule::from_user_rule(rule).is_err());
}

#[test]
fn rule_mapper_resolves_expression() {
    let cooked = CookedRule::from_user_rule(sample_rule()).unwrap();
    let mut executor = Executor::new(TokenMapperKind::Rule(cooked));
    assert_eq!(
        executor.parse_expr("工行农行返现 20-5").unwrap().body_string(),
        "Transaction desc: \n\
         资产:银行:ABC 农业银行 debit 20.00\n\
         收入:返现 credit 5.00\n\
         资产:银行:ICBC 工商银行 credit 15.00\n"
    );
    let t = executor.parse_expr("农行 20").unwrap();
    assert!(t.has_build_error);
}

#[test]
fn mapper_kinds_and_options() {
    assert_eq!(TokenMapperKind::Example.as_str(), "example");
    assert_eq!(
        TokenMapperKind::generate_option_supported_tokmap_names(TokenMapperOption::RuleFile),
        vec!["rule"]
    );
    assert!(TokenMapperOption::RuleFile.description().starts_with("rule-file"));
    assert!(matches!(
        TokenMapperDispatch::new(TokenMapperKind::Example),
        TokenMapperDispatch::Example(_)
    ));
}

#[test]
fn many_values() {
    let m: Many<i32> = Many::Many(vec![1, 2]);
    assert!(!m.is_empty());
    assert_eq!(m.iter(), vec![&1, &2]);
    assert_eq!(Many::One(3).into_vec(), vec![3]);
    assert!(Many::<i32>::NoOne.is_empty());
}

#[test]
fn error_message_has_label() {
    assert_eq!(Error::new(None, "x").message, "Hyoubkp error: x");
    assert_eq!(Error::new(Some("io"), "y").message, "io: y");
}

#[test]
fn generators_render_transactions() {
    let mut executor = Executor::new(TokenMapperKind::Example);
    executor.parse_directive(".date 2024-01-02").unwrap();
    let t = executor.parse_expr("工行农行 20").unwrap();
    let text = DataGenImplStr.gen_to_string(&[t], 0);
    assert!(text.ends_with("资产:银行:ICBC 工商银行 credit 20.00\n\n"));
    let t = executor.parse_expr("工行农行 20").unwrap();
    let rows = DataGenImpl::new().rows(&t, &s("id"), 3);
    assert_eq!(rows.len(), 2);
    assert_eq!(rows[0].amount_num, "-20.00");
    assert_eq!(rows[0].full_account_name, "资产:银行:ICBC 工商银行");
    assert_eq!(rows[1].value_num, "20.00");
    assert_eq!(rows[1].date, "2024-01-02");
    assert_eq!(rows[1].description, " ");
    assert_eq!(DataGenImpl::amount_to_amount(&Amount::Price(Price(150))), "1.50");
    assert!(matches!(DataGenDispatch::new(DataGenKind::Str), DataGenDispatch::Str(_)));
}

#[test]
fn credit_and_reward_steps_may_alternate() {
    let mut executor = Executor::new(TokenMapperKind::Example);
    assert_eq!(
        executor.parse_expr("工行农行 20-1@15-2").unwrap().body_string(),
        "Transaction desc: \n\
         资产:银行:ABC 农业银行 debit 20.00\n\
         收入:优惠券变现 credit 1.00\n\
         收入:优惠券变现 credit 4.00\n\
         收入:优惠券变现 credit 2.00\n\
         资产:银行:ICBC 工商银行 credit 13.00\n"
    );
}

#[test]
fn cashback_closes_other_sub_states() {
    let mut executor = Executor::new(TokenMapperKind::Example);
    let e = executor.parse_expr("工行农行 20+1x3").err().unwrap();
    assert_eq!(e.ch, 'x');
    let t = executor.parse_expr("工行农行 20+1-2").unwrap();
    assert_eq!(t.debit_entries.len(), 2);
    assert_eq!(t.credit_entries.len(), 3);
}

#[test]
fn tabs_separate_like_spaces() {
    let mut p = Parser::new(&strings(&["工行", "农行"]), &strings(&[]));
    let ce = p.parse_expr("工行\t农行\t20").unwrap();
    assert_eq!(ce.exprs.len(), 1);
    assert_eq!(ce.exprs[0].accounts, strings(&["工行", "农行"]));
    let e = p.parse_expr("工行农行 1.234").err().unwrap();
    assert_eq!(e.ch, '\0');
}

#[test]
fn factory_checks_against_the_other_side() {
    let mut f = TransactionFactory::new();
    f.credit_tok = Some(s("工行"));
    f.debit_tok = Some(s("农行"));
    f.hint_keys = strings(&["还款"]);
    f.hint_used = vec![false];
    assert!(f.is_credit());
    assert!(f.check_opposite(&strings(&["农行"])));
    assert!(!f.check_opposite(&strings(&["工行"])));
    f.credit_account = Some(s("a"));
    assert!(f.is_debit());
    assert!(f.check_opposite(&strings(&["工行"])));
    f.debit_account = Some(s("b"));
    assert!(!f.check_opposite(&strings(&["工行", "农行"])));
    assert!(f.check_hint(&s("还款")));
    assert!(f.hint_used[0]);
    assert!(!f.check_hint(&s("利息")));
    f.remove_hint(&s("还款"));
    assert!(f.hint_keys.is_empty());
}

#[test]
fn legs_post_equal_totals() {
    let mut executor = Executor::new(TokenMapperKind::Example);
    let t = executor.parse_expr("工行农行 20-1@15-2 7x2+2").unwrap();
    let total = |es: &Vec<hyoubkp::transaction::Entry>| -> i64 {
        es.iter().map(|e| match e.amount { Amount::Price(p) => p.as_raw() as i64 }).sum()
    };
    assert_eq!(total(&t.debit_entries), total(&t.credit_entries));
    assert_eq!(total(&t.debit_entries), 2000 + 2 * (700 + 200));
}

#[test]
fn unchecked_hint_appends_fallback_even_when_marked() {
    let mut executor = Executor::new(TokenMapperKind::Example);
    let t = executor.parse_expr("工行邮储利息 20").unwrap();
    assert!(t.has_build_error);
    assert_eq!(
        t.body_string(),
        "Transaction desc:  FIXME:[工行邮储利息 20]\n\
         不平衡的-CNY debit 20.00\n\
         资产:银行:ICBC 工商银行 credit 20.00\n\
         不平衡的-CNY credit 0.00\n"
    );
}

#[test]
fn trie_keeps_other_tokens() {
    let mut t = Trie::new();
    let ab: Vec<char> = "ab".chars().collect();
    let a: Vec<char> = "a".chars().collect();
    t.feed(&ab, NodeKind::AccountToken);
    t.feed(&a, NodeKind::HintToken);
    let na = t.find(0, 'a').unwrap();
    let nb = t.find(na, 'b').unwrap();
    assert_eq!(t.nodes[na].kind, NodeKind::HintToken);
    assert_eq!(t.nodes[nb].kind, NodeKind::AccountToken);
    assert_eq!(t.nodes[0].next.len(), 1);
}

#[test]
fn remove_hint_keeps_the_others() {
    let mut f = TransactionFactory::new();
    f.hint_keys = strings(&["a", "b", "a", "c"]);
    f.hint_used = vec![false, true, true, false];
    f.remove_hint(&s("a"));
    assert_eq!(f.hint_keys, strings(&["b", "c"]));
    assert_eq!(f.hint_used, vec![true, false]);
}
