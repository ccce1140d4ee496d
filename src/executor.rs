//! Runs parser, mapper and factory over input lines; keeps the session's
//! directives.

use vstd::prelude::*;
use crate::date::{Date, date_value};
use crate::dispatch::{TokenMapperDispatch, TokenMapperKind};
use crate::error::Error;
use crate::expr::{CompoundExpr, Expr};
use crate::parser::{ParseError, Parser, prefix_of_any, scan_outcome, token_kind};
use crate::trie::{kind_at, walk};
use crate::text::{chars_of, parse_index, parse_int_in, string_of_range};
use crate::tokmap::TokenMapper;
use crate::transaction::{SideState, Transaction, TransactionFactory, entries_view, fold_exprs};

verus! {

/// The date that transactions get.
#[derive(Debug)]
pub enum ExecutorDate {
    Fixed(Date),
    /// The local date at the time each transaction is built.
    Realtime,
}

impl ExecutorDate {
    pub fn get_date(&self) -> (r: Date)
        ensures
            self matches ExecutorDate::Fixed(d) ==> r == d,
            self is Realtime ==> 1 <= r.1 <= 12 && 1 <= r.2 <= 31,
    {
        match self {
            ExecutorDate::Fixed(d) => *d,
            ExecutorDate::Realtime => Date::today(),
        }
    }
}

/// A session: a token mapper, the parser built from its tokens, the date
/// and the numbering base.
pub struct Executor {
    pub token_mapper: TokenMapperDispatch,
    pub parser: Parser,
    pub date: ExecutorDate,
    pub num_base: u32,
}

/// The sides before the first sub-expression of a line.
pub open spec fn no_sides() -> SideState {
    SideState { credit_tok: None, debit_tok: None, credit: None, debit: None }
}

/// The entries of `t` are those that the sub-expressions `es` yield; `t`
/// is marked exactly when a leg had an unresolved side, a declared hint was
/// never checked, or there would be no entries, and in the last two cases
/// one zero entry on the fallback account is appended.
pub open spec fn entries_match(m: TokenMapperDispatch, es: Seq<Expr>, t: Transaction) -> bool {
    let f = fold_exprs(&m, no_sides(), es);
    let empty = f.1.len() == 0 && f.2.len() == 0;
    &&& entries_view(t.debit_entries@) == f.1
    &&& entries_view(t.credit_entries@) == (if f.4 || empty { f.2.push((m.spec_fallback(), 0int)) } else { f.2 })
    &&& t.has_build_error == (f.3 || f.4 || empty)
}

/// The mapper's tokens are short enough, in total, for the parser's trie.
pub open spec fn tokens_fit(m: TokenMapperDispatch) -> bool {
    seq_len_sum(m.spec_account_tokens()) + seq_len_sum(m.spec_hint_tokens()) + 1 < usize::MAX
}

/// Sum of the lengths of the tokens.
pub open spec fn seq_len_sum(toks: Seq<Seq<char>>) -> int
    decreases toks.len(),
{
    if toks.len() == 0 {
        0
    } else {
        seq_len_sum(toks.drop_last()) + toks.last().len()
    }
}

proof fn lemma_len_sum_bound(toks: Seq<Seq<char>>)
    requires
        forall|i: int| 0 <= i < toks.len() ==> #[trigger] toks[i].len() <= 4,
    ensures
        0 <= seq_len_sum(toks) <= 4 * toks.len(),
    decreases toks.len(),
{
    if toks.len() > 0 {
        lemma_len_sum_bound(toks.drop_last());
    }
}

/// The example mapper's tokens fit the parser's trie.
proof fn lemma_example_fits(m: crate::tokmap_example::TokenMapperImpl)
    requires
        crate::tokmap_example::example_contents(m),
    ensures
        tokens_fit(TokenMapperDispatch::Example(m)),
{
    reveal_strlit("工行");
    reveal_strlit("农行");
    reveal_strlit("中行");
    reveal_strlit("建行");
    reveal_strlit("交行");
    reveal_strlit("邮储");
    reveal_strlit("用餐");
    reveal_strlit("杂项");
    reveal_strlit("还款");
    reveal_strlit("未出账单");
    reveal_strlit("利息");
    reveal_strlit("信用卡");
    reveal_strlit("储蓄卡");
    let d = TokenMapperDispatch::Example(m);
    let a = d.spec_account_tokens();
    let h = d.spec_hint_tokens();
    assert(a =~= seq!["工行"@, "农行"@, "中行"@, "建行"@, "交行"@, "邮储"@, "用餐"@, "杂项"@]);
    assert(h =~= seq!["还款"@, "未出账单"@, "利息"@, "信用卡"@, "储蓄卡"@]);
    lemma_len_sum_bound(a);
    lemma_len_sum_bound(h);
}

proof fn lemma_len_sums(v: Seq<String>)
    ensures
        crate::parser::total_token_len(v) == seq_len_sum(v.map_values(|t: String| t@)),
    decreases v.len(),
{
    if v.len() > 0 {
        lemma_len_sums(v.drop_last());
        assert(v.map_values(|t: String| t@).drop_last() == v.drop_last().map_values(|t: String| t@));
    }
}

/// A transaction's description: the comment, and for a marked
/// transaction ` FIXME:[<line>]` after it.
pub open spec fn described(comment: Option<String>, line: Seq<char>, marked: bool) -> Seq<char> {
    let c = match comment {
        Some(c) => c@,
        None => Seq::empty(),
    };
    if marked { c + " FIXME:["@ + line + "]"@ } else { c }
}

/// `s` begins with `p`.
pub open spec fn has_prefix(s: Seq<char>, p: Seq<char>) -> bool {
    p.len() <= s.len() && s.take(p.len() as int) == p
}

/// Whether `v` begins with the characters of `p`.
fn starts_with_chars(v: &Vec<char>, p: &Vec<char>) -> (r: bool)
    ensures
        r == has_prefix(v@, p@),
{
    if p.len() > v.len() {
        return false;
    }
    let mut i: usize = 0;
    while i < p.len()
        invariant
            p@.len() <= v@.len(),
            i <= p@.len(),
            forall|j: int| 0 <= j < i ==> v@[j] == p@[j],
        decreases p@.len() - i,
    {
        if v[i] != p[i] {
            assert(v@.take(p@.len() as int)[i as int] != p@[i as int]);
            return false;
        }
        i = i + 1;
    }
    assert(v@.take(p@.len() as int) =~= p@);
    true
}

impl Executor {
    pub open spec fn wf(&self) -> bool {
        self.parser.wf()
    }

    /// A session with the given mapper, dated today, numbering from 0.
    pub fn new(kind: TokenMapperKind) -> (r: Executor)
        ensures
            r.wf(),
            r.num_base == 0,
            r.date is Fixed,
            kind is Example ==> (r.token_mapper matches TokenMapperDispatch::Example(m)
                && crate::tokmap_example::example_contents(m)),
            kind is Example ==> tokens_fit(r.token_mapper),
            kind matches TokenMapperKind::Rule(c) ==> r.token_mapper matches TokenMapperDispatch::Rule(m) && m.rule == c,
            tokens_fit(r.token_mapper) ==> r.parser.account_tokens() == r.token_mapper.spec_account_tokens().to_set()
                && r.parser.hint_tokens() == r.token_mapper.spec_hint_tokens().to_set(),
            tokens_fit(r.token_mapper) ==> forall|w: Seq<char>| #[trigger] kind_at(r.parser.tree, w) == token_kind(
                r.token_mapper.spec_account_tokens().to_set(),
                r.token_mapper.spec_hint_tokens().to_set(),
                w,
            ),
            tokens_fit(r.token_mapper) ==> forall|w: Seq<char>| #[trigger] walk(r.parser.tree, w) is Some <==> (w.len() == 0
                || prefix_of_any(r.token_mapper.spec_account_tokens().to_set().union(r.token_mapper.spec_hint_tokens().to_set()), w)),
    {
        let token_mapper = TokenMapperDispatch::new(kind);
        let accounts = token_mapper.register_account_tokens();
        let hints = token_mapper.register_hint_tokens();
        let parser = Parser::new(&accounts, &hints);
        proof {
            lemma_len_sums(accounts@);
            lemma_len_sums(hints@);
            if token_mapper is Example {
                lemma_example_fits(token_mapper->Example_0);
            }
        }
        Executor { token_mapper, parser, date: ExecutorDate::Fixed(Date::today()), num_base: 0 }
    }

    /// Parses one expression line into a transaction. A transaction marked
    /// as ambiguous gets ` FIXME:[<line>]` after its comment.
    pub fn parse_expr(&mut self, expr: &str) -> (r: Result<Transaction, ParseError>)
        requires
            old(self).wf(),
            4 * expr@.len() < usize::MAX,
        ensures
            final(self).wf(),
            final(self).parser.tree == old(self).parser.tree,
            final(self).token_mapper == old(self).token_mapper,
            final(self).date == old(self).date,
            final(self).num_base == old(self).num_base,
            match r {
                Ok(t) => {
                    &&& exists|ce: CompoundExpr| #[trigger] scan_outcome(old(self).parser.tree, expr@, Ok(ce))
                        && !(ce.exprs@.len() == 0 && ce.comment is None)
                        && entries_match(old(self).token_mapper, ce.exprs@, t)
                        && crate::transaction::opt_view(t.description) == Some(described(ce.comment, expr@, t.has_build_error))
                    &&& t.num_base == old(self).num_base
                    &&& t.orig_expr matches Some(e) && e@ == expr@
                    &&& old(self).date matches ExecutorDate::Fixed(d) ==> t.date == d
                },
                Err(e) => scan_outcome(old(self).parser.tree, expr@, Err(e)) || (e.ch == '\0' && e.pos == 0
                    && exists|ce: CompoundExpr| #[trigger] scan_outcome(old(self).parser.tree, expr@, Ok(ce))
                        && ce.exprs@.len() == 0 && ce.comment is None),
            },
    {
        self.parser.reset();
        let ghost tree0 = self.parser.tree;
        let parsed = self.parser.parse_expr(expr);
        let cexpr = match parsed {
            Ok(c) => c,
            Err(e) => {
                assert(scan_outcome(tree0, expr@, Err(e)));
                return Err(e);
            },
        };
        let mut factory = TransactionFactory::new();
        if cexpr.exprs.len() == 0 && cexpr.comment.is_none() {
            assert(scan_outcome(tree0, expr@, Ok(cexpr)));
            return Err(ParseError::new(String::from_str("Expression can not be parsed"), '\0', 0));
        }
        let ghost m = self.token_mapper;
        let ghost es = cexpr.exprs@;
        let mut i: usize = 0;
        proof {
            assert(es.take(0) =~= Seq::<Expr>::empty());
            assert(entries_view(factory.transaction.debit_entries@) =~= Seq::<(Seq<char>, int)>::empty());
            assert(entries_view(factory.transaction.credit_entries@) =~= Seq::<(Seq<char>, int)>::empty());
        }
        while i < cexpr.exprs.len()
            invariant
                factory.wf(),
                i <= cexpr.exprs@.len(),
                m == self.token_mapper,
                es == cexpr.exprs@,
                factory.side() == fold_exprs(&m, no_sides(), es.take(i as int)).0,
                entries_view(factory.transaction.debit_entries@) == fold_exprs(&m, no_sides(), es.take(i as int)).1,
                entries_view(factory.transaction.credit_entries@) == fold_exprs(&m, no_sides(), es.take(i as int)).2,
                factory.transaction.has_build_error == fold_exprs(&m, no_sides(), es.take(i as int)).3,
                factory.has_unconsumed() == fold_exprs(&m, no_sides(), es.take(i as int)).4,
            decreases cexpr.exprs@.len() - i,
        {
            proof {
                assert(es.take(i + 1).drop_last() == es.take(i as int));
                assert(es.take(i + 1).last() == es[i as int]);
            }
            let ghost before = factory;
            factory.set_expr(&self.token_mapper, &cexpr.exprs[i]);
            proof {
                let e = es[i as int];
                let ks = factory.hint_keys@.map_values(|h: String| h@);
                let hs = e.hints@.map_values(|h: String| h@);
                let chk = crate::transaction::expr_checks(&m, before.side(), e);
                assert(ks == hs);
                if exists|j: int| 0 <= j < factory.hint_used@.len() && !#[trigger] factory.hint_used@[j] {
                    let j = choose|j: int| 0 <= j < factory.hint_used@.len() && !#[trigger] factory.hint_used@[j];
                    assert(ks[j] == factory.hint_keys@[j]@);
                    assert(!chk.contains(e.hints@[j]@));
                }
                if crate::transaction::expr_unconsumed(&m, before.side(), e) {
                    let j = choose|j: int| 0 <= j < e.hints@.len() && !chk.contains(#[trigger] e.hints@[j]@);
                    assert(hs[j] == ks[j]);
                    assert(!factory.hint_used@[j]);
                }
            }
            i = i + 1;
        }
        assert(es.take(i as int) == es);
        let ghost f = fold_exprs(&m, no_sides(), es);
        let mut transaction = factory.build(&self.token_mapper);
        proof {
            assert(f.2 + seq![(m.spec_fallback(), 0int)] =~= f.2.push((m.spec_fallback(), 0int)));
            assert(f.1.len() == factory.transaction.debit_entries@.len());
            assert(f.2 + Seq::<(Seq<char>, int)>::empty() =~= f.2);
            assert(entries_match(m, es, transaction));
        }
        transaction.date = self.date.get_date();
        transaction.num_base = self.num_base;
        transaction.orig_expr = Some(String::from_str(expr));
        let ghost comment = cexpr.comment;
        let mut desc = match cexpr.comment {
            Some(c) => c,
            None => String::new(),
        };
        let ghost c0 = desc@;
        if transaction.has_build_error {
            desc.append(" FIXME:[");
            desc.append(expr);
            desc.append("]");
            assert(desc@ =~= c0 + " FIXME:["@ + expr@ + "]"@);
        }
        assert(desc@ == described(comment, expr@, transaction.has_build_error));
        transaction.description = Some(desc);
        Ok(transaction)
    }

    /// Applies a directive line: `.date YYYY-MM-DD` fixes the date,
    /// `.num N` sets the numbering base; other lines change nothing.
    pub fn parse_directive(&mut self, directive: &str) -> (r: Result<(), Error>)
        ensures
            final(self).token_mapper == old(self).token_mapper,
            final(self).parser == old(self).parser,
            ({
                let s = directive@;
                if has_prefix(s, ".date "@) {
                    &&& r is Ok
                    &&& final(self).date == ExecutorDate::Fixed(date_value(s.skip(6)))
                    &&& final(self).num_base == old(self).num_base
                } else if has_prefix(s, ".num "@) {
                    &&& final(self).date == old(self).date
                    &&& match parse_int_in(s.skip(5), false, 0, u32::MAX as int) {
                        Some(n) => r is Ok && final(self).num_base == n,
                        None => r is Err && final(self).num_base == old(self).num_base,
                    }
                } else {
                    &&& r is Ok
                    &&& final(self).date == old(self).date
                    &&& final(self).num_base == old(self).num_base
                }
            }),
    {
        let v = chars_of(directive);
        let date_p = chars_of(".date ");
        let num_p = chars_of(".num ");
        proof {
            reveal_strlit(".date ");
            reveal_strlit(".num ");
            assert(date_p@.len() == 6);
            assert(num_p@.len() == 5);
        }
        if starts_with_chars(&v, &date_p) {
            let rest = string_of_range(&v, 6, v.len());
            assert(v@.subrange(6, v@.len() as int) == directive@.skip(6));
            self.date = ExecutorDate::Fixed(Date::parse(rest.as_str()));
            proof {
                reveal_strlit(".date ");
                reveal_strlit(".num ");
                assert(!has_prefix(directive@, ".num "@)) by {
                    assert(directive@.take(6)[1] == 'd');
                    assert(directive@[1] == 'd');
                    assert((".num "@)[1] == 'n');
                    assert(directive@.take(5)[1] == 'd');
                }
            }
        } else if starts_with_chars(&v, &num_p) {
            match parse_index(&v, 5, v.len()) {
                Some(n) => {
                    if n > 0xffff_ffff {
                        assert(v@.subrange(5, v@.len() as int) == directive@.skip(5));
                        return Err(Error::new(None, "number base out of range"));
                    }
                    assert(v@.subrange(5, v@.len() as int) == directive@.skip(5));
                    self.num_base = n as u32;
                },
                None => {
                    assert(v@.subrange(5, v@.len() as int) == directive@.skip(5));
                    return Err(Error::new(None, "cannot parse the number base"));
                },
            }
        }
        Ok(())
    }

    /// Dates every later transaction with the local date when it is built.
    pub fn enable_realtime_date(&mut self)
        ensures
            final(self).date is Realtime,
            final(self).num_base == old(self).num_base,
            final(self).parser == old(self).parser,
            final(self).token_mapper == old(self).token_mapper,
    {
        self.date = ExecutorDate::Realtime;
    }

    pub fn get_tokmap_version(&self) -> (r: &'static str)
        ensures
            r@ == "0.1.0"@,
    {
        self.token_mapper.get_version()
    }
}

} // verus!
