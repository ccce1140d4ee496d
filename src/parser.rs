//! Character-driven scanner turning one expression line into a
//! `CompoundExpr`.

use vstd::prelude::*;
use crate::expr::{CompoundExpr, Expr, ExprCreditPrice, ExprTrans};
use crate::price::{Price, fraction_part_of, integer_part_of, lemma_unsigned_literal_nonneg, price_value, unsigned_literal};
use crate::text::{chars_of, is_digit, string_of, string_of_range};
use crate::trie::{NodeKind, Trie, child_in, is_prefix, kind_at, walk};

verus! {

/// A syntax error: what went wrong, at which character and byte offset.
#[derive(Debug)]
pub struct ParseError {
    pub msg: String,
    pub ch: char,
    pub pos: usize,
}

impl ParseError {
    pub fn new(msg: String, ch: char, pos: usize) -> (r: ParseError)
        ensures
            r.msg@ == msg@,
            r.ch == ch,
            r.pos == pos,
    {
        ParseError { msg, ch, pos }
    }
}

/// Which part of a sub-expression the scanner is in.
#[derive(Clone, Copy, Debug, PartialEq, Eq, Structural)]
pub enum ExprState {
    Swap,
    /// Reading an account or hint token; the trie cursor is the node index.
    ExprPartAccAndHint(usize),
    ExprPartPrice,
}

/// Which amount of a price leg the digits being read belong to.
#[derive(Clone, Copy, Debug, PartialEq, Eq, Structural)]
pub enum PriceState {
    Debit,
    Credit,
    Reward,
    Shares,
    Multiple,
    Cashback,
}

/// Sub-states that may be entered again within one leg.
pub const PRICE_STATE_REENTRANT_MASK: u8 = 0b100110;
/// Every sub-state.
pub const PRICE_STATE_ALL_MASK: u8 = 0b111111;

impl PriceState {
    /// The bit of this sub-state in the visited set.
    pub fn bit(self) -> (r: u8)
        ensures
            r != 0,
            r == bit_v(self),
    {
        match self {
            PriceState::Debit => 0b1,
            PriceState::Credit => 0b10,
            PriceState::Reward => 0b100,
            PriceState::Shares => 0b1000,
            PriceState::Multiple => 0b10000,
            PriceState::Cashback => 0b100000,
        }
    }
}

/// The scanner's state within one line.
#[derive(Debug)]
pub struct State {
    pub estate: ExprState,
    pub pstate: PriceState,
    pub pbitset: u8,
    pub staging_token: Vec<char>,
    pub ch: char,
    pub pos: usize,
}

impl State {
    pub fn new() -> (r: State)
        ensures
            r.estate == ExprState::Swap,
            r.pstate == PriceState::Debit,
            r.pbitset == 0,
            r.staging_token@.len() == 0,
            r.pos == 0,
    {
        State {
            estate: ExprState::Swap,
            pstate: PriceState::Debit,
            pbitset: 0,
            staging_token: Vec::new(),
            ch: '\0',
            pos: 0,
        }
    }

    /// A parse error at the current character.
    fn error(&self, msg: &str) -> (r: ParseError)
        ensures
            r.ch == self.ch,
            r.pos == self.pos,
    {
        ParseError::new(String::from_str(msg), self.ch, self.pos)
    }
}

/// Number of bytes of `c` in UTF-8.
pub open spec fn utf8_width_spec(c: char) -> nat {
    if (c as u32) < 0x80 {
        1
    } else if (c as u32) < 0x800 {
        2
    } else if (c as u32) < 0x10000 {
        3
    } else {
        4
    }
}

/// Number of bytes of `s` in UTF-8.
pub open spec fn utf8_len(s: Seq<char>) -> nat
    decreases s.len(),
{
    if s.len() == 0 {
        0
    } else {
        utf8_len(s.drop_last()) + utf8_width_spec(s.last())
    }
}

pub fn utf8_width(c: char) -> (r: usize)
    ensures
        r == utf8_width_spec(c),
{
    let v = c as u32;
    if v < 0x80 {
        1
    } else if v < 0x800 {
        2
    } else if v < 0x10000 {
        3
    } else {
        4
    }
}

proof fn lemma_utf8_len_bound(s: Seq<char>)
    ensures
        utf8_len(s) <= 4 * s.len(),
    decreases s.len(),
{
    if s.len() > 0 {
        lemma_utf8_len_bound(s.drop_last());
    }
}

/// Every account token of `e` is in `a` and every hint token in `h`.
pub open spec fn expr_tokens_in(e: Expr, a: Set<Seq<char>>, h: Set<Seq<char>>) -> bool {
    &&& forall|i: int| 0 <= i < e.accounts@.len() ==> a.contains(#[trigger] e.accounts@[i]@)
    &&& forall|i: int| 0 <= i < e.hints@.len() ==> h.contains(#[trigger] e.hints@[i]@)
}

/// Every sub-expression of `ce` uses registered tokens only.
pub open spec fn compound_tokens_in(ce: CompoundExpr, a: Set<Seq<char>>, h: Set<Seq<char>>) -> bool {
    forall|i: int| 0 <= i < ce.exprs@.len() ==> expr_tokens_in(#[trigger] ce.exprs@[i], a, h)
}

/// A leg with no shares and no negative amount.
pub open spec fn trans_unsigned(t: ExprTrans) -> bool {
    &&& t.shares is None
    &&& t.price_debit.0 >= 0
    &&& forall|i: int| 0 <= i < t.price_credit_chain@.len() ==> crate::expr::step_amount(#[trigger] t.price_credit_chain@[i]) >= 0
    &&& forall|i: int| 0 <= i < t.cash_backs@.len() ==> (#[trigger] t.cash_backs@[i]).0 >= 0
}

/// Every leg of every sub-expression has no shares and no negative amount.
pub open spec fn compound_unsigned(ce: CompoundExpr) -> bool {
    forall|i: int| 0 <= i < ce.exprs@.len() ==> expr_unsigned(#[trigger] ce.exprs@[i])
}

pub open spec fn expr_unsigned(e: Expr) -> bool {
    forall|j: int| 0 <= j < e.trans@.len() ==> trans_unsigned(#[trigger] e.trans@[j])
}

/// The characters that start a free-text comment.
pub open spec fn is_quote(c: char) -> bool {
    c == '\'' || c == '\u{2018}' || c == '\u{2019}'
}

/// `c` is the character at index `k` of `s` followed by the end sentinel,
/// and `pos` is its byte offset.
pub open spec fn error_at(s: Seq<char>, k: int, c: char, pos: int) -> bool {
    &&& 0 <= k <= s.len()
    &&& c == (if k < s.len() { s[k] } else { '\0' })
    &&& pos == utf8_len(s.take(k))
}

/// A leg as plain values.
pub struct TransV {
    pub shares: Option<Price>,
    pub debit: Price,
    pub chain: Seq<ExprCreditPrice>,
    pub cash_backs: Seq<Price>,
    pub multiple: u32,
}

pub open spec fn trans_v(t: ExprTrans) -> TransV {
    TransV {
        shares: t.shares,
        debit: t.price_debit,
        chain: t.price_credit_chain@,
        cash_backs: t.cash_backs@,
        multiple: t.multiple,
    }
}

pub open spec fn default_trans_v() -> TransV {
    TransV { shares: None, debit: Price(0), chain: Seq::empty(), cash_backs: Seq::empty(), multiple: 1 }
}

pub open spec fn trans_empty_v(t: TransV) -> bool {
    t.shares is None && t.debit.0 == 0 && t.chain.len() == 0 && t.cash_backs.len() == 0 && t.multiple == 1
}

/// A sub-expression as plain values.
pub struct ExprV {
    pub accounts: Seq<Seq<char>>,
    pub hints: Seq<Seq<char>>,
    pub trans: Seq<TransV>,
}

pub open spec fn str_views(v: Seq<String>) -> Seq<Seq<char>> {
    v.map_values(|x: String| x@)
}

pub open spec fn expr_v(e: Expr) -> ExprV {
    ExprV {
        accounts: str_views(e.accounts@),
        hints: str_views(e.hints@),
        trans: e.trans@.map_values(|t: ExprTrans| trans_v(t)),
    }
}

pub open spec fn exprs_v(v: Seq<Expr>) -> Seq<ExprV> {
    v.map_values(|e: Expr| expr_v(e))
}

pub open spec fn empty_expr_v() -> ExprV {
    ExprV { accounts: Seq::empty(), hints: Seq::empty(), trans: Seq::empty() }
}

pub open spec fn expr_empty_v(e: ExprV) -> bool {
    e.accounts.len() == 0 && e.hints.len() == 0 && e.trans.len() == 0
}

/// Everything the scanner holds between two characters.
pub struct ScanV {
    pub exprs: Seq<ExprV>,
    pub expr: ExprV,
    pub trans: TransV,
    pub weak_credit: Option<Seq<char>>,
    pub weak_debit: Option<Seq<char>>,
    pub estate: ExprState,
    pub pstate: PriceState,
    pub pbitset: u8,
    pub staging: Seq<char>,
    /// Set when a quote has ended the scan.
    pub comment: Option<Seq<char>>,
}

/// The bit of a price sub-state.
pub open spec fn bit_v(p: PriceState) -> u8 {
    match p {
        PriceState::Debit => 0b1,
        PriceState::Credit => 0b10,
        PriceState::Reward => 0b100,
        PriceState::Shares => 0b1000,
        PriceState::Multiple => 0b10000,
        PriceState::Cashback => 0b100000,
    }
}

/// Entering sub-state `new` with visited set `bits`: the new sub-state and
/// visited set, or `None` when `new` may not be entered again or is shares.
pub open spec fn change_pstate_v(bits: u8, new: PriceState) -> Option<(PriceState, u8)> {
    let b = bit_v(new);
    if PRICE_STATE_REENTRANT_MASK & b == 0 && bits & b != 0 {
        None
    } else if new == PriceState::Shares {
        None
    } else {
        let bs = bits | b;
        Some((new, match new {
            PriceState::Credit => bs | bit_v(PriceState::Reward),
            PriceState::Reward => bs | bit_v(PriceState::Credit),
            PriceState::Cashback => bs | PRICE_STATE_ALL_MASK,
            _ => bs,
        }))
    }
}

/// Files token `staging`, ending at trie node `node`, into `e`.
pub open spec fn pop_acc_v(tree: Trie, node: usize, staging: Seq<char>, e: ExprV) -> Option<ExprV> {
    if staging.len() == 0 {
        None
    } else {
        match tree.nodes@[node as int].kind {
            NodeKind::Staging => None,
            NodeKind::AccountToken => Some(ExprV { accounts: e.accounts.push(staging), ..e }),
            NodeKind::HintToken => Some(ExprV { hints: e.hints.push(staging), ..e }),
        }
    }
}

/// Reads amount `staging` into leg `t` as sub-state `p` says.
pub open spec fn pop_price_v(staging: Seq<char>, p: PriceState, t: TransV) -> Option<TransV> {
    match price_value(staging) {
        None => None,
        Some(v) => match p {
            PriceState::Debit => Some(TransV { debit: Price(v as i32), ..t }),
            PriceState::Credit => Some(TransV { chain: t.chain.push(ExprCreditPrice::Credit(Price(v as i32))), ..t }),
            PriceState::Reward => Some(TransV { chain: t.chain.push(ExprCreditPrice::Reward(Price(v as i32))), ..t }),
            PriceState::Shares => None,
            PriceState::Multiple => if fraction_part_of(v) != 0 || integer_part_of(v) < 0 {
                None
            } else {
                Some(TransV { multiple: integer_part_of(v) as u32, ..t })
            },
            PriceState::Cashback => Some(TransV { cash_backs: t.cash_backs.push(Price(v as i32)), ..t }),
        },
    }
}

/// Starts a new token at the trie root, stepping to `ch` if given.
pub open spec fn begin_v(tree: Trie, ch: Option<char>) -> Option<(ExprState, Seq<char>)> {
    match ch {
        None => Some((ExprState::ExprPartAccAndHint(0), Seq::empty())),
        Some(c) => match child_in(tree, tree.nodes@[0].next@, c) {
            Some(nn) => Some((ExprState::ExprPartAccAndHint(nn), seq![c])),
            None => None,
        },
    }
}

/// `s` after filing its pending token, if any.
pub open spec fn flush_token_v(tree: Trie, node: usize, s: ScanV) -> Option<ScanV> {
    if s.staging.len() > 0 {
        match pop_acc_v(tree, node, s.staging, s.expr) {
            None => None,
            Some(e) => Some(ScanV { expr: e, staging: Seq::empty(), estate: ExprState::ExprPartAccAndHint(0), ..s }),
        }
    } else {
        Some(s)
    }
}

/// `s` after reading its pending amount, if any, into the current leg.
pub open spec fn flush_price_v(s: ScanV) -> Option<ScanV> {
    if s.staging.len() > 0 {
        match pop_price_v(s.staging, s.pstate, s.trans) {
            None => None,
            Some(t) => Some(ScanV { trans: t, staging: Seq::empty(), ..s }),
        }
    } else {
        Some(s)
    }
}

/// `s` in sub-state `p` with a fresh visited set when `reset`.
pub open spec fn enter_v(s: ScanV, p: PriceState, reset: bool) -> Option<ScanV> {
    match change_pstate_v(if reset { 0u8 } else { s.pbitset }, p) {
        None => None,
        Some(r) => Some(ScanV { pstate: r.0, pbitset: r.1, ..s }),
    }
}

/// The character at `i` of `chars` followed by the end sentinel.
pub open spec fn char_at(chars: Seq<char>, i: int) -> char {
    if i < chars.len() { chars[i] } else { '\0' }
}

pub open spec fn is_blank_v(c: char) -> bool {
    c == ' ' || c == '\t' || c == '\0'
}

/// The scanner on a blank character after an amount: the leg ends.
pub open spec fn step_blank_price(s: ScanV) -> Option<ScanV> {
    let s1 = if s.staging.len() > 0 {
                match pop_price_v(s.staging, s.pstate, s.trans) {
                    None => None,
                    Some(t) => Some(ScanV {
                        expr: ExprV { trans: s.expr.trans.push(t), ..s.expr },
                        trans: default_trans_v(),
                        staging: Seq::empty(),
                        ..s
                    }),
                }
            } else {
                Some(s)
            };
    match s1 {
        None => None,
        Some(s1) => enter_v(s1, PriceState::Debit, true),
    }
}

/// The scanner on an account or hint character `ch` with no trie step.
pub open spec fn step_token_end(tree: Trie, node: usize, ch: char, s: ScanV) -> Option<ScanV> {
    match flush_token_v(tree, node, s) {
        None => None,
        Some(s1) => if is_digit(ch) || ch == '+' {
            let a1 = if s1.expr.accounts.len() <= 1 && s1.weak_credit is Some {
                s1.expr.accounts.insert(0, s1.weak_credit->0)
            } else {
                s1.expr.accounts
            };
            let a2 = if a1.len() <= 1 && s1.weak_debit is Some { a1.push(s1.weak_debit->0) } else { a1 };
            match enter_v(ScanV { expr: ExprV { accounts: a2, ..s1.expr }, ..s1 }, PriceState::Debit, true) {
                None => None,
                Some(s2) => Some(ScanV { estate: ExprState::ExprPartPrice, staging: s2.staging.push(ch), ..s2 }),
            }
        } else {
            match begin_v(tree, Some(ch)) {
                None => None,
                Some(b) => Some(ScanV { estate: b.0, staging: b.1, ..s1 }),
            }
        },
    }
}

/// The scanner on a separator `ch` after an amount: the sub-expression
/// ends and weak accounts are taken from it.
pub open spec fn step_separator(tree: Trie, ch: char, s1: ScanV) -> Option<ScanV> {
    let comma = ch == ',' || ch == '\u{ff0c}';
    let semi = ch == ';' || ch == '\u{ff1b}';
    let accs = s1.expr.accounts;
    let wc = if accs.len() >= 2 && comma {
        Some(accs[1])
    } else if accs.len() >= 2 && semi {
        s1.weak_credit
    } else if accs.len() >= 1 {
        Some(accs[0])
    } else {
        s1.weak_credit
    };
    let wd = if accs.len() >= 2 && !comma && semi { Some(accs[1]) } else { s1.weak_debit };
    let keep = !trans_empty_v(s1.trans);
    let e1 = if keep { ExprV { trans: s1.expr.trans.push(s1.trans), ..s1.expr } } else { s1.expr };
    let t1 = if keep { default_trans_v() } else { s1.trans };
    match begin_v(tree, if comma || semi { None } else { Some(ch) }) {
        None => None,
        Some(b) => Some(ScanV {
            exprs: s1.exprs.push(e1),
            expr: empty_expr_v(),
            trans: t1,
            weak_credit: wc,
            weak_debit: wd,
            estate: b.0,
            staging: b.1,
            ..s1
        }),
    }
}

/// The scanner on a non-digit character `ch` after an amount.
pub open spec fn step_price_mark(tree: Trie, ch: char, s: ScanV) -> Option<ScanV> {
    match flush_price_v(s) {
        None => None,
        Some(s1) => if ch == '-' {
            enter_v(s1, PriceState::Reward, false)
        } else if ch == '@' {
            enter_v(s1, PriceState::Credit, false)
        } else if ch == 'x' || ch == '*' {
            enter_v(s1, PriceState::Multiple, false)
        } else if ch == '/' {
            enter_v(s1, PriceState::Shares, false)
        } else if ch == '+' {
            enter_v(s1, PriceState::Cashback, false)
        } else {
            step_separator(tree, ch, s1)
        },
    }
}

/// One step of the scanner at index `i` of `chars` (the end sentinel at
/// `chars.len()`); `None` is a syntax error at that character.
pub open spec fn step(tree: Trie, chars: Seq<char>, i: int, s: ScanV) -> Option<ScanV> {
    let ch = char_at(chars, i);
    if is_blank_v(ch) {
        match s.estate {
            ExprState::Swap => Some(s),
            ExprState::ExprPartAccAndHint(node) => flush_token_v(tree, node, s),
            ExprState::ExprPartPrice => step_blank_price(s),
        }
    } else if is_quote(ch) {
        if i + 1 < chars.len() { Some(ScanV { comment: Some(chars.subrange(i + 1, chars.len() as int)), ..s }) } else { Some(s) }
    } else {
        match s.estate {
            ExprState::Swap => Some(s),
            ExprState::ExprPartAccAndHint(node) => match child_in(tree, tree.nodes@[node as int].next@, ch) {
                Some(nn) => Some(ScanV { staging: s.staging.push(ch), estate: ExprState::ExprPartAccAndHint(nn), ..s }),
                None => step_token_end(tree, node, ch, s),
            },
            ExprState::ExprPartPrice => if is_digit(ch) || ch == '.' {
                Some(ScanV { staging: s.staging.push(ch), ..s })
            } else {
                step_price_mark(tree, ch, s)
            },
        }
    }
}

/// The scanner's state before any character.
pub open spec fn scan_init() -> ScanV {
    ScanV {
        exprs: Seq::empty(),
        expr: empty_expr_v(),
        trans: default_trans_v(),
        weak_credit: None,
        weak_debit: None,
        estate: ExprState::ExprPartAccAndHint(0),
        pstate: PriceState::Debit,
        pbitset: 0,
        staging: Seq::empty(),
        comment: None,
    }
}

/// The scanner's state after the first `k` characters of `chars` followed
/// by the end sentinel; it stops changing once a comment is taken, and is
/// `None` after a syntax error.
pub open spec fn run(tree: Trie, chars: Seq<char>, k: nat) -> Option<ScanV>
    decreases k,
{
    if k == 0 {
        Some(scan_init())
    } else {
        match run(tree, chars, (k - 1) as nat) {
            None => None,
            Some(s) => if s.comment is Some { Some(s) } else { step(tree, chars, k - 1, s) },
        }
    }
}

pub open spec fn opt_str_view(o: Option<String>) -> Option<Seq<char>> {
    match o {
        Some(x) => Some(x@),
        None => None,
    }
}

/// The scanner's executable state as plain values.
pub open spec fn scan_view(exprs: Seq<Expr>, expr: Expr, trans: ExprTrans, wc: Option<String>, wd: Option<String>, st: State) -> ScanV {
    ScanV {
        exprs: exprs_v(exprs),
        expr: expr_v(expr),
        trans: trans_v(trans),
        weak_credit: opt_str_view(wc),
        weak_debit: opt_str_view(wd),
        estate: st.estate,
        pstate: st.pstate,
        pbitset: st.pbitset,
        staging: st.staging_token@,
        comment: None,
    }
}

proof fn lemma_run_none_stays(tree: Trie, chars: Seq<char>, k: nat, m: nat)
    requires
        k <= m,
        run(tree, chars, k) is None,
    ensures
        run(tree, chars, m) is None,
    decreases m - k,
{
    if k < m {
        lemma_run_none_stays(tree, chars, k, (m - 1) as nat);
    }
}

proof fn lemma_run_comment_stays(tree: Trie, chars: Seq<char>, k: nat, m: nat)
    requires
        k <= m,
        run(tree, chars, k) matches Some(s) && s.comment is Some,
    ensures
        run(tree, chars, m) == run(tree, chars, k),
    decreases m - k,
{
    if k < m {
        lemma_run_comment_stays(tree, chars, k, (m - 1) as nat);
    }
}

/// The sub-expressions of a final state: the open one is kept if not empty.
pub open spec fn finish_exprs(s: ScanV) -> Seq<ExprV> {
    if expr_empty_v(s.expr) { s.exprs } else { s.exprs.push(s.expr) }
}

/// The scan of `chars` fails at index `k`: it runs without a comment up
/// to `k`, the step at `k` fails, and `c` and `pos` are that character and
/// its byte offset.
pub open spec fn fails_at(tree: Trie, chars: Seq<char>, k: int, c: char, pos: int) -> bool {
    &&& 0 <= k <= chars.len()
    &&& run(tree, chars, k as nat) matches Some(s)
    &&& s.comment is None
    &&& step(tree, chars, k, s) is None
    &&& error_at(chars, k, c, pos)
}

/// The scan of `chars` fails at some index, with character `c` at byte
/// offset `pos`.
pub open spec fn scan_fails(tree: Trie, chars: Seq<char>, c: char, pos: int) -> bool {
    exists|k: int| fails_at(tree, chars, k, c, pos)
}

/// What text `w` is among tokens `a` (accounts) and `h` (hints): a hint
/// wins over an account of the same text.
pub open spec fn token_kind(a: Set<Seq<char>>, h: Set<Seq<char>>, w: Seq<char>) -> NodeKind {
    if h.contains(w) {
        NodeKind::HintToken
    } else if a.contains(w) {
        NodeKind::AccountToken
    } else {
        NodeKind::Staging
    }
}

/// `w` begins some token of `toks`.
pub open spec fn prefix_of_any(toks: Set<Seq<char>>, w: Seq<char>) -> bool {
    exists|t: Seq<char>| toks.contains(t) && is_prefix(w, t)
}

/// The token parser: a trie of the registered tokens and the scan state.
pub struct Parser {
    pub tree: Trie,
    pub state: State,
}

impl Parser {
    pub open spec fn wf(&self) -> bool {
        self.tree.wf()
    }

    /// Registered account tokens.
    pub open spec fn account_tokens(&self) -> Set<Seq<char>> {
        self.tree.accounts@
    }

    /// Registered hint tokens.
    pub open spec fn hint_tokens(&self) -> Set<Seq<char>> {
        self.tree.hints@
    }

    /// A parser that recognises the given account and hint tokens.
    /// Tokens whose total length does not fit the arena are not registered.
    pub fn new(account_toks: &Vec<String>, hint_toks: &Vec<String>) -> (r: Parser)
        ensures
            r.wf(),
            total_token_len(account_toks@) + total_token_len(hint_toks@) + 1 < usize::MAX ==> {
                &&& r.account_tokens() == account_toks@.map_values(|t: String| t@).to_set()
                &&& r.hint_tokens() == hint_toks@.map_values(|t: String| t@).to_set()
                &&& forall|w: Seq<char>| #[trigger] kind_at(r.tree, w) == token_kind(r.account_tokens(), r.hint_tokens(), w)
                &&& forall|w: Seq<char>| #[trigger] walk(r.tree, w) is Some <==> (w.len() == 0 || prefix_of_any(
                    r.account_tokens().union(r.hint_tokens()),
                    w,
                ))
            },
    {
        let ghost fits = total_token_len(account_toks@) + total_token_len(hint_toks@) + 1 < usize::MAX;
        let mut tree = Trie::new();
        let mut i: usize = 0;
        assert(account_toks@.take(0) =~= Seq::<String>::empty());
        assert(account_toks@.take(0).map_values(|t: String| t@).to_set() =~= Set::<Seq<char>>::empty());
        while i < account_toks.len()
            invariant
                tree.wf(),
                i <= account_toks@.len(),
                fits == (total_token_len(account_toks@) + total_token_len(hint_toks@) + 1 < usize::MAX),
                fits ==> tree.nodes@.len() <= 1 + total_token_len(account_toks@.take(i as int)),
                fits ==> tree.accounts@ == account_toks@.take(i as int).map_values(|t: String| t@).to_set(),
                fits ==> tree.hints@ == Set::<Seq<char>>::empty(),
                fits ==> forall|w: Seq<char>| #[trigger] kind_at(tree, w) == token_kind(tree.accounts@, tree.hints@, w),
                fits ==> forall|w: Seq<char>| #[trigger] walk(tree, w) is Some <==> (w.len() == 0 || prefix_of_any(
                    tree.accounts@.union(tree.hints@),
                    w,
                )),
            decreases account_toks@.len() - i,
        {
            let cs = chars_of(account_toks[i].as_str());
            proof {
                lemma_total_token_len_nonneg(hint_toks@);
                lemma_total_token_len_prefix(account_toks@, i as int);
                assert(cs@ == account_toks@[i as int]@);
                assert(account_toks@.take(i + 1).drop_last() == account_toks@.take(i as int));
            }
            let ghost tb = tree;
            if tree.nodes.len() < usize::MAX - cs.len() {
                tree.feed(&cs, NodeKind::AccountToken);
                proof {
                    let u0 = tb.accounts@.union(tb.hints@);
                    let u1 = tree.accounts@.union(tree.hints@);
                    assert(u1 =~= u0.insert(cs@));
                    assert forall|w: Seq<char>| #[trigger] prefix_of_any(u1, w) <==> (prefix_of_any(u0, w)
                        || is_prefix(w, cs@)) by {
                        if prefix_of_any(u1, w) {
                            let t = choose|t: Seq<char>| u1.contains(t) && is_prefix(w, t);
                            if t != cs@ {
                                assert(u0.contains(t));
                            }
                        }
                        if prefix_of_any(u0, w) {
                            let t = choose|t: Seq<char>| u0.contains(t) && is_prefix(w, t);
                            assert(u1.contains(t));
                        }
                        if is_prefix(w, cs@) {
                            assert(u1.contains(cs@));
                        }
                    }
                }
            }
            proof {
                let p = account_toks@.take(i + 1).map_values(|t: String| t@);
                assert(p == account_toks@.take(i as int).map_values(|t: String| t@).push(account_toks@[i as int]@));
                account_toks@.take(i as int).map_values(|t: String| t@).lemma_push_to_set_commute(account_toks@[i as int]@);
            }
            i = i + 1;
        }
        assert(account_toks@.take(account_toks@.len() as int) == account_toks@);
        let mut i: usize = 0;
        assert(hint_toks@.take(0) =~= Seq::<String>::empty());
        assert(hint_toks@.take(0).map_values(|t: String| t@).to_set() =~= Set::<Seq<char>>::empty());
        while i < hint_toks.len()
            invariant
                tree.wf(),
                i <= hint_toks@.len(),
                fits == (total_token_len(account_toks@) + total_token_len(hint_toks@) + 1 < usize::MAX),
                fits ==> tree.nodes@.len() <= 1 + total_token_len(account_toks@) + total_token_len(hint_toks@.take(i as int)),
                fits ==> tree.accounts@ == account_toks@.map_values(|t: String| t@).to_set(),
                fits ==> tree.hints@ == hint_toks@.take(i as int).map_values(|t: String| t@).to_set(),
                fits ==> forall|w: Seq<char>| #[trigger] kind_at(tree, w) == token_kind(tree.accounts@, tree.hints@, w),
                fits ==> forall|w: Seq<char>| #[trigger] walk(tree, w) is Some <==> (w.len() == 0 || prefix_of_any(
                    tree.accounts@.union(tree.hints@),
                    w,
                )),
            decreases hint_toks@.len() - i,
        {
            let cs = chars_of(hint_toks[i].as_str());
            proof {
                lemma_total_token_len_prefix(hint_toks@, i as int);
                assert(cs@ == hint_toks@[i as int]@);
                assert(hint_toks@.take(i + 1).drop_last() == hint_toks@.take(i as int));
            }
            let ghost tb = tree;
            if tree.nodes.len() < usize::MAX - cs.len() {
                tree.feed(&cs, NodeKind::HintToken);
                proof {
                    let u0 = tb.accounts@.union(tb.hints@);
                    let u1 = tree.accounts@.union(tree.hints@);
                    assert(u1 =~= u0.insert(cs@));
                    assert forall|w: Seq<char>| #[trigger] prefix_of_any(u1, w) <==> (prefix_of_any(u0, w)
                        || is_prefix(w, cs@)) by {
                        if prefix_of_any(u1, w) {
                            let t = choose|t: Seq<char>| u1.contains(t) && is_prefix(w, t);
                            if t != cs@ {
                                assert(u0.contains(t));
                            }
                        }
                        if prefix_of_any(u0, w) {
                            let t = choose|t: Seq<char>| u0.contains(t) && is_prefix(w, t);
                            assert(u1.contains(t));
                        }
                        if is_prefix(w, cs@) {
                            assert(u1.contains(cs@));
                        }
                    }
                }
            }
            proof {
                let p = hint_toks@.take(i + 1).map_values(|t: String| t@);
                assert(p == hint_toks@.take(i as int).map_values(|t: String| t@).push(hint_toks@[i as int]@));
                hint_toks@.take(i as int).map_values(|t: String| t@).lemma_push_to_set_commute(hint_toks@[i as int]@);
            }
            i = i + 1;
        }
        assert(hint_toks@.take(hint_toks@.len() as int) == hint_toks@);
        Parser { tree, state: State::new() }
    }

    /// Clears the scan state.
    pub fn reset(&mut self)
        ensures
            final(self).tree == old(self).tree,
            final(self).state.staging_token@.len() == 0,
            final(self).state.estate == ExprState::Swap,
    {
        self.state = State::new();
    }

    /// Parses one expression line: the sub-expressions and comment that
    /// `run` reaches over the line and its end sentinel, or the character
    /// where `run` fails.
    pub fn parse_expr(&mut self, expr: &str) -> (r: Result<CompoundExpr, ParseError>)
        requires
            old(self).wf(),
            4 * expr@.len() < usize::MAX,
        ensures
            final(self).tree == old(self).tree,
            scan_outcome(old(self).tree, expr@, r),
    {
        let chars = chars_of(expr);
        let mut st = State::new();
        let r = scan(&self.tree, &mut st, &chars);
        self.state = st;
        r
    }
}

/// Sum of the lengths of the tokens.
pub open spec fn total_token_len(toks: Seq<String>) -> int
    decreases toks.len(),
{
    if toks.len() == 0 {
        0
    } else {
        total_token_len(toks.drop_last()) + toks.last()@.len()
    }
}

proof fn lemma_total_token_len_nonneg(toks: Seq<String>)
    ensures
        total_token_len(toks) >= 0,
    decreases toks.len(),
{
    if toks.len() > 0 {
        lemma_total_token_len_nonneg(toks.drop_last());
    }
}

proof fn lemma_total_token_len_prefix(toks: Seq<String>, i: int)
    requires
        0 <= i < toks.len(),
    ensures
        total_token_len(toks.take(i + 1)) == total_token_len(toks.take(i)) + toks[i]@.len(),
        total_token_len(toks.take(i + 1)) <= total_token_len(toks),
    decreases toks.len(),
{
    assert(toks.take(i + 1).drop_last() == toks.take(i));
    if i + 1 < toks.len() {
        lemma_total_token_len_prefix(toks.drop_last(), i);
        assert(toks.drop_last().take(i + 1) == toks.take(i + 1));
    } else {
        assert(toks.take(i + 1) == toks);
    }
}

/// Points the trie cursor at the root and, given `ch`, steps to its child.
/// Fails when `ch` starts no token.
fn begin_acc_or_hint(tree: &Trie, st: &mut State, ch: Option<char>) -> (r: bool)
    requires
        tree.wf(),
        old(st).staging_token@.len() == 0,
    ensures
        final(st).ch == old(st).ch,
        final(st).pos == old(st).pos,
        final(st).pstate == old(st).pstate,
        final(st).pbitset == old(st).pbitset,
        ch is None ==> r,
        r == begin_v(*tree, ch) is Some,
        r ==> (final(st).estate, final(st).staging_token@) == begin_v(*tree, ch)->0,
        r ==> match final(st).estate {
            ExprState::ExprPartAccAndHint(n) => n < tree.nodes@.len()
                && final(st).staging_token@ == tree.paths@[n as int],
            _ => false,
        },
{
    st.estate = ExprState::ExprPartAccAndHint(0);
    if let Some(c) = ch {
        match tree.find(0, c) {
            Some(nn) => {
                st.staging_token.push(c);
                st.estate = ExprState::ExprPartAccAndHint(nn);
                assert(st.staging_token@ == Seq::<char>::empty().push(c));
            },
            None => {
                return false;
            },
        }
    }
    true
}

/// `begin_acc_or_hint`, failing with `msg` when `ch` starts no token.
fn begin_or_fail(tree: &Trie, st: &mut State, ch: Option<char>, msg: &str) -> (r: Result<(), ParseError>)
    requires
        tree.wf(),
        old(st).staging_token@.len() == 0,
    ensures
        final(st).ch == old(st).ch,
        final(st).pos == old(st).pos,
        final(st).pstate == old(st).pstate,
        final(st).pbitset == old(st).pbitset,
        r is Ok == begin_v(*tree, ch) is Some,
        r is Ok ==> (final(st).estate, final(st).staging_token@) == begin_v(*tree, ch)->0,
        match r {
            Ok(_) => match final(st).estate {
                ExprState::ExprPartAccAndHint(n) => n < tree.nodes@.len()
                    && final(st).staging_token@ == tree.paths@[n as int],
                _ => false,
            },
            Err(e) => e.ch == old(st).ch && e.pos == old(st).pos,
        },
{
    if begin_acc_or_hint(tree, st, ch) {
        Ok(())
    } else {
        Err(st.error(msg))
    }
}

/// Ends the token read so far and files it as an account or a hint.
fn pop_acc_or_hint_token(tree: &Trie, st: &mut State, node: usize, out_expr: &mut Expr) -> (r: Result<(), ParseError>)
    requires
        tree.wf(),
        node < tree.nodes@.len(),
        old(st).staging_token@ == tree.paths@[node as int],
        expr_tokens_in(*old(out_expr), tree.accounts@, tree.hints@),
    ensures
        final(st).ch == old(st).ch,
        final(st).pos == old(st).pos,
        final(st).pstate == old(st).pstate,
        final(st).pbitset == old(st).pbitset,
        expr_tokens_in(*final(out_expr), tree.accounts@, tree.hints@),
        final(out_expr).trans == old(out_expr).trans,
        r is Ok == pop_acc_v(*tree, node, old(st).staging_token@, expr_v(*old(out_expr))) is Some,
        r is Ok ==> expr_v(*final(out_expr)) == pop_acc_v(*tree, node, old(st).staging_token@, expr_v(*old(out_expr)))->0,
        match r {
            Ok(_) => final(st).staging_token@.len() == 0 && final(st).estate == ExprState::ExprPartAccAndHint(0)
                && tree.paths@[0].len() == 0,
            Err(e) => e.ch == old(st).ch && e.pos == old(st).pos,
        },
{
    if st.staging_token.len() == 0 {
        return Err(st.error("Account or hint is required"));
    }
    let kind = tree.nodes[node].kind;
    let tok = string_of(st.staging_token.as_slice());
    match kind {
        NodeKind::Staging => {
            return Err(st.error("Token is not a known account or hint"));
        },
        NodeKind::AccountToken => {
            out_expr.accounts.push(tok);
            assert(str_views(out_expr.accounts@) =~= str_views(old(out_expr).accounts@).push(st.staging_token@));
        },
        NodeKind::HintToken => {
            out_expr.hints.push(tok);
            assert(str_views(out_expr.hints@) =~= str_views(old(out_expr).hints@).push(st.staging_token@));
        },
    }
    st.staging_token.clear();
    st.estate = ExprState::ExprPartAccAndHint(0);
    Ok(())
}

/// Reads the digits gathered so far as the amount of the current sub-state.
fn pop_price_token(st: &mut State, out_trans: &mut ExprTrans) -> (r: Result<(), ParseError>)
    requires
        unsigned_literal(old(st).staging_token@),
    ensures
        trans_unsigned(*old(out_trans)) && r is Ok ==> trans_unsigned(*final(out_trans)),
        r is Ok == pop_price_v(old(st).staging_token@, old(st).pstate, trans_v(*old(out_trans))) is Some,
        r is Ok ==> trans_v(*final(out_trans)) == pop_price_v(old(st).staging_token@, old(st).pstate, trans_v(*old(out_trans)))->0,
        final(st).ch == old(st).ch,
        final(st).pos == old(st).pos,
        final(st).pstate == old(st).pstate,
        final(st).pbitset == old(st).pbitset,
        final(st).estate == old(st).estate,
        match r {
            Ok(_) => final(st).staging_token@.len() == 0,
            Err(e) => e.ch == old(st).ch && e.pos == old(st).pos,
        },
{
    let text = string_of(st.staging_token.as_slice());
    proof {
        lemma_unsigned_literal_nonneg(st.staging_token@);
    }
    let value = match Price::parse(text.as_str()) {
        Ok(v) => v,
        Err(_) => {
            return Err(st.error("Can not parse price"));
        },
    };
    match st.pstate {
        PriceState::Debit => {
            out_trans.price_debit = value;
        },
        PriceState::Credit => {
            out_trans.price_credit_chain.push(ExprCreditPrice::Credit(value));
        },
        PriceState::Reward => {
            out_trans.price_credit_chain.push(ExprCreditPrice::Reward(value));
        },
        PriceState::Shares => {
            return Err(st.error("Shares are not supported"));
        },
        PriceState::Multiple => {
            if value.fractional_part() != 0 || value.integer_part() < 0 {
                return Err(st.error("Multiple part should be an integer"));
            }
            out_trans.multiple = value.integer_part() as u32;
        },
        PriceState::Cashback => {
            out_trans.cash_backs.push(value);
        },
    }
    st.staging_token.clear();
    Ok(())
}

/// Enters a price sub-state, refusing one already visited in this leg
/// unless it may be re-entered.
fn change_pstate(st: &mut State, new_state: PriceState) -> (r: Result<(), ParseError>)
    ensures
        final(st).ch == old(st).ch,
        final(st).pos == old(st).pos,
        final(st).estate == old(st).estate,
        final(st).staging_token == old(st).staging_token,
        new_state == PriceState::Shares ==> r is Err,
        r is Ok == change_pstate_v(old(st).pbitset, new_state) is Some,
        r is Ok ==> (final(st).pstate, final(st).pbitset) == change_pstate_v(old(st).pbitset, new_state)->0,
        match r {
            Ok(_) => final(st).pstate == new_state,
            Err(e) => e.ch == old(st).ch && e.pos == old(st).pos,
        },
{
    let b = new_state.bit();
    if PRICE_STATE_REENTRANT_MASK & b == 0 && st.pbitset & b != 0 {
        return Err(st.error("Price sub-state, or one conflicting with it, has been entered"));
    }
    if new_state == PriceState::Shares {
        return Err(st.error("Shares are not supported"));
    }
    st.pstate = new_state;
    st.pbitset = st.pbitset | b;
    match new_state {
        PriceState::Credit => {
            st.pbitset = st.pbitset | PriceState::Reward.bit();
        },
        PriceState::Reward => {
            st.pbitset = st.pbitset | PriceState::Credit.bit();
        },
        PriceState::Cashback => {
            st.pbitset = st.pbitset | PRICE_STATE_ALL_MASK;
        },
        _ => {},
    }
    Ok(())
}

/// Whether `c` separates items of a line without starting a token.
fn is_blank(c: char) -> (r: bool)
    ensures
        r == (c == ' ' || c == '\t' || c == '\0'),
{
    c == ' ' || c == '\t' || c == '\0'
}

/// What the scanner keeps true between characters: registered tokens,
/// amounts without sign, a trie cursor that spells the pending token.
pub open spec fn scan_inv(
    tree: Trie,
    exprs: Seq<Expr>,
    expr: Expr,
    trans: ExprTrans,
    wc: Option<String>,
    wd: Option<String>,
    st: State,
) -> bool {
    &&& forall|k: int| 0 <= k < exprs.len() ==> expr_tokens_in(#[trigger] exprs[k], tree.accounts@, tree.hints@)
    &&& expr_tokens_in(expr, tree.accounts@, tree.hints@)
    &&& forall|k: int| 0 <= k < exprs.len() ==> expr_unsigned(#[trigger] exprs[k])
    &&& expr_unsigned(expr)
    &&& trans_unsigned(trans)
    &&& st.estate == ExprState::ExprPartPrice ==> unsigned_literal(st.staging_token@)
    &&& wc matches Some(w) ==> tree.accounts@.contains(w@)
    &&& wd matches Some(w) ==> tree.accounts@.contains(w@)
    &&& match st.estate {
        ExprState::ExprPartAccAndHint(nd) => nd < tree.nodes@.len() && st.staging_token@ == tree.paths@[nd as int],
        _ => true,
    }
}

/// The executable step agrees with `step`: it succeeds exactly when
/// `step` does, reaching `nv`.
pub open spec fn step_agrees(tree: Trie, cs: Seq<char>, i: int, sv: ScanV, ok: bool, nv: ScanV) -> bool {
    &&& ok == step(tree, cs, i, sv) is Some
    &&& ok ==> step(tree, cs, i, sv) == Some(nv)
}

proof fn lemma_empty_views(expr: Expr, trans: ExprTrans)
    requires
        expr.spec_is_empty(),
        trans.spec_is_empty(),
    ensures
        expr_v(expr) == empty_expr_v(),
        trans_v(trans) == default_trans_v(),
{
    assert(str_views(expr.accounts@) =~= Seq::<Seq<char>>::empty());
    assert(str_views(expr.hints@) =~= Seq::<Seq<char>>::empty());
    assert(expr.trans@.map_values(|t: ExprTrans| trans_v(t)) =~= Seq::<TransV>::empty());
    assert(trans.price_credit_chain@ =~= Seq::<ExprCreditPrice>::empty());
    assert(trans.cash_backs@ =~= Seq::<Price>::empty());
}

/// A blank character: ends the pending token, or the pending leg.
fn scan_blank(
    tree: &Trie,
    chars: &Vec<char>,
    i: usize,
    exprs: &Vec<Expr>,
    expr: &mut Expr,
    trans: &mut ExprTrans,
    wc: &Option<String>,
    wd: &Option<String>,
    st: &mut State,
) -> (r: Result<(), ParseError>)
    requires
        tree.wf(),
        i <= chars@.len(),
        is_blank_v(char_at(chars@, i as int)),
        scan_inv(*tree, exprs@, *old(expr), *old(trans), *wc, *wd, *old(st)),
    ensures
        step_agrees(
            *tree,
            chars@,
            i as int,
            scan_view(exprs@, *old(expr), *old(trans), *wc, *wd, *old(st)),
            r is Ok,
            scan_view(exprs@, *final(expr), *final(trans), *wc, *wd, *final(st)),
        ),
        r is Ok ==> scan_inv(*tree, exprs@, *final(expr), *final(trans), *wc, *wd, *final(st)),
        r matches Err(e) ==> e.ch == old(st).ch && e.pos == old(st).pos,
        final(st).ch == old(st).ch,
        final(st).pos == old(st).pos,
{
    let ghost sv = scan_view(exprs@, *expr, *trans, *wc, *wd, *st);
    match st.estate {
        ExprState::Swap => {},
        ExprState::ExprPartAccAndHint(node) => {
            if st.staging_token.len() != 0 {
                pop_acc_or_hint_token(tree, st, node, expr)?;
                assert(st.staging_token@ =~= Seq::<char>::empty());
            }
        },
        ExprState::ExprPartPrice => {
            let ghost e0 = *expr;
            if st.staging_token.len() != 0 {
                pop_price_token(st, trans)?;
                assert(st.staging_token@ =~= Seq::<char>::empty());
                let ghost tv = trans_v(*trans);
                let mut done = ExprTrans::default();
                std::mem::swap(trans, &mut done);
                expr.trans.push(done);
                proof {
                    assert(expr.trans@.map_values(|t: ExprTrans| trans_v(t))
                        =~= e0.trans@.map_values(|t: ExprTrans| trans_v(t)).push(tv));
                    assert(trans.price_credit_chain@ =~= Seq::<ExprCreditPrice>::empty());
                    assert(trans.cash_backs@ =~= Seq::<Price>::empty());
                    assert(trans_v(*trans) == default_trans_v());
                    assert forall|j: int| 0 <= j < expr.trans@.len() implies trans_unsigned(#[trigger] expr.trans@[j]) by {
                        if j < e0.trans@.len() {
                            assert(expr.trans@[j] == e0.trans@[j]);
                        }
                    }
                }
            }
            st.pbitset = 0;
            proof {
                assert(0u8 & 1u8 == 0u8) by (bit_vector);
            }
            change_pstate(st, PriceState::Debit)?;
        },
    }
    Ok(())
}

/// A character while reading an account or hint token.
fn scan_token_char(
    tree: &Trie,
    chars: &Vec<char>,
    i: usize,
    exprs: &Vec<Expr>,
    expr: &mut Expr,
    trans: &ExprTrans,
    wc: &Option<String>,
    wd: &Option<String>,
    st: &mut State,
    node: usize,
) -> (r: Result<(), ParseError>)
    requires
        tree.wf(),
        i <= chars@.len(),
        old(st).estate == ExprState::ExprPartAccAndHint(node),
        !is_blank_v(char_at(chars@, i as int)),
        !is_quote(char_at(chars@, i as int)),
        scan_inv(*tree, exprs@, *old(expr), *trans, *wc, *wd, *old(st)),
    ensures
        step_agrees(
            *tree,
            chars@,
            i as int,
            scan_view(exprs@, *old(expr), *trans, *wc, *wd, *old(st)),
            r is Ok,
            scan_view(exprs@, *final(expr), *trans, *wc, *wd, *final(st)),
        ),
        r is Ok ==> scan_inv(*tree, exprs@, *final(expr), *trans, *wc, *wd, *final(st)),
        r matches Err(e) ==> e.ch == old(st).ch && e.pos == old(st).pos,
        final(st).ch == old(st).ch,
        final(st).pos == old(st).pos,
{
    let ch = if i < chars.len() { chars[i] } else { '\0' };
    let ghost sv = scan_view(exprs@, *expr, *trans, *wc, *wd, *st);
    match tree.find(node, ch) {
        Some(nn) => {
            st.staging_token.push(ch);
            st.estate = ExprState::ExprPartAccAndHint(nn);
        },
        None => {
            if st.staging_token.len() != 0 {
                pop_acc_or_hint_token(tree, st, node, expr)?;
                assert(st.staging_token@ =~= Seq::<char>::empty());
            }
            let ghost s1 = scan_view(exprs@, *expr, *trans, *wc, *wd, *st);
            assert(flush_token_v(*tree, node, sv) == Some(s1));
            if ('0' <= ch && ch <= '9') || ch == '+' {
                let ghost acc0 = str_views(expr.accounts@);
                let ghost ex0 = *expr;
                if expr.accounts.len() <= 1 {
                    if let Some(w) = wc {
                        expr.accounts.insert(0, w.clone());
                        assert(str_views(expr.accounts@) =~= acc0.insert(0, w@));
                        assert forall|j: int| 0 <= j < expr.accounts@.len() implies tree.accounts@.contains(
                            #[trigger] expr.accounts@[j]@,
                        ) by {
                            if j > 0 {
                                assert(expr.accounts@[j] == ex0.accounts@[j - 1]);
                            }
                        }
                    }
                }
                let ghost acc1 = str_views(expr.accounts@);
                if expr.accounts.len() <= 1 {
                    if let Some(w) = wd {
                        expr.accounts.push(w.clone());
                        assert(str_views(expr.accounts@) =~= acc1.push(w@));
                    }
                }
                st.estate = ExprState::ExprPartPrice;
                st.pbitset = 0;
                proof {
                    assert(0u8 & 1u8 == 0u8) by (bit_vector);
                }
                change_pstate(st, PriceState::Debit)?;
                st.staging_token.push(ch);
                assert(st.staging_token@ =~= seq![ch]);
            } else {
                st.staging_token.clear();
                begin_or_fail(tree, st, Some(ch), "The next account or hint begins with an unknown token")?;
            }
        },
    }
    Ok(())
}

/// A character after an amount: a digit, a mark that changes the
/// sub-state, or a separator that ends the sub-expression.
#[verifier::rlimit(30)]
fn scan_price_char(
    tree: &Trie,
    chars: &Vec<char>,
    i: usize,
    exprs: &mut Vec<Expr>,
    expr: &mut Expr,
    trans: &mut ExprTrans,
    wc: &mut Option<String>,
    wd: &mut Option<String>,
    st: &mut State,
) -> (r: Result<(), ParseError>)
    requires
        tree.wf(),
        i <= chars@.len(),
        old(st).estate == ExprState::ExprPartPrice,
        !is_blank_v(char_at(chars@, i as int)),
        !is_quote(char_at(chars@, i as int)),
        scan_inv(*tree, old(exprs)@, *old(expr), *old(trans), *old(wc), *old(wd), *old(st)),
    ensures
        step_agrees(
            *tree,
            chars@,
            i as int,
            scan_view(old(exprs)@, *old(expr), *old(trans), *old(wc), *old(wd), *old(st)),
            r is Ok,
            scan_view(final(exprs)@, *final(expr), *final(trans), *final(wc), *final(wd), *final(st)),
        ),
        r is Ok ==> scan_inv(*tree, final(exprs)@, *final(expr), *final(trans), *final(wc), *final(wd), *final(st)),
        r matches Err(e) ==> e.ch == old(st).ch && e.pos == old(st).pos,
        final(st).ch == old(st).ch,
        final(st).pos == old(st).pos,
{
    let ch = if i < chars.len() { chars[i] } else { '\0' };
    let ghost sv = scan_view(exprs@, *expr, *trans, *wc, *wd, *st);
    if ('0' <= ch && ch <= '9') || ch == '.' {
        st.staging_token.push(ch);
        return Ok(());
    }
    if st.staging_token.len() != 0 {
        pop_price_token(st, trans)?;
        assert(st.staging_token@ =~= Seq::<char>::empty());
    }
    let ghost s1 = scan_view(exprs@, *expr, *trans, *wc, *wd, *st);
    assert(flush_price_v(sv) == Some(s1));
    if ch == '-' {
        change_pstate(st, PriceState::Reward)?;
    } else if ch == '@' {
        change_pstate(st, PriceState::Credit)?;
    } else if ch == 'x' || ch == '*' {
        change_pstate(st, PriceState::Multiple)?;
    } else if ch == '/' {
        change_pstate(st, PriceState::Shares)?;
    } else if ch == '+' {
        change_pstate(st, PriceState::Cashback)?;
    } else {
        let comma = ch == ',' || ch == '\u{ff0c}';
        let semicolon = ch == ';' || ch == '\u{ff1b}';
        if expr.accounts.len() >= 2 && comma {
            *wc = Some(expr.accounts[1].clone());
        } else if expr.accounts.len() >= 2 && semicolon {
            *wd = Some(expr.accounts[1].clone());
        } else if expr.accounts.len() >= 1 {
            *wc = Some(expr.accounts[0].clone());
        }
        let ghost e0 = *expr;
        let ghost t0 = *trans;
        if !trans.is_empty() {
            let mut done = ExprTrans::default();
            std::mem::swap(trans, &mut done);
            expr.trans.push(done);
            proof {
                assert(expr.trans@.map_values(|t: ExprTrans| trans_v(t))
                    =~= e0.trans@.map_values(|t: ExprTrans| trans_v(t)).push(trans_v(t0)));
                assert(trans.price_credit_chain@ =~= Seq::<ExprCreditPrice>::empty());
                assert(trans.cash_backs@ =~= Seq::<Price>::empty());
                assert(trans_v(*trans) == default_trans_v());
                assert forall|j: int| 0 <= j < expr.trans@.len() implies trans_unsigned(#[trigger] expr.trans@[j]) by {
                    if j < e0.trans@.len() {
                        assert(expr.trans@[j] == e0.trans@[j]);
                    }
                }
            }
        }
        let ghost xs0 = exprs@;
        let mut done = Expr::new();
        std::mem::swap(expr, &mut done);
        exprs.push(done);
        proof {
            assert(exprs_v(exprs@) =~= exprs_v(xs0).push(expr_v(done)));
            assert(str_views(expr.accounts@) =~= Seq::<Seq<char>>::empty());
            assert(str_views(expr.hints@) =~= Seq::<Seq<char>>::empty());
            assert(expr.trans@.map_values(|t: ExprTrans| trans_v(t)) =~= Seq::<TransV>::empty());
        }
        st.staging_token.clear();
        begin_or_fail(
            tree,
            st,
            if comma || semicolon { None } else { Some(ch) },
            "Sub-expression begins with an unknown token",
        )?;
    }
    Ok(())
}

/// What scanning `chars` with `tree` yields: the sub-expressions and
/// comment of the final state of `run`, or an error exactly when `run`
/// fails, carrying the character and byte offset of the failing step.
pub open spec fn scan_outcome(tree: Trie, chars: Seq<char>, r: Result<CompoundExpr, ParseError>) -> bool {
    match r {
        Ok(ce) => {
            &&& compound_tokens_in(ce, tree.accounts@, tree.hints@)
            &&& compound_unsigned(ce)
            &&& match ce.comment {
                Some(c) => exists|k: int|
                    0 <= k < chars.len() - 1 && is_quote(#[trigger] chars[k]) && c@ == chars.skip(k + 1),
                None => true,
            }
            &&& run(tree, chars, (chars.len() + 1) as nat) matches Some(fin)
            &&& exprs_v(ce.exprs@) == finish_exprs(fin)
            &&& opt_str_view(ce.comment) == fin.comment
        },
        Err(e) => {
            &&& scan_fails(tree, chars, e.ch, e.pos as int)
            &&& run(tree, chars, (chars.len() + 1) as nat) is None
        },
    }
}

/// Runs the scanner over `chars` followed by an end sentinel.
fn scan(tree: &Trie, st: &mut State, chars: &Vec<char>) -> (r: Result<CompoundExpr, ParseError>)
    requires
        tree.wf(),
        old(st).staging_token@.len() == 0,
        old(st).pstate == PriceState::Debit,
        old(st).pbitset == 0,
        4 * chars@.len() < usize::MAX,
    ensures
        scan_outcome(*tree, chars@, r),
{
    let n = chars.len();
    let mut exprs: Vec<Expr> = Vec::new();
    let mut expr = Expr::new();
    let mut trans = ExprTrans::default();
    let mut weak_credit_acc: Option<String> = None;
    let mut weak_debit_acc: Option<String> = None;
    let ghost t = *tree;
    let ghost cs = chars@;
    begin_acc_or_hint(tree, st, None);
    let mut i: usize = 0;
    let mut byte_pos: usize = 0;
    proof {
        lemma_utf8_len_bound(chars@);
        assert(exprs_v(exprs@) =~= Seq::<ExprV>::empty());
        lemma_empty_views(expr, trans);
        assert(st.staging_token@ =~= Seq::<char>::empty());
        assert(scan_view(exprs@, expr, trans, weak_credit_acc, weak_debit_acc, *st) == scan_init());
    }
    while i <= n
        invariant
            tree.wf(),
            t == *tree,
            cs == chars@,
            n == chars@.len(),
            4 * n < usize::MAX,
            i <= n + 1,
            i <= n ==> byte_pos == utf8_len(chars@.take(i as int)),
            byte_pos <= 4 * i,
            scan_inv(t, exprs@, expr, trans, weak_credit_acc, weak_debit_acc, *st),
            run(t, cs, i as nat) == Some(scan_view(exprs@, expr, trans, weak_credit_acc, weak_debit_acc, *st)),
        decreases n + 1 - i,
    {
        let ch = if i < n { chars[i] } else { '\0' };
        st.ch = ch;
        st.pos = byte_pos;
        let ghost k = i as int;
        let ghost sv = scan_view(exprs@, expr, trans, weak_credit_acc, weak_debit_acc, *st);
        assert(ch == char_at(cs, k));
        assert(error_at(chars@, k, st.ch, st.pos as int));
        let res = if is_blank(ch) {
            scan_blank(tree, chars, i, &exprs, &mut expr, &mut trans, &weak_credit_acc, &weak_debit_acc, st)
        } else if ch == '\'' || ch == '\u{2018}' || ch == '\u{2019}' {
            if i + 1 < n {
                let c = string_of_range(chars, i + 1, n);
                assert(chars@.subrange(i + 1, n as int) == chars@.skip(i + 1));
                let ghost fin = ScanV { comment: Some(cs.subrange(k + 1, n as int)), ..sv };
                let ghost e0 = exprs@;
                if !expr.is_empty() {
                    exprs.push(expr);
                    assert(exprs_v(exprs@) =~= exprs_v(e0).push(expr_v(expr)));
                }
                proof {
                    assert(step(t, cs, k, sv) == Some(fin));
                    lemma_run_comment_stays(t, cs, (k + 1) as nat, (n + 1) as nat);
                    assert(expr_empty_v(expr_v(expr)) == expr.spec_is_empty());
                }
                let ce = CompoundExpr { exprs, comment: Some(c) };
                return Ok(ce);
            }
            Ok(())
        } else {
            match st.estate {
                ExprState::Swap => Ok(()),
                ExprState::ExprPartAccAndHint(node) => scan_token_char(
                    tree,
                    chars,
                    i,
                    &exprs,
                    &mut expr,
                    &trans,
                    &weak_credit_acc,
                    &weak_debit_acc,
                    st,
                    node,
                ),
                ExprState::ExprPartPrice => scan_price_char(
                    tree,
                    chars,
                    i,
                    &mut exprs,
                    &mut expr,
                    &mut trans,
                    &mut weak_credit_acc,
                    &mut weak_debit_acc,
                    st,
                ),
            }
        };
        match res {
            Ok(_) => {
                assert(run(t, cs, (k + 1) as nat) == Some(scan_view(exprs@, expr, trans, weak_credit_acc, weak_debit_acc, *st)));
            },
            Err(e) => {
                proof {
                    assert(step(t, cs, k, sv) is None);
                    assert(run(t, cs, (k + 1) as nat) is None);
                    lemma_run_none_stays(t, cs, (k + 1) as nat, (n + 1) as nat);
                }
                assert(exists|kk: int| error_at(chars@, kk, e.ch, e.pos as int));
                assert(run(t, cs, (cs.len() + 1) as nat) is None);
                assert(fails_at(t, cs, k, e.ch, e.pos as int));
                assert(scan_fails(t, cs, e.ch, e.pos as int));
                let r = Err(e);
                assert(scan_outcome(t, cs, r));
                return r;
            },
        }
        if i < n {
            proof {
                assert(chars@.take(i + 1).drop_last() == chars@.take(i as int));
            }
            byte_pos = byte_pos + utf8_width(ch);
        }
        i = i + 1;
    }
    let ghost e0 = exprs@;
    if !expr.is_empty() {
        exprs.push(expr);
        assert(exprs_v(exprs@) =~= exprs_v(e0).push(expr_v(expr)));
    }
    assert(expr_empty_v(expr_v(expr)) == expr.spec_is_empty());
    Ok(CompoundExpr { exprs, comment: None })
}

} // verus!
