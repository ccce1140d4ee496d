//! Output generators: the plain text rendering and GnuCash CSV rows.

use vstd::prelude::*;
use vstd::string::*;
use crate::price::price_text;
use crate::transaction::{Amount, Entry, Transaction, transaction_text};

verus! {

/// Which output generator to use.
#[derive(Debug, Clone, Copy, PartialEq, Eq, Structural)]
pub enum DataGenKind {
    Str,
    GnuCash,
}

/// One of the output generators.
#[derive(Debug)]
pub enum DataGenDispatch {
    Str(DataGenImplStr),
    GnuCash(DataGenImpl),
}

impl DataGenDispatch {
    pub fn new(kind: DataGenKind) -> (r: DataGenDispatch)
        ensures
            kind == DataGenKind::Str ==> r is Str,
            kind == DataGenKind::GnuCash ==> r is GnuCash,
    {
        match kind {
            DataGenKind::Str => DataGenDispatch::Str(DataGenImplStr),
            DataGenKind::GnuCash => DataGenDispatch::GnuCash(DataGenImpl::new()),
        }
    }
}

/// Plain text output: each transaction's text followed by an empty line.
#[derive(Debug)]
pub struct DataGenImplStr;

/// The text of `ts`, each followed by a newline.
pub open spec fn texts(ts: Seq<Transaction>) -> Seq<char>
    decreases ts.len(),
{
    if ts.len() == 0 {
        Seq::empty()
    } else {
        texts(ts.drop_last()) + transaction_text(ts.last()) + "\n"@
    }
}

impl DataGenImplStr {
    pub fn gen_to_string(&self, transactions: &[Transaction], number: u32) -> (r: String)
        ensures
            r@ == texts(transactions@),
    {
        let mut out = String::new();
        let mut i: usize = 0;
        while i < transactions.len()
            invariant
                i <= transactions@.len(),
                out@ == texts(transactions@.take(i as int)),
            decreases transactions@.len() - i,
        {
            let t = transactions[i].to_text();
            out.append(t.as_str());
            out.append("\n");
            proof {
                assert(transactions@.take(i + 1).drop_last() == transactions@.take(i as int));
                assert(transactions@.take(i + 1).last() == transactions@[i as int]);
            }
            i = i + 1;
        }
        assert(transactions@.take(i as int) == transactions@);
        out
    }
}

/// GnuCash CSV output.
#[derive(Debug)]
pub struct DataGenImpl;

/// One GnuCash CSV row.
#[derive(Debug)]
pub struct GnuCashRow {
    pub date: String,
    pub transaction_id: String,
    pub number: u32,
    pub description: String,
    pub reconcile: String,
    pub full_account_name: String,
    pub amount_num: String,
    pub value_num: String,
}

/// The description a row carries: a blank stands in for an empty one.
pub open spec fn row_description(t: Transaction) -> Seq<char> {
    let d = match t.description {
        Some(d) => d@,
        None => Seq::empty(),
    };
    if d.len() == 0 { " "@ } else { d }
}

/// Row `r` posts entry `e` of transaction `t`; credits carry a minus sign.
pub open spec fn row_for(r: GnuCashRow, t: Transaction, e: Entry, id: Seq<char>, number: u32, credit: bool) -> bool {
    let amount = match e.amount {
        Amount::Price(p) => price_text(p.0 as int),
    };
    let signed = if credit { "-"@ + amount } else { amount };
    &&& r.date@ == crate::date::date_text(t.date)
    &&& r.transaction_id@ == id
    &&& r.number as int == (number as int + t.num_base as int) % 0x1_0000_0000
    &&& r.description@ == row_description(t)
    &&& r.reconcile@ == "n"@
    &&& r.full_account_name@ == e.account@
    &&& r.amount_num@ == signed
    &&& r.value_num@ == signed
}

impl DataGenImpl {
    pub fn new() -> (r: DataGenImpl) {
        DataGenImpl
    }

    /// The amount column of an entry.
    pub fn amount_to_amount(amount: &Amount) -> (r: String)
        ensures
            match amount {
                Amount::Price(p) => r@ == price_text(p.0 as int),
            },
    {
        amount.render()
    }

    /// The value column of an entry.
    pub fn amount_to_value(amount: &Amount) -> (r: String)
        ensures
            match amount {
                Amount::Price(p) => r@ == price_text(p.0 as int),
            },
    {
        amount.render()
    }

    fn row(t: &Transaction, e: &Entry, id: &String, number: u32, credit: bool) -> (r: GnuCashRow)
        ensures
            row_for(r, *t, *e, id@, number, credit),
    {
        let mut description = match &t.description {
            Some(d) => d.clone(),
            None => String::new(),
        };
        if description.as_str().unicode_len() == 0 {
            description = String::from_str(" ");
        }
        let mut amount_num = if credit { String::from_str("-") } else { String::new() };
        let a = Self::amount_to_amount(&e.amount);
        amount_num.append(a.as_str());
        let mut value_num = if credit { String::from_str("-") } else { String::new() };
        let v = Self::amount_to_value(&e.amount);
        value_num.append(v.as_str());
        proof {
            if !credit {
                assert(amount_num@ =~= a@);
                assert(value_num@ =~= v@);
            }
        }
        GnuCashRow {
            date: t.date.render(),
            transaction_id: id.clone(),
            number: number.wrapping_add(t.num_base),
            description,
            reconcile: String::from_str("n"),
            full_account_name: e.account.clone(),
            amount_num,
            value_num,
        }
    }

    /// The rows of one transaction: its credit entries, then its debit
    /// entries, all under the transaction id `id`.
    pub fn rows(&self, t: &Transaction, id: &String, number: u32) -> (r: Vec<GnuCashRow>)
        ensures
            r@.len() == t.credit_entries@.len() + t.debit_entries@.len(),
            forall|i: int| 0 <= i < t.credit_entries@.len() ==> row_for(#[trigger] r@[i], *t, t.credit_entries@[i], id@, number, true),
            forall|i: int| 0 <= i < t.debit_entries@.len() ==> row_for(
                #[trigger] r@[t.credit_entries@.len() + i],
                *t,
                t.debit_entries@[i],
                id@,
                number,
                false,
            ),
    {
        let mut r: Vec<GnuCashRow> = Vec::new();
        let mut i: usize = 0;
        while i < t.credit_entries.len()
            invariant
                i <= t.credit_entries@.len(),
                r@.len() == i,
                forall|j: int| 0 <= j < i ==> row_for(#[trigger] r@[j], *t, t.credit_entries@[j], id@, number, true),
            decreases t.credit_entries@.len() - i,
        {
            r.push(Self::row(t, &t.credit_entries[i], id, number, true));
            i = i + 1;
        }
        let nc = t.credit_entries.len();
        let mut i: usize = 0;
        while i < t.debit_entries.len()
            invariant
                nc == t.credit_entries@.len(),
                i <= t.debit_entries@.len(),
                r@.len() == nc + i,
                forall|j: int| 0 <= j < nc ==> row_for(#[trigger] r@[j], *t, t.credit_entries@[j], id@, number, true),
                forall|j: int| 0 <= j < i ==> row_for(#[trigger] r@[nc + j], *t, t.debit_entries@[j], id@, number, false),
            decreases t.debit_entries@.len() - i,
        {
            r.push(Self::row(t, &t.debit_entries[i], id, number, false));
            i = i + 1;
        }
        r
    }
}

} // verus!
