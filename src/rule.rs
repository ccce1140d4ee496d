//! Rule documents and their compiled form.

use vstd::prelude::*;
use crate::error::Error;
use crate::text::{chars_of, int_body, lemma_nat_text, nat_text, parse_index, parse_int_in};
use crate::transaction::contains_token;

verus! {

/// The side a rule entry applies to.
#[derive(Clone, Copy, Debug, PartialEq, Eq, Structural)]
pub enum UserRuleSide {
    Debit,
    Credit,
}

/// One entry of a ruleset as written in a rule document.
#[derive(Debug)]
pub struct UserRuleRuleEntry {
    pub token: Vec<String>,
    pub side: Option<UserRuleSide>,
    pub hint: Vec<String>,
    pub opposite: Vec<String>,
    pub debit: Vec<String>,
    pub credit: Vec<String>,
    pub account: Option<String>,
    /// A ruleset name followed by the arguments for `$1`, `$2`, ...
    pub import: Vec<String>,
}

/// A rule document: fallback account, hint tokens, tags of accounts and
/// named rulesets.
#[derive(Debug)]
pub struct UserRule {
    pub fallback: String,
    pub hints: Vec<String>,
    /// Account token and the tags it carries.
    pub tags: Vec<(String, Vec<String>)>,
    /// Ruleset name and its entries.
    pub ruleset: Vec<(String, Vec<UserRuleRuleEntry>)>,
}

/// Which raw token a compiled entry checks.
#[derive(Clone, Copy, Debug, PartialEq, Eq, Structural)]
pub enum CookedRuleEntryAccCheckTarget {
    NoOne,
    Debit,
    Credit,
    Opposite,
}

/// A compiled rule entry.
#[derive(Debug)]
pub struct CookedRuleEntry {
    pub side: Option<UserRuleSide>,
    pub hint_check_list: Vec<String>,
    pub acc_check_target: CookedRuleEntryAccCheckTarget,
    pub acc_check_list: Vec<String>,
    pub account: String,
}

/// A compiled rule document.
#[derive(Debug)]
pub struct CookedRule {
    pub fallback: String,
    pub accounts: Vec<String>,
    pub hints: Vec<String>,
    /// Tag and the accounts that carry it.
    pub tags: Vec<(String, Vec<String>)>,
    /// Account token and the entries that resolve it, in order.
    pub ruleset_main: Vec<(String, Vec<CookedRuleEntry>)>,
    pub ruleset_reward: Vec<CookedRuleEntry>,
}

pub open spec fn views(v: Seq<String>) -> Seq<Seq<char>> {
    v.map_values(|s: String| s@)
}

pub open spec fn opt_view(o: Option<String>) -> Option<Seq<char>> {
    match o {
        Some(s) => Some(s@),
        None => None,
    }
}

/// `s` with a `$N` placeholder replaced by argument `N` (counting from 1)
/// when there is such an argument.
pub open spec fn patch_one(s: Seq<char>, args: Seq<Seq<char>>) -> Seq<char> {
    if s.len() > 0 && s[0] == '$' {
        match parse_int_in(s.drop_first(), false, 0, usize::MAX as int) {
            Some(idx) => if 1 <= idx <= args.len() { args[idx - 1] } else { s },
            None => s,
        }
    } else {
        s
    }
}

pub open spec fn patch_all(v: Seq<Seq<char>>, args: Seq<Seq<char>>) -> Seq<Seq<char>> {
    v.map_values(|s: Seq<char>| patch_one(s, args))
}

pub open spec fn pick(mine: Seq<Seq<char>>, theirs: Seq<Seq<char>>) -> Seq<Seq<char>> {
    if mine.len() > 0 { mine } else { theirs }
}

/// An entry's fields as plain values.
pub struct EntryV {
    pub token: Seq<Seq<char>>,
    pub side: Option<UserRuleSide>,
    pub hint: Seq<Seq<char>>,
    pub opposite: Seq<Seq<char>>,
    pub debit: Seq<Seq<char>>,
    pub credit: Seq<Seq<char>>,
    pub account: Option<Seq<char>>,
    pub import: Seq<Seq<char>>,
}

pub open spec fn entry_v(e: UserRuleRuleEntry) -> EntryV {
    EntryV {
        token: views(e.token@),
        side: e.side,
        hint: views(e.hint@),
        opposite: views(e.opposite@),
        debit: views(e.debit@),
        credit: views(e.credit@),
        account: opt_view(e.account),
        import: views(e.import@),
    }
}

/// What entry `e` of an imported ruleset becomes inside the importing
/// entry `imp`: each non-empty field of `imp` overrides the field of `e`,
/// then `$N` placeholders in the account, hint and check fields take
/// argument `N` of the import.
pub open spec fn import_v(imp: EntryV, e: EntryV, args: Seq<Seq<char>>) -> EntryV {
    EntryV {
        token: pick(imp.token, e.token),
        side: if imp.side is Some { imp.side } else { e.side },
        hint: patch_all(pick(imp.hint, e.hint), args),
        opposite: patch_all(pick(imp.opposite, e.opposite), args),
        debit: patch_all(pick(imp.debit, e.debit), args),
        credit: patch_all(pick(imp.credit, e.credit), args),
        account: match (if imp.account is Some { imp.account } else { e.account }) {
            Some(a) => Some(patch_one(a, args)),
            None => None,
        },
        import: Seq::empty(),
    }
}

/// The placeholder text `$N`.
pub open spec fn placeholder(n: nat) -> Seq<char> {
    seq!['$'] + nat_text(n)
}

/// Importing a ruleset: every field the importing entry gives replaces the
/// imported entry's, the others are kept; then a member or account that is
/// exactly the placeholder `$N` becomes argument `N` of the import, and an
/// argument-free text is left as it is.
pub proof fn lemma_import_law(imp: EntryV, e: EntryV, args: Seq<Seq<char>>, k: nat)
    requires
        1 <= k <= args.len(),
        k <= usize::MAX,
    ensures
        import_v(imp, e, args).token == (if imp.token.len() > 0 { imp.token } else { e.token }),
        import_v(imp, e, args).side == (if imp.side is Some { imp.side } else { e.side }),
        patch_one(placeholder(k), args) == args[k - 1],
        forall|j: int| 0 <= j < e.hint.len() && imp.hint.len() == 0 && e.hint[j] == placeholder(k)
            ==> #[trigger] import_v(imp, e, args).hint[j] == args[k - 1],
        forall|j: int| 0 <= j < e.opposite.len() && imp.opposite.len() == 0 && e.opposite[j] == placeholder(k)
            ==> #[trigger] import_v(imp, e, args).opposite[j] == args[k - 1],
        forall|j: int| 0 <= j < e.debit.len() && imp.debit.len() == 0 && e.debit[j] == placeholder(k)
            ==> #[trigger] import_v(imp, e, args).debit[j] == args[k - 1],
        forall|j: int| 0 <= j < e.credit.len() && imp.credit.len() == 0 && e.credit[j] == placeholder(k)
            ==> #[trigger] import_v(imp, e, args).credit[j] == args[k - 1],
        imp.account is None && e.account == Some(placeholder(k)) ==> import_v(imp, e, args).account == Some(args[k - 1]),
        forall|s: Seq<char>| (s.len() == 0 || s[0] != '$') ==> #[trigger] patch_one(s, args) == s,
{
    let p = placeholder(k);
    lemma_nat_text(k);
    assert(p.drop_first() =~= nat_text(k));
    assert(nat_text(k)[0] != '-' && nat_text(k)[0] != '+');
    assert(int_body(nat_text(k), false) == nat_text(k));
    assert(parse_int_in(p.drop_first(), false, 0, usize::MAX as int) == Some(k as int));
}

/// A copy of the strings of `v`.
pub fn copy_strings(v: &Vec<String>) -> (r: Vec<String>)
    ensures
        r@ == v@,
{
    let mut r: Vec<String> = Vec::new();
    let mut i: usize = 0;
    while i < v.len()
        invariant
            i <= v@.len(),
            r@ == v@.take(i as int),
        decreases v@.len() - i,
    {
        r.push(v[i].clone());
        i = i + 1;
        assert(r@ =~= v@.take(i as int));
    }
    assert(v@.take(i as int) == v@);
    r
}

/// `s` with its `$N` placeholder, if any, replaced from `args`.
pub fn patch_string_for_arg(s: &String, args: &Vec<String>) -> (r: String)
    ensures
        r@ == patch_one(s@, views(args@)),
{
    let cs = chars_of(s.as_str());
    if cs.len() > 0 && cs[0] == '$' {
        let n = cs.len();
        proof {
            assert(cs@.subrange(1, n as int) == s@.drop_first());
        }
        if let Some(k) = parse_index(&cs, 1, n) {
            if 1 <= k && k <= args.len() {
                let r = args[k - 1].clone();
                assert(views(args@)[k - 1] == args@[k - 1]@);
                return r;
            }
        }
    }
    s.clone()
}

/// Replaces `$N` placeholders in every member of `list`.
pub fn patch_list_of_string_for_arg(list: &Vec<String>, args: &Vec<String>) -> (r: Vec<String>)
    ensures
        views(r@) == patch_all(views(list@), views(args@)),
{
    let mut r: Vec<String> = Vec::new();
    let mut i: usize = 0;
    while i < list.len()
        invariant
            i <= list@.len(),
            r@.len() == i,
            forall|j: int| 0 <= j < i ==> #[trigger] r@[j]@ == patch_one(list@[j]@, views(args@)),
        decreases list@.len() - i,
    {
        let p = patch_string_for_arg(&list[i], args);
        r.push(p);
        i = i + 1;
    }
    assert(views(r@) =~= patch_all(views(list@), views(args@)));
    r
}

/// `mine` where it is non-empty, else `theirs`.
fn pick_list(mine: &Vec<String>, theirs: &Vec<String>) -> (r: Vec<String>)
    ensures
        r@ == (if mine@.len() > 0 { mine@ } else { theirs@ }),
{
    if mine.len() > 0 {
        copy_strings(mine)
    } else {
        copy_strings(theirs)
    }
}

/// The entry `e` of an imported ruleset as it stands inside the importing
/// entry `imp`, whose import arguments are `args`.
pub fn import_entry(imp: &UserRuleRuleEntry, e: &UserRuleRuleEntry, args: &Vec<String>) -> (r: UserRuleRuleEntry)
    ensures
        entry_v(r) == import_v(entry_v(*imp), entry_v(*e), views(args@)),
{
    let token = pick_list(&imp.token, &e.token);
    let side = if imp.side.is_some() { imp.side } else { e.side };
    let hint = patch_list_of_string_for_arg(&pick_list(&imp.hint, &e.hint), args);
    let opposite = patch_list_of_string_for_arg(&pick_list(&imp.opposite, &e.opposite), args);
    let debit = patch_list_of_string_for_arg(&pick_list(&imp.debit, &e.debit), args);
    let credit = patch_list_of_string_for_arg(&pick_list(&imp.credit, &e.credit), args);
    let account = match &imp.account {
        Some(a) => Some(patch_string_for_arg(a, args)),
        None => match &e.account {
            Some(a) => Some(patch_string_for_arg(a, args)),
            None => None,
        },
    };
    let r = UserRuleRuleEntry { token, side, hint, opposite, debit, credit, account, import: Vec::new() };
    assert(views(r.import@) =~= Seq::<Seq<char>>::empty());
    r
}

/// A copy of an entry, without its import.
pub fn copy_entry(e: &UserRuleRuleEntry) -> (r: UserRuleRuleEntry)
    ensures
        r.token@ == e.token@,
        r.side == e.side,
        r.hint@ == e.hint@,
        r.opposite@ == e.opposite@,
        r.debit@ == e.debit@,
        r.credit@ == e.credit@,
        r.account == e.account,
        r.import@ == e.import@,
{
    UserRuleRuleEntry {
        token: copy_strings(&e.token),
        side: e.side,
        hint: copy_strings(&e.hint),
        opposite: copy_strings(&e.opposite),
        debit: copy_strings(&e.debit),
        credit: copy_strings(&e.credit),
        account: match &e.account {
            Some(a) => Some(a.clone()),
            None => None,
        },
        import: copy_strings(&e.import),
    }
}

/// Ruleset names and their entries as plain values.
pub open spec fn rulesets_v(m: Seq<(String, Vec<UserRuleRuleEntry>)>) -> Seq<(Seq<char>, Seq<EntryV>)> {
    m.map_values(|p: (String, Vec<UserRuleRuleEntry>)| (p.0@, p.1@.map_values(|e: UserRuleRuleEntry| entry_v(e))))
}

/// The entries of the first ruleset named `name`.
pub open spec fn lookup_ruleset(m: Seq<(Seq<char>, Seq<EntryV>)>, name: Seq<char>) -> Option<Seq<EntryV>>
    decreases m.len(),
{
    if m.len() == 0 {
        None
    } else if m[0].0 == name {
        Some(m[0].1)
    } else {
        lookup_ruleset(m.drop_first(), name)
    }
}

/// Ruleset `name` with its imports spliced in, following at most `depth`
/// levels of imports; `None` when a ruleset is missing or the imports nest
/// deeper.
pub open spec fn collect_spec(m: Seq<(Seq<char>, Seq<EntryV>)>, name: Seq<char>, depth: nat) -> Option<Seq<EntryV>>
    decreases depth, 1nat, 0nat,
{
    if depth == 0 {
        None
    } else {
        match lookup_ruleset(m, name) {
            None => None,
            Some(es) => collect_list(m, es, depth),
        }
    }
}

/// The entries `es` with their imports spliced in.
pub open spec fn collect_list(m: Seq<(Seq<char>, Seq<EntryV>)>, es: Seq<EntryV>, depth: nat) -> Option<Seq<EntryV>>
    decreases depth, 0nat, es.len(),
{
    if es.len() == 0 {
        Some(Seq::empty())
    } else {
        match collect_list(m, es.drop_last(), depth) {
            None => None,
            Some(prefix) => {
                let e = es.last();
                if e.import.len() > 0 {
                    if depth == 0 {
                        None
                    } else {
                        match collect_spec(m, e.import[0], (depth - 1) as nat) {
                            None => None,
                            Some(sub) => Some(prefix + sub.map_values(|x: EntryV| import_v(e, x, e.import.drop_first()))),
                        }
                    }
                } else {
                    Some(prefix.push(e))
                }
            }
        }
    }
}

/// Collecting splices, at the position of an importing entry, the imported
/// ruleset's entries as `import_v` makes them, in order; an entry without
/// import is kept as it is.
pub proof fn lemma_collect_splices(
    m: Seq<(Seq<char>, Seq<EntryV>)>,
    es: Seq<EntryV>,
    i: int,
    d: nat,
    pre: Seq<EntryV>,
    sub: Seq<EntryV>,
)
    requires
        0 <= i < es.len(),
        collect_list(m, es.take(i), d) == Some(pre),
        es[i].import.len() > 0 ==> d > 0 && collect_spec(m, es[i].import[0], (d - 1) as nat) == Some(sub),
    ensures
        collect_list(m, es.take(i + 1), d) == Some(if es[i].import.len() > 0 {
            pre + sub.map_values(|x: EntryV| import_v(es[i], x, es[i].import.drop_first()))
        } else {
            pre.push(es[i])
        }),
{
    assert(es.take(i + 1).drop_last() == es.take(i));
    assert(es.take(i + 1).last() == es[i]);
}

pub open spec fn entries_v(v: Seq<UserRuleRuleEntry>) -> Seq<EntryV> {
    v.map_values(|e: UserRuleRuleEntry| entry_v(e))
}

proof fn lemma_collect_prefix_none(m: Seq<(Seq<char>, Seq<EntryV>)>, es: Seq<EntryV>, k: int, d: nat)
    requires
        0 <= k <= es.len(),
        collect_list(m, es.take(k), d) is None,
    ensures
        collect_list(m, es, d) is None,
    decreases es.len(),
{
    if k == es.len() {
        assert(es.take(k) == es);
    } else {
        assert(es.drop_last().take(k) == es.take(k));
        lemma_collect_prefix_none(m, es.drop_last(), k, d);
    }
}

/// Ruleset `name` with every import replaced by the imported entries,
/// following at most `depth` levels of imports.
pub fn rec_collect_ruleset(ruleset_map: &Vec<(String, Vec<UserRuleRuleEntry>)>, name: &String, depth: usize) -> (r: Result<Vec<UserRuleRuleEntry>, Error>)
    ensures
        match r {
            Ok(v) => collect_spec(rulesets_v(ruleset_map@), name@, depth as nat) == Some(entries_v(v@)),
            Err(_) => collect_spec(rulesets_v(ruleset_map@), name@, depth as nat) is None,
        },
    decreases depth,
{
    let ghost m = rulesets_v(ruleset_map@);
    if depth == 0 {
        return Err(Error::new(None, "rulesets import each other too deeply"));
    }
    let mut k: usize = 0;
    assert(m.skip(0) == m);
    while k < ruleset_map.len() && ruleset_map[k].0 != *name
        invariant
            k <= ruleset_map@.len(),
            m == rulesets_v(ruleset_map@),
            lookup_ruleset(m, name@) == lookup_ruleset(m.skip(k as int), name@),
        decreases ruleset_map@.len() - k,
    {
        assert(m.skip(k as int).drop_first() == m.skip(k + 1));
        k = k + 1;
    }
    if k == ruleset_map.len() {
        assert(m.skip(k as int).len() == 0);
        return Err(Error::new(Some("ruleset is required"), name.as_str()));
    }
    let ruleset = &ruleset_map[k].1;
    let ghost es = entries_v(ruleset@);
    assert(m.skip(k as int)[0] == m[k as int]);
    assert(lookup_ruleset(m, name@) == Some(es));
    let mut result: Vec<UserRuleRuleEntry> = Vec::new();
    let mut i: usize = 0;
    assert(es.take(0) =~= Seq::<EntryV>::empty());
    assert(entries_v(result@) =~= Seq::<EntryV>::empty());
    while i < ruleset.len()
        invariant
            0 < depth,
            i <= ruleset@.len(),
            m == rulesets_v(ruleset_map@),
            es == entries_v(ruleset@),
            lookup_ruleset(m, name@) == Some(es),
            collect_list(m, es.take(i as int), depth as nat) == Some(entries_v(result@)),
        decreases ruleset@.len() - i,
    {
        let rule = &ruleset[i];
        let ghost prefix = entries_v(result@);
        proof {
            assert(es.take(i + 1).drop_last() == es.take(i as int));
            assert(es.take(i + 1).last() == entry_v(*rule));
        }
        if rule.import.len() > 0 {
            let sub = rec_collect_ruleset(ruleset_map, &rule.import[0], depth - 1);
            let imported = match sub {
                Ok(v) => v,
                Err(e) => {
                    assert(entry_v(*rule).import[0] == rule.import@[0]@);
                    proof {
                        let e1 = es.take(i + 1).last();
                        assert(e1.import.len() > 0);
                        assert(collect_spec(m, e1.import[0], (depth - 1) as nat) is None);
                        assert(collect_list(m, es.take(i + 1), depth as nat) is None);
                        lemma_collect_prefix_none(m, es, i + 1, depth as nat);
                    }
                    return Err(e);
                },
            };
            assert(entry_v(*rule).import[0] == rule.import@[0]@);
            let mut args: Vec<String> = Vec::new();
            let mut a: usize = 1;
            while a < rule.import.len()
                invariant
                    1 <= a <= rule.import@.len(),
                    args@ == rule.import@.subrange(1, a as int),
                decreases rule.import@.len() - a,
            {
                args.push(rule.import[a].clone());
                a = a + 1;
                assert(args@ =~= rule.import@.subrange(1, a as int));
            }
            assert(views(args@) =~= entry_v(*rule).import.drop_first());
            let ghost sub_v = entries_v(imported@);
            let mut j: usize = 0;
            while j < imported.len()
                invariant
                    j <= imported@.len(),
                    sub_v == entries_v(imported@),
                    views(args@) == entry_v(*rule).import.drop_first(),
                    entries_v(result@) == prefix + sub_v.take(j as int).map_values(
                        |x: EntryV| import_v(entry_v(*rule), x, entry_v(*rule).import.drop_first()),
                    ),
                decreases imported@.len() - j,
            {
                let ne = import_entry(rule, &imported[j], &args);
                let ghost before = result@;
                result.push(ne);
                proof {
                    let f = |x: EntryV| import_v(entry_v(*rule), x, entry_v(*rule).import.drop_first());
                    assert(entries_v(result@) =~= entries_v(before).push(entry_v(ne)));
                    assert(sub_v[j as int] == entry_v(imported@[j as int]));
                    assert(sub_v.take(j + 1).map_values(f) =~= sub_v.take(j as int).map_values(f).push(f(sub_v[j as int])));
                }
                j = j + 1;
                assert(entries_v(result@) =~= prefix + sub_v.take(j as int).map_values(
                    |x: EntryV| import_v(entry_v(*rule), x, entry_v(*rule).import.drop_first()),
                ));
            }
            assert(sub_v.take(j as int) == sub_v);
        } else {
            let ne = copy_entry(rule);
            result.push(ne);
            assert(entry_v(ne) == entry_v(*rule));
            assert(entries_v(result@) =~= prefix.push(entry_v(*rule)));
        }
        i = i + 1;
    }
    assert(es.take(i as int) == es);
    Ok(result)
}

/// Tags and the accounts carrying each, as plain values.
pub open spec fn tags_v(t: Seq<(String, Vec<String>)>) -> Seq<(Seq<char>, Seq<Seq<char>>)> {
    t.map_values(|p: (String, Vec<String>)| (p.0@, views(p.1@)))
}

/// The accounts of the first tag named `tag`.
pub open spec fn lookup_tag(tags: Seq<(Seq<char>, Seq<Seq<char>>)>, tag: Seq<char>) -> Option<Seq<Seq<char>>>
    decreases tags.len(),
{
    if tags.len() == 0 {
        None
    } else if tags[0].0 == tag {
        Some(tags[0].1)
    } else {
        lookup_tag(tags.drop_first(), tag)
    }
}

/// The accounts a check-list member stands for: itself, or every account
/// of the tag it names after `#`.
pub open spec fn item_accounts(tags: Seq<(Seq<char>, Seq<Seq<char>>)>, item: Seq<char>) -> Option<Seq<Seq<char>>> {
    if item.len() > 0 && item[0] == '#' {
        lookup_tag(tags, item.drop_first())
    } else {
        Some(seq![item])
    }
}

/// `acc` followed by the members of `xs` it does not hold yet, in order.
pub open spec fn add_unique(acc: Seq<Seq<char>>, xs: Seq<Seq<char>>) -> Seq<Seq<char>>
    decreases xs.len(),
{
    if xs.len() == 0 {
        acc
    } else {
        let a = add_unique(acc, xs.drop_last());
        if a.contains(xs.last()) { a } else { a.push(xs.last()) }
    }
}

/// The accounts a check list stands for, each once, in first-seen order;
/// `None` when it names an undeclared tag.
pub open spec fn expand_seq(tags: Seq<(Seq<char>, Seq<Seq<char>>)>, list: Seq<Seq<char>>) -> Option<Seq<Seq<char>>>
    decreases list.len(),
{
    if list.len() == 0 {
        Some(Seq::empty())
    } else {
        match (expand_seq(tags, list.drop_last()), item_accounts(tags, list.last())) {
            (Some(p), Some(xs)) => Some(add_unique(p, xs)),
            _ => None,
        }
    }
}

proof fn lemma_add_unique(acc: Seq<Seq<char>>, xs: Seq<Seq<char>>)
    requires
        acc.no_duplicates(),
    ensures
        add_unique(acc, xs).no_duplicates(),
        forall|x: Seq<char>| #[trigger] add_unique(acc, xs).contains(x) <==> (acc.contains(x) || xs.contains(x)),
    decreases xs.len(),
{
    if xs.len() > 0 {
        lemma_add_unique(acc, xs.drop_last());
        let a = add_unique(acc, xs.drop_last());
        assert forall|x: Seq<char>| #[trigger] add_unique(acc, xs).contains(x) <==> (acc.contains(x) || xs.contains(x)) by {
            if xs.contains(x) && x != xs.last() {
                let i = choose|i: int| 0 <= i < xs.len() && xs[i] == x;
                assert(xs.drop_last()[i] == x);
            }
            if xs.drop_last().contains(x) {
                let i = choose|i: int| 0 <= i < xs.drop_last().len() && xs.drop_last()[i] == x;
                assert(xs[i] == x);
            }
            assert(xs[xs.len() - 1] == xs.last());
            if !a.contains(xs.last()) {
                assert(a.push(xs.last())[a.len() as int] == xs.last());
                if a.push(xs.last()).contains(x) {
                    let i = choose|i: int| 0 <= i < a.len() + 1 && a.push(xs.last())[i] == x;
                    if i < a.len() {
                        assert(a[i] == x);
                    }
                }
                if a.contains(x) {
                    let i = choose|i: int| 0 <= i < a.len() && a[i] == x;
                    assert(a.push(xs.last())[i] == x);
                }
            }
        }
    }
}

/// A check list expands exactly to the accounts its members stand for:
/// a `#tag` member to every account registered under that tag, any other
/// member to itself. Expansion fails exactly when a member names a tag
/// that was never declared.
pub proof fn lemma_expand_seq(tags: Seq<(Seq<char>, Seq<Seq<char>>)>, list: Seq<Seq<char>>)
    ensures
        expand_seq(tags, list) is Some <==> forall|i: int| 0 <= i < list.len() ==> #[trigger] item_accounts(tags, list[i]) is Some,
        expand_seq(tags, list) matches Some(v) ==> {
            &&& v.no_duplicates()
            &&& forall|x: Seq<char>| #[trigger] v.contains(x) <==> exists|i: int|
                0 <= i < list.len() && (#[trigger] item_accounts(tags, list[i]))->0.contains(x)
        },
    decreases list.len(),
{
    if list.len() > 0 {
        let d = list.drop_last();
        lemma_expand_seq(tags, d);
        assert forall|i: int| 0 <= i < d.len() implies d[i] == list[i] by {}
        if expand_seq(tags, list) is Some {
            assert forall|i: int| 0 <= i < list.len() implies #[trigger] item_accounts(tags, list[i]) is Some by {
                if i < d.len() {
                    assert(item_accounts(tags, d[i]) is Some);
                }
            }
            let p = expand_seq(tags, d)->0;
            let xs = item_accounts(tags, list.last())->0;
            lemma_add_unique(p, xs);
            let v = add_unique(p, xs);
            assert forall|x: Seq<char>| #[trigger] v.contains(x) <==> exists|i: int|
                0 <= i < list.len() && (#[trigger] item_accounts(tags, list[i]))->0.contains(x) by {
                if v.contains(x) {
                    if xs.contains(x) {
                        assert(item_accounts(tags, list[list.len() - 1])->0.contains(x));
                    } else {
                        let i = choose|i: int| 0 <= i < d.len() && (#[trigger] item_accounts(tags, d[i]))->0.contains(x);
                        assert(item_accounts(tags, list[i])->0.contains(x));
                    }
                }
                if exists|i: int| 0 <= i < list.len() && (#[trigger] item_accounts(tags, list[i]))->0.contains(x) {
                    let i = choose|i: int| 0 <= i < list.len() && (#[trigger] item_accounts(tags, list[i]))->0.contains(x);
                    if i < d.len() {
                        assert(item_accounts(tags, d[i])->0.contains(x));
                    } else {
                        assert(list[i] == list.last());
                    }
                }
            }
        } else {
            if expand_seq(tags, d) is None {
                let i = choose|i: int| 0 <= i < d.len() && !(#[trigger] item_accounts(tags, d[i]) is Some);
                assert(item_accounts(tags, list[i]) is None);
            } else {
                assert(item_accounts(tags, list[list.len() - 1]) is None);
            }
        }
    }
}

/// The accounts of the first tag named `tag`, if any.
fn find_tag<'a>(tags: &'a Vec<(String, Vec<String>)>, tag: &String) -> (r: Option<&'a Vec<String>>)
    ensures
        match r {
            Some(v) => lookup_tag(tags_v(tags@), tag@) == Some(views(v@)),
            None => lookup_tag(tags_v(tags@), tag@) is None,
        },
{
    let ghost t = tags_v(tags@);
    let mut k: usize = 0;
    assert(t.skip(0) == t);
    while k < tags.len()
        invariant
            k <= tags@.len(),
            t == tags_v(tags@),
            lookup_tag(t, tag@) == lookup_tag(t.skip(k as int), tag@),
        decreases tags@.len() - k,
    {
        assert(t.skip(k as int)[0] == t[k as int]);
        if tags[k].0 == *tag {
            return Some(&tags[k].1);
        }
        assert(t.skip(k as int).drop_first() == t.skip(k + 1));
        k = k + 1;
    }
    assert(t.skip(k as int).len() == 0);
    None
}

/// Appends the members of `xs` that `acc` does not hold yet.
fn add_unique_exec(acc: &mut Vec<String>, xs: &Vec<String>)
    ensures
        views(final(acc)@) == add_unique(views(old(acc)@), views(xs@)),
{
    let ghost a0 = views(acc@);
    let mut j: usize = 0;
    while j < xs.len()
        invariant
            j <= xs@.len(),
            views(acc@) == add_unique(a0, views(xs@).take(j as int)),
        decreases xs@.len() - j,
    {
        proof {
            let xv = views(xs@);
            assert(xv.take(j + 1).drop_last() == xv.take(j as int));
            assert(xv.take(j + 1).last() == xs@[j as int]@);
        }
        if !contains_token(acc, &xs[j]) {
            let ghost before = acc@;
            acc.push(xs[j].clone());
            assert(views(acc@) =~= views(before).push(xs@[j as int]@));
        }
        j = j + 1;
    }
    assert(views(xs@).take(j as int) == views(xs@));
}

/// The accounts that a check list stands for, each once.
pub fn expand_check_list(tags: &Vec<(String, Vec<String>)>, list: &Vec<String>) -> (r: Result<Vec<String>, Error>)
    ensures
        match r {
            Ok(v) => expand_seq(tags_v(tags@), views(list@)) == Some(views(v@)),
            Err(_) => expand_seq(tags_v(tags@), views(list@)) is None,
        },
{
    let ghost t = tags_v(tags@);
    let ghost lv = views(list@);
    let mut result: Vec<String> = Vec::new();
    let mut i: usize = 0;
    assert(lv.take(0) =~= Seq::<Seq<char>>::empty());
    assert(views(result@) =~= Seq::<Seq<char>>::empty());
    while i < list.len()
        invariant
            i <= list@.len(),
            t == tags_v(tags@),
            lv == views(list@),
            expand_seq(t, lv.take(i as int)) == Some(views(result@)),
        decreases list@.len() - i,
    {
        proof {
            assert(lv.take(i + 1).drop_last() == lv.take(i as int));
            assert(lv.take(i + 1).last() == list@[i as int]@);
        }
        let item = &list[i];
        let cs = chars_of(item.as_str());
        if cs.len() > 0 && cs[0] == '#' {
            let name = crate::text::string_of_range(&cs, 1, cs.len());
            assert(name@ == item@.drop_first());
            match find_tag(tags, &name) {
                Some(accs) => {
                    add_unique_exec(&mut result, accs);
                },
                None => {
                    proof {
                        assert(expand_seq(t, lv.take(i + 1)) is None);
                        lemma_expand_prefix_none(t, lv, i + 1);
                    }
                    return Err(Error::new(Some("no account marked with tag"), name.as_str()));
                },
            }
        } else {
            let mut one: Vec<String> = Vec::new();
            one.push(item.clone());
            assert(views(one@) =~= seq![item@]);
            add_unique_exec(&mut result, &one);
        }
        i = i + 1;
    }
    assert(lv.take(i as int) == lv);
    Ok(result)
}

proof fn lemma_expand_prefix_none(tags: Seq<(Seq<char>, Seq<Seq<char>>)>, list: Seq<Seq<char>>, k: int)
    requires
        0 <= k <= list.len(),
        expand_seq(tags, list.take(k)) is None,
    ensures
        expand_seq(tags, list) is None,
    decreases list.len(),
{
    if k == list.len() {
        assert(list.take(k) == list);
    } else {
        assert(list.drop_last().take(k) == list.take(k));
        lemma_expand_prefix_none(tags, list.drop_last(), k);
    }
}

/// A compiled entry as plain values.
pub struct CookedV {
    pub side: Option<UserRuleSide>,
    pub hints: Seq<Seq<char>>,
    pub target: CookedRuleEntryAccCheckTarget,
    pub list: Seq<Seq<char>>,
    pub account: Seq<char>,
}

pub open spec fn cooked_v(c: CookedRuleEntry) -> CookedV {
    CookedV {
        side: c.side,
        hints: views(c.hint_check_list@),
        target: c.acc_check_target,
        list: views(c.acc_check_list@),
        account: c.account@,
    }
}

/// How many of the three account-check fields are given.
pub open spec fn check_fields(e: EntryV) -> int {
    (if e.opposite.len() > 0 { 1int } else { 0int }) + (if e.credit.len() > 0 { 1int } else { 0int }) + (
    if e.debit.len() > 0 { 1int } else { 0int })
}

/// The check target of an entry and the list it checks against.
pub open spec fn check_of(e: EntryV) -> (CookedRuleEntryAccCheckTarget, Seq<Seq<char>>) {
    if e.opposite.len() > 0 {
        (CookedRuleEntryAccCheckTarget::Opposite, e.opposite)
    } else if e.credit.len() > 0 {
        (CookedRuleEntryAccCheckTarget::Credit, e.credit)
    } else if e.debit.len() > 0 {
        (CookedRuleEntryAccCheckTarget::Debit, e.debit)
    } else {
        (CookedRuleEntryAccCheckTarget::NoOne, Seq::empty())
    }
}

/// The compiled form of an entry; `None` without an account, with more than
/// one account-check field, or with an undeclared tag.
pub open spec fn cook_v(tags: Seq<(Seq<char>, Seq<Seq<char>>)>, e: EntryV) -> Option<CookedV> {
    match e.account {
        None => None,
        Some(account) => if check_fields(e) > 1 {
            None
        } else {
            match expand_seq(tags, check_of(e).1) {
                None => None,
                Some(list) => Some(CookedV { side: e.side, hints: e.hint, target: check_of(e).0, list, account }),
            }
        },
    }
}

/// Compiles one entry.
pub fn cook_entry(tags: &Vec<(String, Vec<String>)>, rule: &UserRuleRuleEntry) -> (r: Result<CookedRuleEntry, Error>)
    ensures
        match r {
            Ok(c) => cook_v(tags_v(tags@), entry_v(*rule)) == Some(cooked_v(c)),
            Err(_) => cook_v(tags_v(tags@), entry_v(*rule)) is None,
        },
{
    let account = match &rule.account {
        Some(a) => a.clone(),
        None => {
            return Err(Error::new(None, "either 'account' or 'import' is required"));
        },
    };
    let given: u32 = (if rule.opposite.len() > 0 { 1u32 } else { 0u32 }) + (if rule.credit.len() > 0 { 1u32 } else { 0u32 })
        + (if rule.debit.len() > 0 { 1u32 } else { 0u32 });
    if given > 1 {
        return Err(Error::new(None, "'opposite', 'debit' and 'credit' conflict with each other"));
    }
    let (target, list) = if rule.opposite.len() > 0 {
        (CookedRuleEntryAccCheckTarget::Opposite, &rule.opposite)
    } else if rule.credit.len() > 0 {
        (CookedRuleEntryAccCheckTarget::Credit, &rule.credit)
    } else if rule.debit.len() > 0 {
        (CookedRuleEntryAccCheckTarget::Debit, &rule.debit)
    } else {
        (CookedRuleEntryAccCheckTarget::NoOne, &rule.debit)
    };
    assert(check_of(entry_v(*rule)).0 == target);
    assert(check_of(entry_v(*rule)).1 =~= views(list@));
    let acc_check_list = expand_check_list(tags, list)?;
    let c = CookedRuleEntry {
        side: rule.side,
        hint_check_list: copy_strings(&rule.hint),
        acc_check_target: target,
        acc_check_list,
        account,
    };
    Ok(c)
}

/// A copy of a compiled entry.
pub fn copy_cooked(c: &CookedRuleEntry) -> (r: CookedRuleEntry)
    ensures
        cooked_v(r) == cooked_v(*c),
{
    CookedRuleEntry {
        side: c.side,
        hint_check_list: copy_strings(&c.hint_check_list),
        acc_check_target: c.acc_check_target,
        acc_check_list: copy_strings(&c.acc_check_list),
        account: c.account.clone(),
    }
}

pub open spec fn pairs_v(v: Seq<(Option<String>, CookedRuleEntry)>) -> Seq<(Option<Seq<char>>, CookedV)> {
    v.map_values(|p: (Option<String>, CookedRuleEntry)| (opt_view(p.0), cooked_v(p.1)))
}

/// The compiled entries of `es`: keyed by each of an entry's tokens when
/// `index`, else unkeyed.
pub open spec fn parse_spec(tags: Seq<(Seq<char>, Seq<Seq<char>>)>, es: Seq<EntryV>, index: bool) -> Option<Seq<(Option<Seq<char>>, CookedV)>>
    decreases es.len(),
{
    if es.len() == 0 {
        Some(Seq::empty())
    } else {
        match (parse_spec(tags, es.drop_last(), index), cook_v(tags, es.last())) {
            (Some(p), Some(c)) => Some(p + if index {
                es.last().token.map_values(|t: Seq<char>| (Some(t), c))
            } else {
                seq![(None::<Seq<char>>, c)]
            }),
            _ => None,
        }
    }
}

proof fn lemma_parse_prefix_none(tags: Seq<(Seq<char>, Seq<Seq<char>>)>, es: Seq<EntryV>, k: int, index: bool)
    requires
        0 <= k <= es.len(),
        parse_spec(tags, es.take(k), index) is None,
    ensures
        parse_spec(tags, es, index) is None,
    decreases es.len(),
{
    if k == es.len() {
        assert(es.take(k) == es);
    } else {
        assert(es.drop_last().take(k) == es.take(k));
        lemma_parse_prefix_none(tags, es.drop_last(), k, index);
    }
}

/// How deep imports may nest in `m`: a chain of imports without a cycle
/// visits each ruleset at most once.
pub open spec fn import_depth(m: Seq<(String, Vec<UserRuleRuleEntry>)>) -> nat {
    (m.len() + 1) as nat
}

/// Collects ruleset `name` and compiles its entries.
pub fn parse_ruleset(
    tags: &Vec<(String, Vec<String>)>,
    ruleset_map: &Vec<(String, Vec<UserRuleRuleEntry>)>,
    name: &String,
    index_by_acctok: bool,
) -> (r: Result<Vec<(Option<String>, CookedRuleEntry)>, Error>)
    requires
        ruleset_map@.len() < usize::MAX,
    ensures
        ({
            let col = collect_spec(rulesets_v(ruleset_map@), name@, import_depth(ruleset_map@));
            match r {
                Ok(v) => col is Some && parse_spec(tags_v(tags@), col->0, index_by_acctok) == Some(pairs_v(v@)),
                Err(_) => col is None || parse_spec(tags_v(tags@), col->0, index_by_acctok) is None,
            }
        }),
{
    let rules = rec_collect_ruleset(ruleset_map, name, ruleset_map.len() + 1)?;
    let ghost es = entries_v(rules@);
    let ghost t = tags_v(tags@);
    let mut result: Vec<(Option<String>, CookedRuleEntry)> = Vec::new();
    let mut i: usize = 0;
    assert(es.take(0) =~= Seq::<EntryV>::empty());
    assert(pairs_v(result@) =~= Seq::<(Option<Seq<char>>, CookedV)>::empty());
    while i < rules.len()
        invariant
            i <= rules@.len(),
            es == entries_v(rules@),
            t == tags_v(tags@),
            collect_spec(rulesets_v(ruleset_map@), name@, import_depth(ruleset_map@)) == Some(es),
            parse_spec(t, es.take(i as int), index_by_acctok) == Some(pairs_v(result@)),
        decreases rules@.len() - i,
    {
        let rule = &rules[i];
        proof {
            assert(es.take(i + 1).drop_last() == es.take(i as int));
            assert(es.take(i + 1).last() == entry_v(*rule));
        }
        let entry = match cook_entry(tags, rule) {
            Ok(c) => c,
            Err(e) => {
                proof {
                    assert(parse_spec(t, es.take(i + 1), index_by_acctok) is None);
                    lemma_parse_prefix_none(t, es, i + 1, index_by_acctok);
                }
                return Err(e);
            },
        };
        let ghost prefix = pairs_v(result@);
        let ghost c = cooked_v(entry);
        if index_by_acctok {
            let ghost tv = views(rule.token@);
            let mut j: usize = 0;
            while j < rule.token.len()
                invariant
                    j <= rule.token@.len(),
                    tv == views(rule.token@),
                    cooked_v(entry) == c,
                    pairs_v(result@) == prefix + tv.take(j as int).map_values(|x: Seq<char>| (Some(x), c)),
                decreases rule.token@.len() - j,
            {
                let ghost before = result@;
                let tok = rule.token[j].clone();
                let ce = copy_cooked(&entry);
                result.push((Some(tok), ce));
                proof {
                    let f = |x: Seq<char>| (Some(x), c);
                    assert(pairs_v(result@) =~= pairs_v(before).push((Some(tok@), c)));
                    assert(tv[j as int] == tok@);
                    assert(tv.take(j + 1).map_values(f) =~= tv.take(j as int).map_values(f).push(f(tv[j as int])));
                }
                j = j + 1;
            }
            assert(tv.take(j as int) == tv);
        } else {
            result.push((None, entry));
            assert(pairs_v(result@) =~= prefix + seq![(None::<Seq<char>>, c)]);
        }
        i = i + 1;
    }
    assert(es.take(i as int) == es);
    Ok(result)
}

/// Association list `t` with `v` appended under key `k`, creating the key
/// at the end when it is new.
pub open spec fn assoc_add<V>(t: Seq<(Seq<char>, Seq<V>)>, k: Seq<char>, v: V) -> Seq<(Seq<char>, Seq<V>)> {
    let i = first_key(t, k);
    if i < t.len() {
        t.update(i, (k, t[i].1.push(v)))
    } else {
        t.push((k, seq![v]))
    }
}

/// Index of the first pair keyed `k`, or the length.
pub open spec fn first_key<V>(t: Seq<(Seq<char>, Seq<V>)>, k: Seq<char>) -> int
    decreases t.len(),
{
    if t.len() == 0 {
        0
    } else if t[0].0 == k {
        0
    } else {
        1 + first_key(t.drop_first(), k)
    }
}

proof fn lemma_first_key<V>(t: Seq<(Seq<char>, Seq<V>)>, k: Seq<char>)
    ensures
        0 <= first_key(t, k) <= t.len(),
        first_key(t, k) < t.len() ==> t[first_key(t, k)].0 == k,
        forall|i: int| 0 <= i < first_key(t, k) ==> t[i].0 != k,
    decreases t.len(),
{
    if t.len() > 0 && t[0].0 != k {
        lemma_first_key(t.drop_first(), k);
        assert forall|i: int| 0 <= i < first_key(t, k) implies t[i].0 != k by {
            if i > 0 {
                assert(t[i] == t.drop_first()[i - 1]);
            }
        }
    }
}

/// Each tag with the accounts that carry it, in first-seen order.
pub open spec fn invert_tags(ut: Seq<(Seq<char>, Seq<Seq<char>>)>) -> Seq<(Seq<char>, Seq<Seq<char>>)>
    decreases ut.len(),
{
    if ut.len() == 0 {
        Seq::empty()
    } else {
        add_tags(invert_tags(ut.drop_last()), ut.last().1, ut.last().0)
    }
}

/// `t` with account `acc` added under each tag of `tags`.
pub open spec fn add_tags(t: Seq<(Seq<char>, Seq<Seq<char>>)>, tags: Seq<Seq<char>>, acc: Seq<char>) -> Seq<(Seq<char>, Seq<Seq<char>>)>
    decreases tags.len(),
{
    if tags.len() == 0 {
        t
    } else {
        assoc_add(add_tags(t, tags.drop_last(), acc), tags.last(), acc)
    }
}

/// Adds `acc` under `tag`.
fn add_to_tag(t: &mut Vec<(String, Vec<String>)>, tag: &String, acc: &String)
    ensures
        tags_v(final(t)@) == assoc_add(tags_v(old(t)@), tag@, acc@),
{
    let ghost tv = tags_v(t@);
    proof {
        lemma_first_key(tv, tag@);
    }
    let mut k: usize = 0;
    while k < t.len() && t[k].0 != *tag
        invariant
            k <= t@.len(),
            tv == tags_v(t@),
            forall|i: int| 0 <= i < k ==> tv[i].0 != tag@,
            0 <= first_key(tv, tag@) <= tv.len(),
            first_key(tv, tag@) < tv.len() ==> tv[first_key(tv, tag@)].0 == tag@,
            forall|i: int| 0 <= i < first_key(tv, tag@) ==> tv[i].0 != tag@,
        decreases t@.len() - k,
    {
        k = k + 1;
    }
    assert(first_key(tv, tag@) == k);
    if k < t.len() {
        let mut list = copy_strings(&t[k].1);
        list.push(acc.clone());
        assert(views(list@) =~= tv[k as int].1.push(acc@));
        let key = t[k].0.clone();
        t.set(k, (key, list));
        assert forall|i: int| 0 <= i < t@.len() implies #[trigger] tags_v(t@)[i] == tv.update(k as int, (tag@, tv[k as int].1.push(acc@)))[i] by {
            if i != k {
                assert(t@[i] == old(t)@[i]);
            }
        }
        assert(tags_v(t@) =~= tv.update(k as int, (tag@, tv[k as int].1.push(acc@))));
    } else {
        let mut list: Vec<String> = Vec::new();
        list.push(acc.clone());
        assert(views(list@) =~= seq![acc@]);
        t.push((tag.clone(), list));
        assert forall|i: int| 0 <= i < t@.len() implies #[trigger] tags_v(t@)[i] == tv.push((tag@, seq![acc@]))[i] by {
            if i < tv.len() {
                assert(t@[i] == old(t)@[i]);
            }
        }
        assert(tags_v(t@) =~= tv.push((tag@, seq![acc@])));
    }
}

/// Adds `entry` under `key`.
fn add_to_group(t: &mut Vec<(String, Vec<CookedRuleEntry>)>, key: String, entry: CookedRuleEntry)
    ensures
        groups_v(final(t)@) == assoc_add(groups_v(old(t)@), key@, cooked_v(entry)),
{
    let ghost tv = groups_v(t@);
    proof {
        lemma_first_key(tv, key@);
    }
    let mut k: usize = 0;
    while k < t.len() && t[k].0 != key
        invariant
            k <= t@.len(),
            tv == groups_v(t@),
            forall|i: int| 0 <= i < k ==> tv[i].0 != key@,
            0 <= first_key(tv, key@) <= tv.len(),
            first_key(tv, key@) < tv.len() ==> tv[first_key(tv, key@)].0 == key@,
            forall|i: int| 0 <= i < first_key(tv, key@) ==> tv[i].0 != key@,
        decreases t@.len() - k,
    {
        k = k + 1;
    }
    assert(first_key(tv, key@) == k);
    let ghost cv = cooked_v(entry);
    if k < t.len() {
        let mut list: Vec<CookedRuleEntry> = Vec::new();
        let mut j: usize = 0;
        while j < t[k].1.len()
            invariant
                k < t@.len(),
                j <= t@[k as int].1@.len(),
                cooked_seq(list@) == cooked_seq(t@[k as int].1@.take(j as int)),
            decreases t@[k as int].1@.len() - j,
        {
            let c = copy_cooked(&t[k].1[j]);
            let ghost before = list@;
            list.push(c);
            assert(cooked_seq(list@) =~= cooked_seq(before).push(cooked_v(c)));
            assert(t@[k as int].1@.take(j + 1) =~= t@[k as int].1@.take(j as int).push(t@[k as int].1@[j as int]));
            assert(cooked_seq(t@[k as int].1@.take(j + 1)) =~= cooked_seq(t@[k as int].1@.take(j as int)).push(cooked_v(t@[k as int].1@[j as int])));
            j = j + 1;
        }
        assert(t@[k as int].1@.take(j as int) == t@[k as int].1@);
        let ghost before = list@;
        list.push(entry);
        assert(cooked_seq(list@) =~= cooked_seq(before).push(cv));
        let k2 = t[k].0.clone();
        t.set(k, (k2, list));
        assert forall|i: int| 0 <= i < t@.len() implies #[trigger] groups_v(t@)[i] == tv.update(k as int, (key@, tv[k as int].1.push(cv)))[i] by {
            if i != k {
                assert(t@[i] == old(t)@[i]);
            }
        }
        assert(groups_v(t@) =~= tv.update(k as int, (key@, tv[k as int].1.push(cv))));
    } else {
        let mut list: Vec<CookedRuleEntry> = Vec::new();
        list.push(entry);
        assert(cooked_seq(list@) =~= seq![cv]);
        t.push((key, list));
        assert forall|i: int| 0 <= i < t@.len() implies #[trigger] groups_v(t@)[i] == tv.push((key@, seq![cv]))[i] by {
            if i < tv.len() {
                assert(t@[i] == old(t)@[i]);
            }
        }
        assert(groups_v(t@) =~= tv.push((key@, seq![cv])));
    }
}

pub open spec fn cooked_seq(v: Seq<CookedRuleEntry>) -> Seq<CookedV> {
    v.map_values(|c: CookedRuleEntry| cooked_v(c))
}

pub open spec fn groups_v(t: Seq<(String, Vec<CookedRuleEntry>)>) -> Seq<(Seq<char>, Seq<CookedV>)> {
    t.map_values(|p: (String, Vec<CookedRuleEntry>)| (p.0@, cooked_seq(p.1@)))
}

/// Keyed compiled entries grouped by key, keys in first-seen order.
pub open spec fn group_pairs(pairs: Seq<(Option<Seq<char>>, CookedV)>) -> Seq<(Seq<char>, Seq<CookedV>)>
    decreases pairs.len(),
{
    if pairs.len() == 0 {
        Seq::empty()
    } else {
        let k = match pairs.last().0 {
            Some(k) => k,
            None => Seq::empty(),
        };
        assoc_add(group_pairs(pairs.drop_last()), k, pairs.last().1)
    }
}

/// Every account named by a rule document: tagged accounts, tokens of the
/// main ruleset and members of check lists.
pub open spec fn named_account(
    ut: Seq<(Seq<char>, Seq<Seq<char>>)>,
    main: Seq<(Option<Seq<char>>, CookedV)>,
    reward: Seq<(Option<Seq<char>>, CookedV)>,
    x: Seq<char>,
) -> bool {
    ||| exists|i: int| 0 <= i < ut.len() && #[trigger] ut[i].0 == x
    ||| exists|i: int| 0 <= i < main.len() && #[trigger] main[i].0 == Some(x)
    ||| exists|i: int| 0 <= i < main.len() && #[trigger] main[i].1.list.contains(x)
    ||| exists|i: int| 0 <= i < reward.len() && #[trigger] reward[i].1.list.contains(x)
}

impl CookedRule {
    /// Compiles a rule document: inverts the tags, then compiles the `main`
    /// ruleset (grouped by account token) and the `reward` ruleset.
    pub fn from_user_rule(rule: UserRule) -> (r: Result<CookedRule, Error>)
        requires
            rule.ruleset@.len() < usize::MAX,
        ensures
            ({
                let tags = invert_tags(tags_v(rule.tags@));
                let m = rulesets_v(rule.ruleset@);
                let d = import_depth(rule.ruleset@);
                let main = match collect_spec(m, "main"@, d) {
                    Some(es) => parse_spec(tags, es, true),
                    None => None,
                };
                let reward = match collect_spec(m, "reward"@, d) {
                    Some(es) => parse_spec(tags, es, false),
                    None => None,
                };
                &&& r is Ok <==> (main is Some && reward is Some)
                &&& r matches Ok(c) ==> {
                    &&& c.fallback@ == rule.fallback@
                    &&& views(c.hints@) == views(rule.hints@)
                    &&& tags_v(c.tags@) == tags
                    &&& groups_v(c.ruleset_main@) == group_pairs(main->0)
                    &&& cooked_seq(c.ruleset_reward@) == reward->0.map_values(|p: (Option<Seq<char>>, CookedV)| p.1)
                    &&& views(c.accounts@).no_duplicates()
                    &&& forall|x: Seq<char>| #[trigger] views(c.accounts@).contains(x) <==> named_account(
                        tags_v(rule.tags@),
                        main->0,
                        reward->0,
                        x,
                    )
                }
            }),
    {
        let ghost ut = tags_v(rule.tags@);
        let mut tags: Vec<(String, Vec<String>)> = Vec::new();
        let mut accounts: Vec<String> = Vec::new();
        let mut i: usize = 0;
        assert(ut.take(0) =~= Seq::<(Seq<char>, Seq<Seq<char>>)>::empty());
        assert(tags_v(tags@) =~= Seq::<(Seq<char>, Seq<Seq<char>>)>::empty());
        assert(views(accounts@) =~= Seq::<Seq<char>>::empty());
        while i < rule.tags.len()
            invariant
                i <= rule.tags@.len(),
                ut == tags_v(rule.tags@),
                tags_v(tags@) == invert_tags(ut.take(i as int)),
                views(accounts@).no_duplicates(),
                forall|x: Seq<char>| #[trigger] views(accounts@).contains(x) <==> exists|j: int| 0 <= j < i && #[trigger] ut[j].0 == x,
            decreases rule.tags@.len() - i,
        {
            let acc = &rule.tags[i].0;
            let tl = &rule.tags[i].1;
            proof {
                assert(ut.take(i + 1).drop_last() == ut.take(i as int));
                assert(ut.take(i + 1).last() == ut[i as int]);
            }
            let ghost t0 = tags_v(tags@);
            let mut j: usize = 0;
            assert(views(tl@).take(0) =~= Seq::<Seq<char>>::empty());
            while j < tl.len()
                invariant
                    j <= tl@.len(),
                    tags_v(tags@) == add_tags(t0, views(tl@).take(j as int), acc@),
                decreases tl@.len() - j,
            {
                add_to_tag(&mut tags, &tl[j], acc);
                proof {
                    let tv = views(tl@);
                    assert(tv.take(j + 1).drop_last() == tv.take(j as int));
                    assert(tv.take(j + 1).last() == tl@[j as int]@);
                }
                j = j + 1;
            }
            assert(views(tl@).take(j as int) == views(tl@));
            let ghost a0 = views(accounts@);
            let mut one: Vec<String> = Vec::new();
            one.push(acc.clone());
            proof {
                lemma_add_unique(a0, views(one@));
                assert(views(one@) =~= seq![acc@]);
            }
            add_unique_exec(&mut accounts, &one);
            proof {
                assert forall|x: Seq<char>| #[trigger] views(accounts@).contains(x) <==> exists|j: int|
                    0 <= j < i + 1 && #[trigger] ut[j].0 == x by {
                    if x == acc@ {
                        assert(ut[i as int].0 == x);
                        assert(views(one@)[0] == x);
                    }
                    if views(one@).contains(x) {
                        let k = choose|k: int| 0 <= k < views(one@).len() && views(one@)[k] == x;
                    }
                }
            }
            i = i + 1;
        }
        assert(ut.take(i as int) == ut);
        let main_name = String::from_str("main");
        let reward_name = String::from_str("reward");
        let main = parse_ruleset(&tags, &rule.ruleset, &main_name, true)?;
        let reward = parse_ruleset(&tags, &rule.ruleset, &reward_name, false)?;
        let ghost mv = pairs_v(main@);
        let ghost rv = pairs_v(reward@);
        let mut acc_tail: Vec<String> = Vec::new();
        let mut k: usize = 0;
        while k < main.len()
            invariant
                k <= main@.len(),
                mv == pairs_v(main@),
                forall|x: Seq<char>| #[trigger] views(acc_tail@).contains(x) <==> (
                    (exists|j: int| 0 <= j < k && #[trigger] mv[j].0 == Some(x))
                    || (exists|j: int| 0 <= j < k && #[trigger] mv[j].1.list.contains(x))),
            decreases main@.len() - k,
        {
            let ghost before = views(acc_tail@);
            match &main[k].0 {
                Some(t) => {
                    acc_tail.push(t.clone());
                    assert(views(acc_tail@) =~= before.push(t@));
                },
                None => {},
            }
            let ghost mid = views(acc_tail@);
            assert(mv[k as int].0 is None ==> mid == before);
            assert(mv[k as int].0 matches Some(t) ==> mid == before.push(t));
            let mut l: usize = 0;
            while l < main[k].1.acc_check_list.len()
                invariant
                    k < main@.len(),
                    l <= main@[k as int].1.acc_check_list@.len(),
                    views(acc_tail@) == mid + views(main@[k as int].1.acc_check_list@.take(l as int)),
                decreases main@[k as int].1.acc_check_list@.len() - l,
            {
                let ghost b2 = acc_tail@;
                let x = main[k].1.acc_check_list[l].clone();
                acc_tail.push(x);
                proof {
                    let lst = main@[k as int].1.acc_check_list@;
                    assert(views(acc_tail@) =~= views(b2).push(x@));
                    assert(lst.take(l + 1) =~= lst.take(l as int).push(lst[l as int]));
                    assert(views(lst.take(l + 1)) =~= views(lst.take(l as int)).push(x@));
                }
                l = l + 1;
            }
            proof {
                let lst = views(main@[k as int].1.acc_check_list@);
                assert(main@[k as int].1.acc_check_list@.take(l as int) == main@[k as int].1.acc_check_list@);
                assert(mv[k as int].1.list == lst);
                assert forall|x: Seq<char>| #[trigger] views(acc_tail@).contains(x) <==> (
                    (exists|j: int| 0 <= j < k + 1 && #[trigger] mv[j].0 == Some(x))
                    || (exists|j: int| 0 <= j < k + 1 && #[trigger] mv[j].1.list.contains(x))) by {
                    let full = views(acc_tail@);
                    if full.contains(x) {
                        let q = choose|q: int| 0 <= q < full.len() && full[q] == x;
                        if q < before.len() {
                            assert(before[q] == x);
                            assert(before.contains(x));
                        } else if q < mid.len() {
                            assert(mv[k as int].0 == Some(x));
                        } else {
                            assert(lst[q - mid.len()] == x);
                            assert(mv[k as int].1.list.contains(x));
                        }
                    }
                    if exists|j: int| 0 <= j < k + 1 && #[trigger] mv[j].0 == Some(x) {
                        let j = choose|j: int| 0 <= j < k + 1 && #[trigger] mv[j].0 == Some(x);
                        if j < k {
                            assert(before.contains(x));
                            let q = choose|q: int| 0 <= q < before.len() && before[q] == x;
                            assert(mid[q] == x);
                            assert(full[q] == x);
                        } else {
                            assert(mid[before.len() as int] == x);
                            assert(full[before.len() as int] == x);
                        }
                    }
                    if exists|j: int| 0 <= j < k + 1 && #[trigger] mv[j].1.list.contains(x) {
                        let j = choose|j: int| 0 <= j < k + 1 && #[trigger] mv[j].1.list.contains(x);
                        if j < k {
                            assert(before.contains(x));
                            let q = choose|q: int| 0 <= q < before.len() && before[q] == x;
                            assert(mid[q] == x);
                            assert(full[q] == x);
                        } else {
                            let q = choose|q: int| 0 <= q < lst.len() && lst[q] == x;
                            assert(full[mid.len() + q] == x);
                        }
                    }
                }
            }
            k = k + 1;
        }
        let mut k: usize = 0;
        let ghost main_part = views(acc_tail@);
        while k < reward.len()
            invariant
                k <= reward@.len(),
                rv == pairs_v(reward@),
                forall|x: Seq<char>| #[trigger] views(acc_tail@).contains(x) <==> (main_part.contains(x)
                    || (exists|j: int| 0 <= j < k && #[trigger] rv[j].1.list.contains(x))),
            decreases reward@.len() - k,
        {
            let ghost before = views(acc_tail@);
            let mut l: usize = 0;
            while l < reward[k].1.acc_check_list.len()
                invariant
                    k < reward@.len(),
                    l <= reward@[k as int].1.acc_check_list@.len(),
                    views(acc_tail@) == before + views(reward@[k as int].1.acc_check_list@.take(l as int)),
                decreases reward@[k as int].1.acc_check_list@.len() - l,
            {
                let ghost b2 = acc_tail@;
                let x = reward[k].1.acc_check_list[l].clone();
                acc_tail.push(x);
                proof {
                    let lst = reward@[k as int].1.acc_check_list@;
                    assert(views(acc_tail@) =~= views(b2).push(x@));
                    assert(lst.take(l + 1) =~= lst.take(l as int).push(lst[l as int]));
                    assert(views(lst.take(l + 1)) =~= views(lst.take(l as int)).push(x@));
                }
                l = l + 1;
            }
            proof {
                let lst = views(reward@[k as int].1.acc_check_list@);
                assert(reward@[k as int].1.acc_check_list@.take(l as int) == reward@[k as int].1.acc_check_list@);
                assert(rv[k as int].1.list == lst);
                assert forall|x: Seq<char>| #[trigger] views(acc_tail@).contains(x) <==> (main_part.contains(x)
                    || (exists|j: int| 0 <= j < k + 1 && #[trigger] rv[j].1.list.contains(x))) by {
                    let full = views(acc_tail@);
                    if full.contains(x) {
                        let q = choose|q: int| 0 <= q < full.len() && full[q] == x;
                        if q < before.len() {
                            assert(before[q] == x);
                            assert(before.contains(x));
                        } else {
                            assert(lst[q - before.len()] == x);
                            assert(rv[k as int].1.list.contains(x));
                        }
                    }
                    if main_part.contains(x) || (exists|j: int| 0 <= j < k && #[trigger] rv[j].1.list.contains(x)) {
                        assert(before.contains(x));
                        let q = choose|q: int| 0 <= q < before.len() && before[q] == x;
                        assert(full[q] == x);
                    }
                    if exists|j: int| 0 <= j < k + 1 && #[trigger] rv[j].1.list.contains(x) {
                        let j = choose|j: int| 0 <= j < k + 1 && #[trigger] rv[j].1.list.contains(x);
                        if j == k {
                            let q = choose|q: int| 0 <= q < lst.len() && lst[q] == x;
                            assert(full[before.len() + q] == x);
                        }
                    }
                }
            }
            k = k + 1;
        }
        let ghost a1 = views(accounts@);
        proof {
            lemma_add_unique(a1, views(acc_tail@));
        }
        add_unique_exec(&mut accounts, &acc_tail);
        let mut ruleset_main: Vec<(String, Vec<CookedRuleEntry>)> = Vec::new();
        let mut ruleset_reward: Vec<CookedRuleEntry> = Vec::new();
        assert(cooked_seq(ruleset_reward@) =~= rv.take(0).map_values(|p: (Option<Seq<char>>, CookedV)| p.1));
        let mut q: usize = 0;
        assert(mv.take(0) =~= Seq::<(Option<Seq<char>>, CookedV)>::empty());
        assert(groups_v(ruleset_main@) =~= Seq::<(Seq<char>, Seq<CookedV>)>::empty());
        while q < main.len()
            invariant
                q <= main@.len(),
                mv == pairs_v(main@),
                groups_v(ruleset_main@) == group_pairs(mv.take(q as int)),
            decreases main@.len() - q,
        {
            let key_s = match &main[q].0 {
                Some(k) => k.clone(),
                None => String::new(),
            };
            let entry = copy_cooked(&main[q].1);
            proof {
                assert(mv.take(q + 1).drop_last() == mv.take(q as int));
                assert(mv.take(q + 1).last() == mv[q as int]);
            }
            add_to_group(&mut ruleset_main, key_s, entry);
            q = q + 1;
        }
        assert(mv.take(q as int) == mv);
        let mut q: usize = 0;
        while q < reward.len()
            invariant
                q <= reward@.len(),
                rv == pairs_v(reward@),
                cooked_seq(ruleset_reward@) == rv.take(q as int).map_values(|p: (Option<Seq<char>>, CookedV)| p.1),
            decreases reward@.len() - q,
        {
            let entry = copy_cooked(&reward[q].1);
            let ghost before = ruleset_reward@;
            ruleset_reward.push(entry);
            proof {
                let f = |p: (Option<Seq<char>>, CookedV)| p.1;
                assert(cooked_seq(ruleset_reward@) =~= cooked_seq(before).push(cooked_v(entry)));
                assert(rv.take(q + 1) =~= rv.take(q as int).push(rv[q as int]));
                assert(rv.take(q + 1).map_values(f) =~= rv.take(q as int).map_values(f).push(f(rv[q as int])));
            }
            q = q + 1;
        }
        assert(rv.take(q as int) == rv);
        proof {
            assert forall|x: Seq<char>| #[trigger] views(accounts@).contains(x) <==> named_account(ut, mv, rv, x) by {
                if exists|j: int| 0 <= j < ut.len() && #[trigger] ut[j].0 == x {
                }
            }
        }
        Ok(CookedRule {
            fallback: rule.fallback,
            accounts,
            hints: rule.hints,
            tags,
            ruleset_main,
            ruleset_reward,
        })
    }
}

} // verus!
