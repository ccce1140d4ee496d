//! Token trie stored as a flat arena of nodes; node 0 is the root.

use vstd::prelude::*;

verus! {

/// What a trie node marks the end of.
#[derive(Clone, Copy, Debug, PartialEq, Eq, Structural)]
pub enum NodeKind {
    /// An inner node: a proper prefix of some token, not a token itself.
    Staging,
    AccountToken,
    HintToken,
}

/// One trie node: its character, its kind and the arena indices of its
/// children.
#[derive(Debug)]
pub struct Node {
    pub ch: char,
    pub kind: NodeKind,
    pub next: Vec<usize>,
}

/// The token trie. `paths[n]` is the text spelled from the root to node
/// `n`; node `n` other than the root is entry `slot[n]` of the children of
/// `parent[n]`; `accounts` and `hints` are the tokens registered so far.
pub struct Trie {
    pub nodes: Vec<Node>,
    pub paths: Ghost<Seq<Seq<char>>>,
    pub parent: Ghost<Seq<usize>>,
    pub slot: Ghost<Seq<usize>>,
    pub accounts: Ghost<Set<Seq<char>>>,
    pub hints: Ghost<Set<Seq<char>>>,
}

/// The first of the nodes `kids` whose character is `ch`.
pub open spec fn child_in(t: Trie, kids: Seq<usize>, ch: char) -> Option<usize>
    decreases kids.len(),
{
    if kids.len() == 0 {
        None
    } else if t.nodes@[kids[0] as int].ch == ch {
        Some(kids[0])
    } else {
        child_in(t, kids.drop_first(), ch)
    }
}

/// Children are in the arena and spell their parent's text plus their
/// character.
pub open spec fn wf_children(t: Trie) -> bool {
    forall|n: int, j: int|
        0 <= n < t.nodes@.len() && 0 <= j < t.nodes@[n].next@.len() ==> {
            let c = #[trigger] t.nodes@[n].next@[j];
            &&& 0 < c < t.nodes@.len()
            &&& t.paths@[c as int] == t.paths@[n].push(t.nodes@[c as int].ch)
        }
}

/// Every node but the root is a child of its recorded parent.
pub open spec fn wf_parents(t: Trie) -> bool {
    forall|n: int|
        0 < n < t.nodes@.len() ==> {
            let p = #[trigger] t.parent@[n] as int;
            &&& 0 <= p < t.nodes@.len()
            &&& t.slot@[n] < t.nodes@[p].next@.len()
            &&& t.nodes@[p].next@[t.slot@[n] as int] == n
        }
}

/// At most one child per character.
pub open spec fn wf_unique(t: Trie) -> bool {
    forall|n: int, j1: int, j2: int|
        0 <= n < t.nodes@.len() && 0 <= j1 < t.nodes@[n].next@.len() && 0 <= j2 < t.nodes@[n].next@.len()
            && t.nodes@[#[trigger] t.nodes@[n].next@[j1] as int].ch == t.nodes@[#[trigger] t.nodes@[n].next@[j2] as int].ch
            ==> j1 == j2
}

/// A node's kind is backed by a registered token.
pub open spec fn wf_kinds(t: Trie) -> bool {
    &&& forall|n: int|
        0 <= n < t.nodes@.len() ==> (#[trigger] t.nodes@[n].kind == NodeKind::AccountToken
            ==> t.accounts@.contains(t.paths@[n]))
    &&& forall|n: int|
        0 <= n < t.nodes@.len() ==> (#[trigger] t.nodes@[n].kind == NodeKind::HintToken
            ==> t.hints@.contains(t.paths@[n]))
}

/// The node reached from the root by following the characters of `w`.
pub open spec fn walk(t: Trie, w: Seq<char>) -> Option<usize>
    decreases w.len(),
{
    if w.len() == 0 {
        Some(0)
    } else {
        match walk(t, w.drop_last()) {
            Some(p) => child_in(t, t.nodes@[p as int].next@, w.last()),
            None => None,
        }
    }
}

/// What the text `w` is in the trie: the kind of the node it reaches, or
/// `Staging` when it reaches none.
pub open spec fn kind_at(t: Trie, w: Seq<char>) -> NodeKind {
    match walk(t, w) {
        Some(n) => t.nodes@[n as int].kind,
        None => NodeKind::Staging,
    }
}

/// `p` is a prefix of `s`.
pub open spec fn is_prefix(p: Seq<char>, s: Seq<char>) -> bool {
    p.len() <= s.len() && s.take(p.len() as int) == p
}

proof fn lemma_child_in_found(t: Trie, kids: Seq<usize>, ch: char)
    ensures
        child_in(t, kids, ch) matches Some(c) ==> exists|j: int| 0 <= j < kids.len() && kids[j] == c && t.nodes@[c as int].ch == ch,
    decreases kids.len(),
{
    if kids.len() > 0 && t.nodes@[kids[0] as int].ch != ch {
        lemma_child_in_found(t, kids.drop_first(), ch);
        if child_in(t, kids, ch) is Some {
            let c = child_in(t, kids, ch)->0;
            let j = choose|j: int| 0 <= j < kids.len() - 1 && kids.drop_first()[j] == c && t.nodes@[c as int].ch == ch;
            assert(kids[j + 1] == c);
        }
    }
}

proof fn lemma_child_in_finds(t: Trie, kids: Seq<usize>, j: int, ch: char)
    requires
        0 <= j < kids.len(),
        t.nodes@[kids[j] as int].ch == ch,
        forall|i: int| 0 <= i < j ==> t.nodes@[kids[i] as int].ch != ch,
    ensures
        child_in(t, kids, ch) == Some(kids[j]),
    decreases kids.len(),
{
    if j > 0 {
        assert forall|i: int| 0 <= i < j - 1 implies t.nodes@[kids.drop_first()[i] as int].ch != ch by {
            assert(kids.drop_first()[i] == kids[i + 1]);
        }
        lemma_child_in_finds(t, kids.drop_first(), j - 1, ch);
    }
}

/// In a well-formed trie, following `w` from the root reaches exactly the
/// node whose text is `w`.
pub proof fn lemma_walk(t: Trie, w: Seq<char>)
    requires
        t.wf(),
    ensures
        walk(t, w) matches Some(n) ==> n < t.nodes@.len() && t.paths@[n as int] == w,
        forall|n: int| 0 <= n < t.nodes@.len() && t.paths@[n] == w ==> walk(t, w) == Some(n as usize),
    decreases w.len(),
{
    if w.len() > 0 {
        lemma_walk(t, w.drop_last());
        if walk(t, w.drop_last()) is Some {
            let p = walk(t, w.drop_last())->0;
            lemma_child_in_found(t, t.nodes@[p as int].next@, w.last());
        }
        assert forall|n: int| 0 <= n < t.nodes@.len() && t.paths@[n] == w implies walk(t, w) == Some(n as usize) by {
            if n == 0 {
                assert(t.paths@[0].len() == 0);
            }
            let p = t.parent@[n] as int;
            let j = t.slot@[n] as int;
            assert(t.nodes@[p].next@[j] == n);
            assert(t.paths@[n] == t.paths@[p].push(t.nodes@[n].ch));
            assert(t.paths@[p] == w.drop_last());
            assert(walk(t, w.drop_last()) == Some(p as usize));
            let kids = t.nodes@[p].next@;
            assert forall|i: int| 0 <= i < j implies t.nodes@[kids[i] as int].ch != w.last() by {
                if t.nodes@[kids[i] as int].ch == w.last() {
                    assert(t.nodes@[kids[i] as int].ch == t.nodes@[kids[j] as int].ch);
                }
            }
            lemma_child_in_finds(t, kids, j, w.last());
        }
    } else {
        assert forall|n: int| 0 <= n < t.nodes@.len() && t.paths@[n] == w implies walk(t, w) == Some(n as usize) by {
            if n != 0 {
                let p = t.parent@[n] as int;
                let j = t.slot@[n] as int;
                assert(t.nodes@[p].next@[j] == n);
                assert(t.paths@[n] == t.paths@[p].push(t.nodes@[n].ch));
            }
        }
    }
}


/// A trie `t1` that keeps the nodes of `t0`, whose only node of a new kind
/// is `cur` with text `s`, and whose added nodes are inner: `s` reaches
/// `cur`, and every other text is what it was in `t0`.
proof fn lemma_feed_walks(t0: Trie, t1: Trie, s: Seq<char>, cur: int, trail: Seq<usize>)
    requires
        trail.len() == s.len() + 1,
        forall|j: int| 0 <= j <= s.len() ==> #[trigger] trail[j] < t1.nodes@.len() && t1.paths@[trail[j] as int] == s.take(j),
        forall|n: int| t0.nodes@.len() <= n < t1.nodes@.len() ==> is_prefix(#[trigger] t1.paths@[n], s),
        t0.wf(),
        t1.wf(),
        t0.nodes@.len() <= t1.nodes@.len(),
        0 <= cur < t1.nodes@.len(),
        t1.paths@[cur] == s,
        forall|n: int| 0 <= n < t0.nodes@.len() ==> #[trigger] t1.paths@[n] == t0.paths@[n],
        forall|n: int| 0 <= n < t1.nodes@.len() && n != cur ==> #[trigger] t1.nodes@[n].kind
            == (if n < t0.nodes@.len() { t0.nodes@[n].kind } else { NodeKind::Staging }),
    ensures
        walk(t1, s) == Some(cur as usize),
        forall|w: Seq<char>| w != s ==> #[trigger] kind_at(t1, w) == kind_at(t0, w),
        forall|w: Seq<char>| #[trigger] walk(t1, w) is Some <==> (walk(t0, w) is Some || is_prefix(w, s)),
{
    assert forall|w: Seq<char>| #[trigger] walk(t1, w) is Some <==> (walk(t0, w) is Some || is_prefix(w, s)) by {
        lemma_walk(t1, w);
        lemma_walk(t0, w);
        if walk(t0, w) is Some {
            let m = walk(t0, w)->0 as int;
            assert(t1.paths@[m] == w);
        }
        if is_prefix(w, s) {
            let n = trail[w.len() as int] as int;
            assert(t1.paths@[n] == w);
        }
        if walk(t1, w) is Some {
            let n = walk(t1, w)->0 as int;
            if n < t0.nodes@.len() {
                assert(t0.paths@[n] == w);
            }
        }
    }
    lemma_walk(t1, s);
    assert forall|w: Seq<char>| w != s implies #[trigger] kind_at(t1, w) == kind_at(t0, w) by {
        lemma_walk(t1, w);
        lemma_walk(t0, w);
        if walk(t0, w) is Some {
            let m = walk(t0, w)->0 as int;
            assert(t1.paths@[m] == w);
            assert(walk(t1, w) == Some(m as usize));
            assert(m != cur);
        } else if walk(t1, w) is Some {
            let n = walk(t1, w)->0 as int;
            assert(n != cur);
            if n < t0.nodes@.len() {
                assert(t0.paths@[n] == w);
            }
        }
    }
}

impl Trie {
    /// The shape of the arena: children in it, spelling their parent's text
    /// plus their character, one child per character, every node reachable
    /// from the root; a node's kind is backed by a registered token.
    pub open spec fn wf(&self) -> bool {
        &&& self.nodes@.len() >= 1
        &&& self.paths@.len() == self.nodes@.len()
        &&& self.parent@.len() == self.nodes@.len()
        &&& self.slot@.len() == self.nodes@.len()
        &&& self.paths@[0] == Seq::<char>::empty()
        &&& wf_children(*self)
        &&& wf_parents(*self)
        &&& wf_unique(*self)
        &&& wf_kinds(*self)
    }

    /// A trie with only its root and no tokens.
    pub fn new() -> (r: Trie)
        ensures
            r.wf(),
            r.nodes@.len() == 1,
            forall|w: Seq<char>| #[trigger] kind_at(r, w) == NodeKind::Staging,
            forall|w: Seq<char>| #[trigger] walk(r, w) is Some <==> w.len() == 0,
            r.accounts@ == Set::<Seq<char>>::empty(),
            r.hints@ == Set::<Seq<char>>::empty(),
    {
        let ghost p = seq![Seq::<char>::empty()];
        let ghost z = seq![0usize];
        let mut nodes: Vec<Node> = Vec::new();
        nodes.push(Node { ch: '\0', kind: NodeKind::Staging, next: Vec::new() });
        let r = Trie {
            nodes,
            paths: Ghost(p),
            parent: Ghost(z),
            slot: Ghost(z),
            accounts: Ghost(Set::empty()),
            hints: Ghost(Set::empty()),
        };
        assert forall|w: Seq<char>| #[trigger] kind_at(r, w) == NodeKind::Staging by {
            lemma_walk(r, w);
        }
        assert forall|w: Seq<char>| #[trigger] walk(r, w) is Some <==> w.len() == 0 by {
            lemma_walk(r, w);
        }
        r
    }

    /// The child of node `at` whose character is `ch`, if any.
    pub fn find(&self, at: usize, ch: char) -> (r: Option<usize>)
        requires
            self.wf(),
            at < self.nodes@.len(),
        ensures
            r == child_in(*self, self.nodes@[at as int].next@, ch),
            match r {
                Some(c) => c < self.nodes@.len() && self.paths@[c as int] == self.paths@[at as int].push(ch),
                None => forall|j: int|
                    0 <= j < self.nodes@[at as int].next@.len() ==> self.nodes@[self.nodes@[at as int].next@[j] as int].ch != ch,
            },
    {
        let node = &self.nodes[at];
        let mut j: usize = 0;
        assert(node.next@.skip(0) == node.next@);
        while j < node.next.len()
            invariant
                child_in(*self, node.next@, ch) == child_in(*self, node.next@.skip(j as int), ch),
                self.wf(),
                at < self.nodes@.len(),
                node == &self.nodes@[at as int],
                j <= node.next@.len(),
                forall|k: int| 0 <= k < j ==> self.nodes@[node.next@[k] as int].ch != ch,
            decreases node.next@.len() - j,
        {
            let c = node.next[j];
            assert(0 < c < self.nodes@.len()) by {
                assert(self.nodes@[at as int].next@[j as int] == c);
            }
            assert(node.next@.skip(j as int)[0] == c);
            if self.nodes[c].ch == ch {
                return Some(c);
            }
            assert(node.next@.skip(j as int).drop_first() == node.next@.skip(j + 1));
            j = j + 1;
        }
        assert(node.next@.skip(j as int).len() == 0);
        None
    }

    /// Appends a new child with character `ch` under node `at`, which has
    /// none with that character yet, and returns its index.
    pub fn push_node(&mut self, at: usize, ch: char) -> (r: usize)
        requires
            old(self).wf(),
            at < old(self).nodes@.len(),
            old(self).nodes@.len() < usize::MAX,
            forall|j: int| 0 <= j < old(self).nodes@[at as int].next@.len()
                ==> old(self).nodes@[#[trigger] old(self).nodes@[at as int].next@[j] as int].ch != ch,
        ensures
            final(self).wf(),
            r == old(self).nodes@.len(),
            final(self).nodes@.len() == old(self).nodes@.len() + 1,
            final(self).paths@[r as int] == old(self).paths@[at as int].push(ch),
            final(self).nodes@[r as int].ch == ch,
            final(self).nodes@[r as int].kind == NodeKind::Staging,
            final(self).nodes@[at as int].next@ == old(self).nodes@[at as int].next@.push(r),
            forall|n: int| 0 <= n < old(self).nodes@.len() ==> {
                &&& #[trigger] final(self).paths@[n] == old(self).paths@[n]
                &&& final(self).nodes@[n].kind == old(self).nodes@[n].kind
                &&& final(self).nodes@[n].ch == old(self).nodes@[n].ch
            },
            final(self).accounts@ == old(self).accounts@,
            final(self).hints@ == old(self).hints@,
    {
        let idx = self.nodes.len();
        let ghost p = self.paths@[at as int].push(ch);
        let ghost at_slot = self.nodes@[at as int].next@.len();
        self.nodes.push(Node { ch, kind: NodeKind::Staging, next: Vec::new() });
        self.paths = Ghost(self.paths@.push(p));
        self.parent = Ghost(self.parent@.push(at));
        self.slot = Ghost(self.slot@.push(at_slot as usize));
        let parent_ch = self.nodes[at].ch;
        let parent_kind = self.nodes[at].kind;
        let mut next: Vec<usize> = Vec::new();
        let mut j: usize = 0;
        while j < self.nodes[at].next.len()
            invariant
                at < self.nodes@.len(),
                j <= self.nodes@[at as int].next@.len(),
                next@ == self.nodes@[at as int].next@.subrange(0, j as int),
            decreases self.nodes@[at as int].next@.len() - j,
        {
            next.push(self.nodes[at].next[j]);
            j = j + 1;
        }
        assert(next@ == self.nodes@[at as int].next@);
        next.push(idx);
        let ghost before = self.nodes@;
        self.nodes.set(at, Node { ch: parent_ch, kind: parent_kind, next });
        assert forall|n: int| 0 <= n < self.nodes@.len() && n != at as int implies #[trigger] self.nodes@[n].next@
            == (if n < idx as int { old(self).nodes@[n].next@ } else { Seq::<usize>::empty() }) by {
            if n < idx as int {
                assert(self.nodes@[n] == old(self).nodes@[n]);
            }
        }
        assert(wf_children(*self)) by {
            assert forall|n: int, j: int|
                0 <= n < self.nodes@.len() && 0 <= j < self.nodes@[n].next@.len() implies {
                    let c = #[trigger] self.nodes@[n].next@[j];
                    &&& 0 < c < self.nodes@.len()
                    &&& self.paths@[c as int] == self.paths@[n].push(self.nodes@[c as int].ch)
                } by {
                if n == at as int {
                    if j < self.nodes@[n].next@.len() - 1 {
                        assert(self.nodes@[n].next@[j] == old(self).nodes@[n].next@[j]);
                    }
                } else if n < idx as int {
                    assert(self.nodes@[n] == old(self).nodes@[n]);
                }
            }
        }
        assert(wf_parents(*self)) by {
            assert forall|n: int| 0 < n < self.nodes@.len() implies {
                let p = #[trigger] self.parent@[n] as int;
                &&& 0 <= p < self.nodes@.len()
                &&& self.slot@[n] < self.nodes@[p].next@.len()
                &&& self.nodes@[p].next@[self.slot@[n] as int] == n
            } by {
                if n < idx as int {
                    let p = old(self).parent@[n] as int;
                    assert(old(self).nodes@[p].next@[old(self).slot@[n] as int] == n);
                    if p == at as int {
                        assert(self.nodes@[p].next@[self.slot@[n] as int] == n);
                    } else {
                        assert(self.nodes@[p] == old(self).nodes@[p]);
                    }
                }
            }
        }
        assert(wf_unique(*self)) by {
            assert forall|n: int, j1: int, j2: int|
                0 <= n < self.nodes@.len() && 0 <= j1 < self.nodes@[n].next@.len() && 0 <= j2 < self.nodes@[n].next@.len()
                    && self.nodes@[#[trigger] self.nodes@[n].next@[j1] as int].ch == self.nodes@[#[trigger] self.nodes@[n].next@[j2] as int].ch
                implies j1 == j2 by {
                if n == at as int {
                    let last = self.nodes@[n].next@.len() - 1;
                    let c1 = self.nodes@[n].next@[j1];
                    let c2 = self.nodes@[n].next@[j2];
                    if j1 < last {
                        assert(c1 == old(self).nodes@[n].next@[j1]);
                        assert(self.nodes@[c1 as int].ch == old(self).nodes@[c1 as int].ch);
                    }
                    if j2 < last {
                        assert(c2 == old(self).nodes@[n].next@[j2]);
                        assert(self.nodes@[c2 as int].ch == old(self).nodes@[c2 as int].ch);
                    }
                    if j1 < last && j2 < last {
                        assert(old(self).nodes@[old(self).nodes@[n].next@[j1] as int].ch
                            == old(self).nodes@[old(self).nodes@[n].next@[j2] as int].ch);
                    }
                } else if n < idx as int {
                    assert(self.nodes@[n] == old(self).nodes@[n]);
                    let c1 = self.nodes@[n].next@[j1];
                    let c2 = self.nodes@[n].next@[j2];
                    assert(old(self).nodes@[c1 as int].ch == old(self).nodes@[c2 as int].ch);
                }
            }
        }
        assert(wf_kinds(*self)) by {
            assert forall|n: int| 0 <= n < self.nodes@.len() implies (#[trigger] self.nodes@[n].kind
                == NodeKind::AccountToken ==> self.accounts@.contains(self.paths@[n])) by {
                if n < idx as int {
                    assert(self.paths@[n] == old(self).paths@[n]);
                }
            }
            assert forall|n: int| 0 <= n < self.nodes@.len() implies (#[trigger] self.nodes@[n].kind
                == NodeKind::HintToken ==> self.hints@.contains(self.paths@[n])) by {
                if n < idx as int {
                    assert(self.paths@[n] == old(self).paths@[n]);
                }
            }
        }
        idx
    }

    #[verifier::rlimit(60)]
    /// Inserts `s` as a path, creating missing nodes, and marks its last
    /// node with `kind`: afterwards `s` reaches a node of that kind and every
    /// other text is what it was.
    pub fn feed(&mut self, s: &Vec<char>, kind: NodeKind)
        requires
            old(self).wf(),
            old(self).nodes@.len() + s@.len() < usize::MAX,
        ensures
            final(self).wf(),
            final(self).nodes@.len() <= old(self).nodes@.len() + s@.len(),
            walk(*final(self), s@) matches Some(n) && final(self).nodes@[n as int].kind == kind,
            kind_at(*final(self), s@) == kind,
            forall|w: Seq<char>| w != s@ ==> #[trigger] kind_at(*final(self), w) == kind_at(*old(self), w),
            forall|w: Seq<char>| #[trigger] walk(*final(self), w) is Some <==> (walk(*old(self), w) is Some || is_prefix(w, s@)),
            final(self).accounts@ == (if kind == NodeKind::AccountToken {
                old(self).accounts@.insert(s@)
            } else {
                old(self).accounts@
            }),
            final(self).hints@ == (if kind == NodeKind::HintToken {
                old(self).hints@.insert(s@)
            } else {
                old(self).hints@
            }),
    {
        let ghost n0 = old(self).nodes@.len();
        let mut cur: usize = 0;
        let mut i: usize = 0;
        let ghost mut trail: Seq<usize> = seq![0usize];
        assert(s@.take(0) =~= Seq::<char>::empty());
        while i < s.len()
            invariant
                self.wf(),
                i <= s@.len(),
                cur < self.nodes@.len(),
                self.paths@[cur as int] == s@.subrange(0, i as int),
                n0 == old(self).nodes@.len(),
                n0 <= self.nodes@.len() <= n0 + i,
                old(self).nodes@.len() + s@.len() < usize::MAX,
                self.accounts@ == old(self).accounts@,
                self.hints@ == old(self).hints@,
                old(self).wf(),
                forall|n: int| 0 <= n < n0 ==> #[trigger] self.paths@[n] == old(self).paths@[n],
                forall|n: int| 0 <= n < n0 ==> #[trigger] self.nodes@[n].kind == old(self).nodes@[n].kind,
                forall|n: int| n0 <= n < self.nodes@.len() ==> #[trigger] self.nodes@[n].kind == NodeKind::Staging,
                forall|n: int| n0 <= n < self.nodes@.len() ==> is_prefix(#[trigger] self.paths@[n], s@),
                trail.len() == i + 1,
                forall|j: int| 0 <= j <= i ==> #[trigger] trail[j] < self.nodes@.len() && self.paths@[trail[j] as int] == s@.take(j),
            decreases s@.len() - i,
        {
            let ch = s[i];
            assert(s@.subrange(0, i + 1) == s@.subrange(0, i as int).push(ch));
            let ghost tr0 = trail;
            let ghost len0 = self.nodes@.len();
            match self.find(cur, ch) {
                Some(nn) => {
                    cur = nn;
                },
                None => {
                    let ghost before = *self;
                    cur = self.push_node(cur, ch);
                    assert forall|n: int| 0 <= n < n0 implies #[trigger] self.paths@[n] == old(self).paths@[n] by {
                        assert(self.paths@[n] == before.paths@[n]);
                    }
                    assert forall|n: int| 0 <= n < n0 implies #[trigger] self.nodes@[n].kind == old(self).nodes@[n].kind by {
                        assert(self.paths@[n] == before.paths@[n]);
                        assert(before.nodes@[n].kind == old(self).nodes@[n].kind);
                    }
                    assert forall|n: int| n0 <= n < self.nodes@.len() implies #[trigger] self.nodes@[n].kind
                        == NodeKind::Staging by {
                        if n < before.nodes@.len() {
                            assert(self.paths@[n] == before.paths@[n]);
                            assert(before.nodes@[n].kind == NodeKind::Staging);
                        }
                    }
                    assert forall|n: int| n0 <= n < self.nodes@.len() implies is_prefix(#[trigger] self.paths@[n], s@) by {
                        if n < before.nodes@.len() {
                            assert(self.paths@[n] == before.paths@[n]);
                        } else {
                            assert(self.paths@[n] == s@.subrange(0, i + 1));
                            assert(s@.take(i + 1) == s@.subrange(0, i + 1));
                        }
                    }
                },
            }
            proof {
                trail = tr0.push(cur);
                assert forall|j: int| 0 <= j <= i + 1 implies #[trigger] trail[j] < self.nodes@.len()
                    && self.paths@[trail[j] as int] == s@.take(j) by {
                    if j <= i {
                        assert(trail[j] == tr0[j]);
                        assert(tr0[j] < len0);
                    } else {
                        assert(s@.take(j) == s@.subrange(0, i + 1));
                    }
                }
            }
            i = i + 1;
        }
        assert(s@.subrange(0, s@.len() as int) == s@);
        if kind == NodeKind::AccountToken {
            self.accounts = Ghost(self.accounts@.insert(s@));
        } else if kind == NodeKind::HintToken {
            self.hints = Ghost(self.hints@.insert(s@));
        }
        let c = self.nodes[cur].ch;
        let mut next: Vec<usize> = Vec::new();
        let mut j: usize = 0;
        while j < self.nodes[cur].next.len()
            invariant
                cur < self.nodes@.len(),
                j <= self.nodes@[cur as int].next@.len(),
                next@ == self.nodes@[cur as int].next@.subrange(0, j as int),
            decreases self.nodes@[cur as int].next@.len() - j,
        {
            next.push(self.nodes[cur].next[j]);
            j = j + 1;
        }
        assert(next@ == self.nodes@[cur as int].next@);
        let ghost mid = *self;
        self.nodes.set(cur, Node { ch: c, kind, next });
        assert forall|n: int| 0 <= n < self.nodes@.len() implies #[trigger] self.nodes@[n].next@ == mid.nodes@[n].next@
            && self.nodes@[n].ch == mid.nodes@[n].ch && (n != cur ==> self.nodes@[n].kind == mid.nodes@[n].kind) by {
            if n != cur as int {
                assert(self.nodes@[n] == mid.nodes@[n]);
            }
        }
        assert(wf_children(*self)) by {
            assert forall|n: int, j: int|
                0 <= n < self.nodes@.len() && 0 <= j < self.nodes@[n].next@.len() implies {
                    let c = #[trigger] self.nodes@[n].next@[j];
                    &&& 0 < c < self.nodes@.len()
                    &&& self.paths@[c as int] == self.paths@[n].push(self.nodes@[c as int].ch)
                } by {
                assert(self.nodes@[n].next@ == mid.nodes@[n].next@);
                assert(mid.nodes@[n].next@[j] == self.nodes@[n].next@[j]);
            }
        }
        assert(wf_parents(*self)) by {
            assert forall|n: int| 0 < n < self.nodes@.len() implies {
                let p = #[trigger] self.parent@[n] as int;
                &&& 0 <= p < self.nodes@.len()
                &&& self.slot@[n] < self.nodes@[p].next@.len()
                &&& self.nodes@[p].next@[self.slot@[n] as int] == n
            } by {
                let p = self.parent@[n] as int;
                assert(self.nodes@[p].next@ == mid.nodes@[p].next@);
            }
        }
        assert(wf_unique(*self)) by {
            assert forall|n: int, j1: int, j2: int|
                0 <= n < self.nodes@.len() && 0 <= j1 < self.nodes@[n].next@.len() && 0 <= j2 < self.nodes@[n].next@.len()
                    && self.nodes@[#[trigger] self.nodes@[n].next@[j1] as int].ch == self.nodes@[#[trigger] self.nodes@[n].next@[j2] as int].ch
                implies j1 == j2 by {
                assert(self.nodes@[n].next@ == mid.nodes@[n].next@);
                let c1 = self.nodes@[n].next@[j1];
                let c2 = self.nodes@[n].next@[j2];
                assert(self.nodes@[c1 as int].ch == mid.nodes@[c1 as int].ch);
                assert(self.nodes@[c2 as int].ch == mid.nodes@[c2 as int].ch);
                assert(mid.nodes@[mid.nodes@[n].next@[j1] as int].ch == mid.nodes@[mid.nodes@[n].next@[j2] as int].ch);
            }
        }
        assert(wf_kinds(*self)) by {
            assert forall|n: int| 0 <= n < self.nodes@.len() implies (#[trigger] self.nodes@[n].kind
                == NodeKind::AccountToken ==> self.accounts@.contains(self.paths@[n])) by {
                if n != cur as int {
                    assert(self.nodes@[n] == mid.nodes@[n]);
                }
            }
            assert forall|n: int| 0 <= n < self.nodes@.len() implies (#[trigger] self.nodes@[n].kind
                == NodeKind::HintToken ==> self.hints@.contains(self.paths@[n])) by {
                if n != cur as int {
                    assert(self.nodes@[n] == mid.nodes@[n]);
                }
            }
        }
        proof {
            assert forall|n: int| 0 <= n < self.nodes@.len() && n != cur implies #[trigger] self.nodes@[n].kind
                == (if n < n0 { old(self).nodes@[n].kind } else { NodeKind::Staging }) by {
                assert(self.nodes@[n] == mid.nodes@[n]);
                if n < n0 {
                    assert(mid.nodes@[n].kind == old(self).nodes@[n].kind);
                } else {
                    assert(mid.nodes@[n].kind == NodeKind::Staging);
                }
            }
            assert forall|n: int| 0 <= n < old(self).nodes@.len() implies #[trigger] self.paths@[n] == old(self).paths@[n] by {
                assert(mid.paths@[n] == old(self).paths@[n]);
            }
            assert forall|n: int| n0 <= n < self.nodes@.len() implies is_prefix(#[trigger] self.paths@[n], s@) by {
                assert(self.paths@[n] == mid.paths@[n]);
            }
            assert forall|j: int| 0 <= j <= s@.len() implies #[trigger] trail[j] < self.nodes@.len()
                && self.paths@[trail[j] as int] == s@.take(j) by {
                assert(mid.paths@[trail[j] as int] == s@.take(j));
            }
            lemma_feed_walks(*old(self), *self, s@, cur as int, trail);
        }
    }
}

} // verus!
