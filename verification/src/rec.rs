//! The graph of which channel can reach which, and the search for a cycle in it.

use vstd::prelude::*;
use vstd::string::StringExecFns;
use crate::text::{joined, quote, quoted};
use crate::text::{ascending, locate, names, position, precedes, rank, same_text, tail};
use crate::text::{lemma_ascending_no_duplicates, lemma_insert_ascending, lemma_rank_splits};

verus! {

/// A directed graph over names: the parents in ascending order, and for each
/// the children in the order in which they were added.
pub struct Graph {
    pub keys: Seq<Seq<char>>,
    pub kids: Seq<Seq<Seq<char>>>,
}

impl Graph {
    /// Every parent has its list of children, and the parents ascend.
    pub open spec fn wf(self) -> bool {
        self.keys.len() == self.kids.len() && ascending(self.keys)
    }

    /// The children of `n`, none where `n` is no parent.
    pub open spec fn children(self, n: Seq<char>) -> Seq<Seq<char>> {
        if self.keys.contains(n) && self.keys.index_of(n) < self.kids.len() {
            self.kids[self.keys.index_of(n)]
        } else {
            Seq::empty()
        }
    }

    /// `b` is a child of `a`.
    pub open spec fn edge(self, a: Seq<char>, b: Seq<char>) -> bool {
        self.children(a).contains(b)
    }

    /// Each name of `p` but the last has the next one as a child.
    pub open spec fn is_path(self, p: Seq<Seq<char>>) -> bool {
        forall|i: int| 0 <= i < p.len() - 1 ==> self.edge(#[trigger] p[i], p[i + 1])
    }

    /// `b` can be reached from `a` over one edge or more.
    pub open spec fn reaches(self, a: Seq<char>, b: Seq<char>) -> bool {
        exists|p: Seq<Seq<char>>|
            p.len() >= 2 && #[trigger] self.is_path(p) && p[0] == a && p.last() == b
    }

    /// No name can be reached from itself.
    pub open spec fn acyclic(self) -> bool {
        forall|n: Seq<char>| !self.reaches(n, n)
    }

    /// `c` is a path whose last name has the first as a child.
    pub open spec fn is_cycle(self, c: Seq<Seq<char>>) -> bool {
        c.len() > 0 && self.is_path(c) && self.edge(c.last(), c[0])
    }

    /// All names of the graph, parents and children.
    pub open spec fn nodes(self) -> Set<Seq<char>> {
        (self.keys + gather(self.kids)).to_set()
    }

    /// The graph after `more` was added to the children of `p`.
    pub open spec fn extended(self, p: Seq<char>, more: Seq<Seq<char>>) -> Graph {
        if self.keys.contains(p) {
            let at = self.keys.index_of(p);
            Graph { keys: self.keys, kids: self.kids.update(at, self.kids[at] + more) }
        } else {
            let at = rank(self.keys, p);
            Graph { keys: self.keys.insert(at, p), kids: self.kids.insert(at, more) }
        }
    }

    /// The graph after `c` was put among the children of `p`, at its place
    /// in their order, unless it stood there already.
    pub open spec fn linked(self, p: Seq<char>, c: Seq<char>) -> Graph {
        let g = self.extended(p, Seq::empty());
        let at = g.keys.index_of(p);
        if g.kids[at].contains(c) {
            g
        } else {
            Graph {
                keys: g.keys,
                kids: g.kids.update(at, g.kids[at].insert(rank(g.kids[at], c), c)),
            }
        }
    }

    /// The children of each parent ascend.
    pub open spec fn tidy(self) -> bool {
        forall|i: int| 0 <= i < self.kids.len() ==> ascending(#[trigger] self.kids[i])
    }
}

/// The lists of children, one after the other.
pub open spec fn gather(kids: Seq<Seq<Seq<char>>>) -> Seq<Seq<char>>
    decreases kids.len(),
{
    if kids.len() == 0 {
        Seq::empty()
    } else {
        gather(kids.drop_last()) + kids.last()
    }
}

proof fn lemma_gather_holds(kids: Seq<Seq<Seq<char>>>, i: int, j: int)
    requires
        0 <= i < kids.len(),
        0 <= j < kids[i].len(),
    ensures
        gather(kids).contains(kids[i][j]),
    decreases kids.len(),
{
    if i == kids.len() - 1 {
        let front = gather(kids.drop_last());
        assert(gather(kids)[front.len() + j] == kids[i][j]);
    } else {
        lemma_gather_holds(kids.drop_last(), i, j);
        let front = gather(kids.drop_last());
        let at = front.index_of(kids[i][j]);
        assert(gather(kids)[at] == kids[i][j]);
    }
}

/// A child is a name of the graph.
pub proof fn lemma_child_is_node(g: Graph, n: Seq<char>, j: int)
    requires
        0 <= j < g.children(n).len(),
    ensures
        g.nodes().contains(g.children(n)[j]),
{
    let at = g.keys.index_of(n);
    lemma_gather_holds(g.kids, at, j);
    let all = g.keys + gather(g.kids);
    let k = gather(g.kids).index_of(g.children(n)[j]);
    assert(all[g.keys.len() + k] == g.children(n)[j]);
}

/// How many names of the graph are not on `chain`.
pub open spec fn unseen(g: Graph, chain: Seq<Seq<char>>) -> nat {
    g.nodes().difference(chain.to_set()).len()
}

/// A step to a child that is not on the chain leaves fewer names unseen.
pub proof fn lemma_unseen_shrinks(g: Graph, chain: Seq<Seq<char>>, j: int)
    requires
        0 <= j < g.children(chain.last()).len(),
        !chain.contains(g.children(chain.last())[j]),
    ensures
        unseen(g, chain.push(g.children(chain.last())[j])) < unseen(g, chain),
{
    let k = g.children(chain.last())[j];
    lemma_child_is_node(g, chain.last(), j);
    let before = g.nodes().difference(chain.to_set());
    let after = g.nodes().difference(chain.push(k).to_set());
    assert(before.contains(k));
    assert(after =~= before.remove(k)) by {
        assert forall|x: Seq<char>| after.contains(x) <==> before.remove(k).contains(x) by {
            if chain.push(k).contains(x) {
                let at = chain.push(k).index_of(x);
                if at < chain.len() {
                    assert(chain[at] == x);
                }
            }
            if chain.contains(x) {
                let at = chain.index_of(x);
                assert(chain.push(k)[at] == x);
            }
            if x == k {
                assert(chain.push(k)[chain.len() as int] == k);
            }
        }
    }
}

/// The part of `chain` from `k` on.
pub open spec fn closing(chain: Seq<Seq<char>>, k: Seq<char>) -> Seq<Seq<char>> {
    chain.subrange(chain.index_of(k), chain.len() as int)
}

/// The depth-first walk from the last name of `chain`, over its children from
/// the `i`-th on: the first closing of the chain that it meets.
pub open spec fn scan(g: Graph, chain: Seq<Seq<char>>, i: nat) -> Option<Seq<Seq<char>>>
    decreases unseen(g, chain), g.children(chain.last()).len() - i,
{
    let kids = g.children(chain.last());
    if i >= kids.len() {
        None
    } else if chain.contains(kids[i as int]) {
        Some(closing(chain, kids[i as int]))
    } else {
        proof {
            lemma_unseen_shrinks(g, chain, i as int);
        }
        match scan(g, chain.push(kids[i as int]), 0) {
            Some(c) => Some(c),
            None => scan(g, chain, i + 1),
        }
    }
}

/// The walks from the parents, from the `r`-th on, in ascending order.
pub open spec fn sweep(g: Graph, r: nat) -> Option<Seq<Seq<char>>>
    decreases g.keys.len() - r,
{
    if r >= g.keys.len() {
        None
    } else {
        match scan(g, seq![g.keys[r as int]], 0) {
            Some(c) => Some(c),
            None => sweep(g, r + 1),
        }
    }
}

/// The cycle that the search reports: the first that a depth-first walk
/// meets, parents in ascending order and children in the order added.
pub open spec fn first_cycle(g: Graph) -> Option<Seq<Seq<char>>> {
    sweep(g, 0)
}

/// What the walk reports is a cycle of the graph, made of the chain's names.
pub proof fn lemma_scan_sound(g: Graph, chain: Seq<Seq<char>>, i: nat)
    requires
        chain.len() > 0,
        g.is_path(chain),
        scan(g, chain, i) is Some,
    ensures
        g.is_cycle(scan(g, chain, i)->0),
    decreases unseen(g, chain), g.children(chain.last()).len() - i,
{
    let kids = g.children(chain.last());
    let k = kids[i as int];
    if chain.contains(k) {
        let at = chain.index_of(k);
        let c = closing(chain, k);
        assert(c.len() > 0);
        assert(c.last() == chain.last());
        assert(c[0] == k);
        assert forall|j: int| 0 <= j < c.len() - 1 implies g.edge(#[trigger] c[j], c[j + 1]) by {
            assert(c[j] == chain[at + j]);
            assert(c[j + 1] == chain[at + j + 1]);
        }
    } else {
        lemma_unseen_shrinks(g, chain, i as int);
        let longer = chain.push(k);
        if scan(g, longer, 0) is Some {
            assert forall|j: int| 0 <= j < longer.len() - 1 implies g.edge(
                #[trigger] longer[j],
                longer[j + 1],
            ) by {
                if j < chain.len() - 1 {
                    assert(longer[j] == chain[j]);
                    assert(longer[j + 1] == chain[j + 1]);
                }
            }
            lemma_scan_sound(g, longer, 0);
        } else {
            lemma_scan_sound(g, chain, i + 1);
        }
    }
}

/// Where the walk reports nothing, no later child is on the chain and the
/// walk from each of them reports nothing either.
pub proof fn lemma_scan_none(g: Graph, chain: Seq<Seq<char>>, i: nat, j: int)
    requires
        scan(g, chain, i) is None,
        i <= j < g.children(chain.last()).len(),
    ensures
        !chain.contains(g.children(chain.last())[j]),
        scan(g, chain.push(g.children(chain.last())[j]), 0) is None,
    decreases j - i,
{
    if i < j {
        lemma_scan_none(g, chain, i + 1, j);
    }
}

/// Where the walk from the end of a chain reports nothing, no path from
/// there leads back onto the chain.
pub proof fn lemma_scan_complete(g: Graph, chain: Seq<Seq<char>>, p: Seq<Seq<char>>)
    requires
        chain.len() > 0,
        scan(g, chain, 0) is None,
        p.len() >= 2,
        g.is_path(p),
        p[0] == chain.last(),
    ensures
        !chain.contains(p.last()),
    decreases p.len(),
{
    let kids = g.children(chain.last());
    assert(g.edge(p[0], p[1]));
    let j = kids.index_of(p[1]);
    lemma_scan_none(g, chain, 0, j);
    let longer = chain.push(p[1]);
    if p.len() > 2 {
        let rest = p.subrange(1, p.len() as int);
        assert forall|t: int| 0 <= t < rest.len() - 1 implies g.edge(
            #[trigger] rest[t],
            rest[t + 1],
        ) by {
            assert(rest[t] == p[t + 1]);
            assert(rest[t + 1] == p[t + 2]);
        }
        assert(rest.last() == p.last());
        lemma_scan_complete(g, longer, rest);
        if chain.contains(p.last()) {
            let at = chain.index_of(p.last());
            assert(longer[at] == p.last());
        }
    }
}

/// Where the walks from the `r`-th parent on report nothing, each of them
/// alone reports nothing.
pub proof fn lemma_sweep_none(g: Graph, r: nat, at: int)
    requires
        sweep(g, r) is None,
        r <= at < g.keys.len(),
    ensures
        scan(g, seq![g.keys[at]], 0) is None,
    decreases at - r,
{
    if r < at {
        lemma_sweep_none(g, r + 1, at);
    }
}

/// What the walks over the parents report is a cycle of the graph.
pub proof fn lemma_sweep_sound(g: Graph, r: nat)
    requires
        sweep(g, r) is Some,
    ensures
        g.is_cycle(sweep(g, r)->0),
    decreases g.keys.len() - r,
{
    let root = seq![g.keys[r as int]];
    if scan(g, root, 0) is Some {
        lemma_scan_sound(g, root, 0);
    } else {
        lemma_sweep_sound(g, r + 1);
    }
}

/// A cycle shows that its first name reaches itself.
pub proof fn lemma_cycle_reaches(g: Graph, c: Seq<Seq<char>>)
    requires
        g.is_cycle(c),
    ensures
        g.reaches(c[0], c[0]),
{
    let p = c.push(c[0]);
    assert forall|i: int| 0 <= i < p.len() - 1 implies g.edge(#[trigger] p[i], p[i + 1]) by {
        if i < c.len() - 1 {
            assert(p[i] == c[i]);
            assert(p[i + 1] == c[i + 1]);
        }
    }
    assert(g.is_path(p));
}

/// The search reports a cycle exactly when the graph has one, and what it
/// reports is a cycle of the graph.
pub proof fn lemma_first_cycle(g: Graph)
    ensures
        first_cycle(g) is None <==> g.acyclic(),
        first_cycle(g) matches Some(c) ==> g.is_cycle(c),
{
    if first_cycle(g) is Some {
        lemma_sweep_sound(g, 0);
        lemma_cycle_reaches(g, first_cycle(g)->0);
    } else {
        assert forall|n: Seq<char>| !g.reaches(n, n) by {
            if g.reaches(n, n) {
                let p = choose|p: Seq<Seq<char>>|
                    p.len() >= 2 && #[trigger] g.is_path(p) && p[0] == n && p.last() == n;
                assert(g.edge(p[0], p[1]));
                let at = g.keys.index_of(n);
                lemma_sweep_none(g, 0, at);
                let root = seq![g.keys[at]];
                lemma_scan_complete(g, root, p);
                assert(root[0] == n);
            }
        }
    }
}

/// What adding children to one parent does to the children of every name.
pub proof fn lemma_extended_children(g: Graph, p: Seq<char>, more: Seq<Seq<char>>, n: Seq<char>)
    requires
        g.wf(),
    ensures
        g.extended(p, more).wf(),
        g.extended(p, more).keys.contains(p),
        g.extended(p, more).children(n) == if n == p {
            g.children(p) + more
        } else {
            g.children(n)
        },
        g.extended(p, more).keys.contains(n) <==> n == p || g.keys.contains(n),
{
    let h = g.extended(p, more);
    lemma_ascending_no_duplicates(g.keys);
    if g.keys.contains(p) {
        let at = g.keys.index_of(p);
        if g.keys.contains(n) {
            let i = g.keys.index_of(n);
            assert(h.keys[i] == n);
        }
    } else {
        let at = rank(g.keys, p);
        lemma_rank_splits(g.keys, p);
        lemma_insert_ascending(g.keys, p);
        lemma_ascending_no_duplicates(h.keys);
        assert(h.keys[at] == p);
        assert(h.keys.index_of(p) == at);
        assert(Seq::<Seq<char>>::empty() + more =~= more);
        if g.keys.contains(n) {
            let i = g.keys.index_of(n);
            if i < at {
                assert(h.keys[i] == n);
                assert(h.keys.index_of(n) == i);
            } else {
                assert(h.keys[i + 1] == n);
                assert(h.keys.index_of(n) == i + 1);
            }
        }
        if h.keys.contains(n) && n != p {
            let i = h.keys.index_of(n);
            if i < at {
                assert(g.keys[i] == n);
            } else {
                assert(g.keys[i - 1] == n);
            }
        }
    }
}

/// Making a name a parent adds no edge.
pub proof fn lemma_extended_empty(g: Graph, p: Seq<char>)
    requires
        g.wf(),
    ensures
        g.extended(p, Seq::empty()).wf(),
        g.tidy() ==> g.extended(p, Seq::empty()).tidy(),
        forall|a: Seq<char>, b: Seq<char>| #[trigger]
            g.extended(p, Seq::empty()).edge(a, b) <==> g.edge(a, b),
        forall|n: Seq<char>| #[trigger]
            g.extended(p, Seq::empty()).keys.contains(n) <==> n == p || g.keys.contains(n),
{
    let g1 = g.extended(p, Seq::empty());
    lemma_extended_children(g, p, Seq::empty(), p);
    lemma_ascending_no_duplicates(g1.keys);
    assert(g.children(p) + Seq::<Seq<char>>::empty() =~= g.children(p));
    if g.tidy() {
        assert forall|i: int| 0 <= i < g1.kids.len() implies ascending(#[trigger] g1.kids[i]) by {
            let n = g1.keys[i];
            assert(g1.keys.index_of(n) == i);
            lemma_extended_children(g, p, Seq::empty(), n);
            assert(g1.children(n) == g1.kids[i]);
            if n != p && g.keys.contains(n) {
                assert(g.children(n) == g.kids[g.keys.index_of(n)]);
            } else if n == p && g.keys.contains(p) {
                assert(g.children(p) == g.kids[g.keys.index_of(p)]);
            }
        }
    }
    assert forall|n: Seq<char>| #[trigger] g1.keys.contains(n) <==> n == p || g.keys.contains(
        n,
    ) by {
        lemma_extended_children(g, p, Seq::empty(), n);
    }
    assert forall|a: Seq<char>, b: Seq<char>| #[trigger] g1.edge(a, b) <==> g.edge(a, b) by {
        lemma_extended_children(g, p, Seq::empty(), a);
    }
}

/// What putting one child under one parent does to the edges: it adds that
/// edge and no other.
pub proof fn lemma_linked_edges(g: Graph, p: Seq<char>, c: Seq<char>)
    requires
        g.wf(),
        g.tidy(),
    ensures
        g.linked(p, c).wf(),
        g.linked(p, c).tidy(),
        forall|a: Seq<char>, b: Seq<char>| #[trigger]
            g.linked(p, c).edge(a, b) <==> g.edge(a, b) || (a == p && b == c),
        forall|n: Seq<char>| #[trigger]
            g.linked(p, c).keys.contains(n) <==> n == p || g.keys.contains(n),
{
    let g1 = g.extended(p, Seq::empty());
    let h = g.linked(p, c);
    lemma_extended_children(g, p, Seq::empty(), p);
    lemma_ascending_no_duplicates(g1.keys);
    let at = g1.keys.index_of(p);
    assert(g.children(p) + Seq::<Seq<char>>::empty() =~= g.children(p));
    assert(g1.tidy()) by {
        assert forall|i: int| 0 <= i < g1.kids.len() implies ascending(#[trigger] g1.kids[i]) by {
            let n = g1.keys[i];
            assert(g1.keys.index_of(n) == i);
            lemma_extended_children(g, p, Seq::empty(), n);
            assert(g1.children(n) == g1.kids[i]);
            if n != p && g.keys.contains(n) {
                assert(g.children(n) == g.kids[g.keys.index_of(n)]);
            } else if n == p && g.keys.contains(p) {
                assert(g.children(p) == g.kids[g.keys.index_of(p)]);
            }
        }
    }
    let row = g1.kids[at];
    assert(row == g.children(p));
    if !row.contains(c) {
        lemma_insert_ascending(row, c);
        let grown = row.insert(rank(row, c), c);
        lemma_rank_splits(row, c);
        assert(grown[rank(row, c)] == c);
    }
    assert forall|n: Seq<char>| #[trigger] h.keys.contains(n) <==> n == p || g.keys.contains(n) by {
        lemma_extended_children(g, p, Seq::empty(), n);
    }
    assert forall|a: Seq<char>, b: Seq<char>| #[trigger]
        h.edge(a, b) <==> g.edge(a, b) || (a == p && b == c) by {
        lemma_extended_children(g, p, Seq::empty(), a);
        assert(g.children(a) + Seq::<Seq<char>>::empty() =~= g.children(a));
        if a == p {
            if !row.contains(c) {
                let at_c = rank(row, c);
                let grown = row.insert(at_c, c);
                assert(h.children(p) == grown);
                if row.contains(b) {
                    let i = row.index_of(b);
                    if i < at_c {
                        assert(grown[i] == b);
                    } else {
                        assert(grown[i + 1] == b);
                    }
                }
                if grown.contains(b) && b != c {
                    let i = grown.index_of(b);
                    if i < at_c {
                        assert(row[i] == b);
                    } else {
                        assert(row[i - 1] == b);
                    }
                }
            }
        } else {
            if h.keys.contains(a) {
                let i = h.keys.index_of(a);
                assert(h.kids[i] == g1.kids[i]);
            }
        }
    }
}

/// What can be reached stays within reach when edges are added.
pub proof fn lemma_reaches_grows(g: Graph, h: Graph, a: Seq<char>, b: Seq<char>)
    requires
        forall|x: Seq<char>, y: Seq<char>| g.edge(x, y) ==> h.edge(x, y),
        g.reaches(a, b),
    ensures
        h.reaches(a, b),
{
    let p = choose|p: Seq<Seq<char>>|
        p.len() >= 2 && #[trigger] g.is_path(p) && p[0] == a && p.last() == b;
    assert(h.is_path(p));
}

/// An edge, followed by nothing or by a path, is a path.
pub proof fn lemma_reaches_step(g: Graph, a: Seq<char>, b: Seq<char>, c: Seq<char>)
    requires
        g.edge(a, b),
        b == c || g.reaches(b, c),
    ensures
        g.reaches(a, c),
{
    if b == c {
        let p = seq![a, b];
        assert(g.is_path(p));
        assert(p[0] == a && p.last() == c);
    } else {
        let q = choose|q: Seq<Seq<char>>|
            q.len() >= 2 && #[trigger] g.is_path(q) && q[0] == b && q.last() == c;
        let p = seq![a] + q;
        assert forall|i: int| 0 <= i < p.len() - 1 implies g.edge(#[trigger] p[i], p[i + 1]) by {
            if i > 0 {
                assert(p[i] == q[i - 1]);
                assert(p[i + 1] == q[i]);
            }
        }
        assert(g.is_path(p));
        assert(p[0] == a && p.last() == c);
    }
}

/// A path starts with an edge to a child from which the rest leads on.
pub proof fn lemma_reaches_first(g: Graph, a: Seq<char>, c: Seq<char>) -> (j: int)
    requires
        g.reaches(a, c),
    ensures
        0 <= j < g.children(a).len(),
        g.children(a)[j] == c || g.reaches(g.children(a)[j], c),
{
    let p = choose|p: Seq<Seq<char>>|
        p.len() >= 2 && #[trigger] g.is_path(p) && p[0] == a && p.last() == c;
    assert(g.edge(p[0], p[1]));
    let j = g.children(a).index_of(p[1]);
    if p.len() > 2 {
        let rest = p.subrange(1, p.len() as int);
        assert forall|t: int| 0 <= t < rest.len() - 1 implies g.edge(
            #[trigger] rest[t],
            rest[t + 1],
        ) by {
            assert(rest[t] == p[t + 1]);
            assert(rest[t + 1] == p[t + 2]);
        }
        assert(g.is_path(rest));
        assert(rest[0] == p[1] && rest.last() == c);
    }
    j
}

/// In a graph without a cycle no path can be continued onto itself.
pub proof fn lemma_acyclic_step(g: Graph, chain: Seq<Seq<char>>, k: Seq<char>)
    requires
        g.acyclic(),
        chain.len() > 0,
        g.is_path(chain),
        g.edge(chain.last(), k),
    ensures
        !chain.contains(k),
        g.is_path(chain.push(k)),
{
    let longer = chain.push(k);
    assert forall|i: int| 0 <= i < longer.len() - 1 implies g.edge(
        #[trigger] longer[i],
        longer[i + 1],
    ) by {
        if i < chain.len() - 1 {
            assert(longer[i] == chain[i]);
            assert(longer[i + 1] == chain[i + 1]);
        }
    }
    if chain.contains(k) {
        let at = chain.index_of(k);
        let c = chain.subrange(at, chain.len() as int);
        assert forall|i: int| 0 <= i < c.len() - 1 implies g.edge(#[trigger] c[i], c[i + 1]) by {
            assert(c[i] == chain[at + i]);
            assert(c[i + 1] == chain[at + i + 1]);
        }
        assert(c.last() == chain.last());
        assert(g.is_cycle(c));
        lemma_cycle_reaches(g, c);
    }
}

/// A cycle among the channels: each name of `chain` has the next as a child,
/// and the last has the first.
#[derive(Debug, PartialEq)]
pub struct RecursionError {
    pub chain: Vec<&'static str>,
}

impl View for RecursionError {
    type V = Seq<Seq<char>>;

    open spec fn view(&self) -> Seq<Seq<char>> {
        names(self.chain@)
    }
}

/// Two channels of one subscriber, of which the first can reach the second.
#[derive(Debug, PartialEq)]
pub struct ChainedError {
    pub from: &'static str,
    pub to: &'static str,
}

/// The names of `s`, each in quotes.
pub open spec fn quoted_each(s: Seq<Seq<char>>) -> Seq<Seq<char>> {
    s.map_values(|n: Seq<char>| quoted(n))
}

impl RecursionError {
    /// What the error says: the chain, as a list of quoted names.
    pub open spec fn text(chain: Seq<Seq<char>>) -> Seq<char> {
        "Recursion found ["@ + joined(quoted_each(chain), ", "@) + "]"@
    }

    /// The error as a message.
    pub fn message(&self) -> (r: String)
        ensures
            r@ == Self::text(self@),
    {
        let mut listed = String::new();
        let mut i: usize = 0;
        assert(quoted_each(self@.subrange(0, 0)) =~= Seq::<Seq<char>>::empty());
        while i < self.chain.len()
            invariant
                i <= self.chain@.len(),
                listed@ == joined(quoted_each(self@.subrange(0, i as int)), ", "@),
            decreases self.chain@.len() - i,
        {
            let ghost seen = quoted_each(self@.subrange(0, i as int));
            let ghost more = quoted_each(self@.subrange(0, i + 1));
            let word = quote(self.chain[i]);
            proof {
                assert(more.drop_last() =~= seen);
                assert(more.last() == word@);
            }
            if i > 0 {
                listed.append(", ");
            } else {
                assert(listed@ + word@ =~= word@);
                assert(more[0] == word@);
            }
            listed.append(word.as_str());
            i += 1;
        }
        assert(self@.subrange(0, self@.len() as int) =~= self@);
        let mut out = String::new();
        out.append("Recursion found [");
        out.append(listed.as_str());
        out.append("]");
        assert(out@ =~= Self::text(self@));
        out
    }
}

impl ChainedError {
    /// What the error says.
    pub open spec fn text(from: Seq<char>, to: Seq<char>) -> Seq<char> {
        "Subscriber chain found: "@ + from + " can call "@ + to
    }

    /// The error as a message.
    pub fn message(&self) -> (r: String)
        ensures
            r@ == Self::text(self.from@, self.to@),
    {
        let mut out = String::new();
        out.append("Subscriber chain found: ");
        out.append(self.from);
        out.append(" can call ");
        out.append(self.to);
        assert(out@ =~= Self::text(self.from@, self.to@));
        out
    }
}

/// Computes signal recursions.
pub struct Recursion {
    parents: Vec<&'static str>,
    children: Vec<Vec<&'static str>>,
}

impl View for Recursion {
    type V = Graph;

    closed spec fn view(&self) -> Graph {
        Graph {
            keys: names(self.parents@),
            kids: self.children@.map_values(|c: Vec<&'static str>| names(c@)),
        }
    }
}

impl Default for Recursion {
    fn default() -> (r: Self)
        ensures
            r.wf(),
            r@.keys.len() == 0,
            r@.kids.len() == 0,
    {
        Recursion { parents: Vec::new(), children: Vec::new() }
    }
}

impl Recursion {
    /// The parents ascend and each has its list of children.
    pub open spec fn wf(&self) -> bool {
        self@.wf()
    }

    /// Makes `parent` a parent, with no children if it was none, and says
    /// where it stands.
    fn slot(&mut self, parent: &'static str) -> (at: usize)
        requires
            old(self).wf(),
        ensures
            final(self).wf(),
            final(self)@ == old(self)@.extended(parent@, Seq::empty()),
            at < final(self).parents@.len(),
            final(self).parents@.len() == final(self).children@.len(),
            final(self)@.keys[at as int] == parent@,
            final(self)@.keys.index_of(parent@) == at,
            old(self)@.keys.contains(parent@) ==> at == old(self)@.keys.index_of(parent@),
            !old(self)@.keys.contains(parent@) ==> at == rank(old(self)@.keys, parent@),
            at <= old(self)@.keys.len(),
            old(self)@.keys.len() == old(self)@.kids.len(),
    {
        let ghost before = self@;
        let (at, found) = locate(&self.parents, parent);
        proof {
            lemma_ascending_no_duplicates(before.keys);
        }
        if !found {
            let ghost lists = self.children@;
            let fresh: Vec<&'static str> = Vec::new();
            assert(names(fresh@) =~= Seq::<Seq<char>>::empty());
            self.parents.insert(at, parent);
            self.children.insert(at, fresh);
            proof {
                assert(names(self.parents@) =~= before.keys.insert(at as int, parent@));
                assert(self.children@ == lists.insert(at as int, fresh));
                assert(self@.kids =~= before.kids.insert(at as int, Seq::empty()));
                assert forall|i: int, j: int| 0 <= i < j < self@.keys.len() implies precedes(
                    #[trigger] self@.keys[i],
                    #[trigger] self@.keys[j],
                ) by {
                    if i < at && j > at {
                        assert(self@.keys[i] == before.keys[i]);
                        assert(self@.keys[j] == before.keys[j - 1]);
                    }
                }
            }
        } else {
            proof {
                assert(before.keys[at as int] == parent@);
                assert(before.keys.index_of(parent@) == at);
                assert(before.kids[at as int] + Seq::<Seq<char>>::empty() =~= before.kids[at as int]);
                assert(before.kids =~= before.kids.update(at as int, before.kids[at as int]));
            }
        }
        proof {
            lemma_ascending_no_duplicates(self@.keys);
            assert(self@.keys[at as int] == parent@);
        }
        at
    }

    /// Add a parent and its children signals.
    pub fn add(&mut self, parent: &'static str, child: &[&'static str])
        requires
            old(self).wf(),
        ensures
            final(self).wf(),
            final(self)@ == old(self)@.extended(parent@, names(child@)),
    {
        let ghost before = self@;
        let at = self.slot(parent);
        let ghost base = self@;
        assert(base.kids[at as int] + names(child@.subrange(0, 0)) =~= base.kids[at as int]);
        assert(base.kids =~= base.kids.update(at as int, base.kids[at as int]));
        let mut i: usize = 0;
        while i < child.len()
            invariant
                i <= child.len(),
                at < self.children.len(),
                self.children.len() == base.kids.len(),
                self@.keys == base.keys,
                self@.kids == base.kids.update(
                    at as int,
                    base.kids[at as int] + names(child@.subrange(0, i as int)),
                ),
            decreases child.len() - i,
        {
            let ghost lists = self.children@;
            let ghost prev = self@;
            let mut list = Vec::new();
            std::mem::swap(&mut list, &mut self.children[at]);
            list.push(child[i]);
            let ghost grown = list;
            std::mem::swap(&mut list, &mut self.children[at]);
            proof {
                assert(self.children@ =~= lists.update(at as int, grown));
                assert(grown@ == lists[at as int]@.push(child@[i as int]));
                assert(names(grown@) =~= names(lists[at as int]@).push(child@[i as int]@));
                assert(names(child@.subrange(0, i + 1)) =~= names(
                    child@.subrange(0, i as int),
                ).push(child@[i as int]@));
                assert(prev.kids[at as int] == names(lists[at as int]@));
                assert forall|j: int| 0 <= j < lists.len() && j != at implies self@.kids[j]
                    == base.kids[j] by {
                    assert(prev.kids[j] == names(lists[j]@));
                }
                assert(self@.kids[at as int] =~= base.kids[at as int] + names(
                    child@.subrange(0, i + 1),
                ));
                assert(self@.kids =~= base.kids.update(
                    at as int,
                    base.kids[at as int] + names(child@.subrange(0, i + 1)),
                ));
            }
            i += 1;
        }
        proof {
            assert(child@.subrange(0, child@.len() as int) =~= child@);
            let goal = before.extended(parent@, names(child@));
            if before.keys.contains(parent@) {
                assert(base.kids[at as int] + names(child@) =~= before.kids[at as int] + names(
                    child@,
                ));
                assert(self@.kids =~= goal.kids);
            } else {
                assert(base.kids[at as int] + names(child@) =~= names(child@));
                assert(self@.kids =~= goal.kids);
                assert(self@.keys =~= goal.keys);
            }
        }
    }

    /// Puts `child` among the children of `parent`, at its place in their
    /// order, unless it stands there already.
    pub fn link(&mut self, parent: &'static str, child: &'static str)
        requires
            old(self).wf(),
            old(self)@.tidy(),
        ensures
            final(self).wf(),
            final(self)@.tidy(),
            final(self)@ == old(self)@.linked(parent@, child@),
    {
        let ghost before = self@;
        let at = self.slot(parent);
        let ghost base = self@;
        let ghost lists = self.children@;
        proof {
            assert(base.tidy()) by {
                assert forall|i: int| 0 <= i < base.kids.len() implies ascending(
                    #[trigger] base.kids[i],
                ) by {
                    if before.keys.contains(parent@) {
                        assert(base.kids[i] == before.kids[i]);
                    } else if i < at {
                        assert(base.kids[i] == before.kids[i]);
                    } else if i > at {
                        assert(base.kids[i] == before.kids[i - 1]);
                    }
                }
            }
            assert(base.kids[at as int] == names(lists[at as int]@));
        }
        let (pos, found) = locate(&self.children[at], child);
        if !found {
            let mut list = Vec::new();
            std::mem::swap(&mut list, &mut self.children[at]);
            list.insert(pos, child);
            let ghost grown = list;
            std::mem::swap(&mut list, &mut self.children[at]);
            proof {
                let row = base.kids[at as int];
                assert(self.children@ =~= lists.update(at as int, grown));
                assert(names(grown@) =~= row.insert(pos as int, child@));
                assert forall|j: int| 0 <= j < lists.len() && j != at implies self@.kids[j]
                    == base.kids[j] by {
                    assert(base.kids[j] == names(lists[j]@));
                }
                assert(self@.kids =~= base.kids.update(at as int, row.insert(pos as int, child@)));
                assert forall|i: int, j: int|
                    0 <= i < j < row.insert(pos as int, child@).len() implies precedes(
                    #[trigger] row.insert(pos as int, child@)[i],
                    #[trigger] row.insert(pos as int, child@)[j],
                ) by {
                    let grown_row = row.insert(pos as int, child@);
                    if i < pos && j > pos {
                        assert(grown_row[i] == row[i]);
                        assert(grown_row[j] == row[j - 1]);
                    }
                }
            }
        }
    }

    /// The number of parents.
    pub fn len(&self) -> (r: usize)
        requires
            self.wf(),
        ensures
            r == self@.keys.len(),
    {
        self.parents.len()
    }

    /// The `at`-th parent, in ascending order.
    pub fn parent(&self, at: usize) -> (r: &'static str)
        requires
            self.wf(),
            at < self@.keys.len(),
        ensures
            r@ == self@.keys[at as int],
    {
        self.parents[at]
    }

    /// The children of the `at`-th parent.
    pub fn children_at(&self, at: usize) -> (r: &Vec<&'static str>)
        requires
            self.wf(),
            at < self@.keys.len(),
        ensures
            names(r@) == self@.kids[at as int],
    {
        &self.children[at]
    }

    /// Whether `name` is a parent.
    pub fn has_parent(&self, name: &str) -> (r: bool)
        requires
            self.wf(),
        ensures
            r == self@.keys.contains(name@),
    {
        locate(&self.parents, name).1
    }

    /// A copy of the graph.
    pub fn duplicate(&self) -> (r: Recursion)
        requires
            self.wf(),
        ensures
            r.wf(),
            r@ == self@,
    {
        let mut parents: Vec<&'static str> = Vec::new();
        let mut children: Vec<Vec<&'static str>> = Vec::new();
        let mut i: usize = 0;
        proof {
            assert(self.parents@.len() == self.children@.len()) by {
                assert(self@.keys.len() == self@.kids.len());
            }
        }
        while i < self.parents.len()
            invariant
                i <= self.parents.len(),
                self.parents@.len() == self.children@.len(),
                parents@ == self.parents@.subrange(0, i as int),
                children@.len() == i,
                forall|j: int| 0 <= j < i ==> (#[trigger] children@[j])@ == self.children@[j]@,
            decreases self.parents.len() - i,
        {
            parents.push(self.parents[i]);
            let list = tail(&self.children[i], 0);
            assert(list@ =~= self.children@[i as int]@);
            children.push(list);
            assert(parents@ =~= self.parents@.subrange(0, i + 1));
            i += 1;
        }
        let r = Recursion { parents, children };
        proof {
            assert(r.parents@ =~= self.parents@);
            assert(r@.kids =~= self@.kids);
        }
        r
    }

    /// The children of the `at`-th parent are those of its name.
    proof fn lemma_children_at(&self, at: int)
        requires
            self.wf(),
            0 <= at < self.parents@.len(),
        ensures
            at < self.children@.len(),
            self@.children(self.parents@[at]@) == names(self.children@[at]@),
    {
        let g = self@;
        lemma_ascending_no_duplicates(g.keys);
        assert(g.keys[at] == self.parents@[at]@);
        assert(g.keys.index_of(self.parents@[at]@) == at);
    }

    /// Check if there is any recursion present.
    pub fn check(&mut self) -> (r: Result<(), RecursionError>)
        requires
            old(self).wf(),
        ensures
            *final(self) == *old(self),
            match r {
                Ok(()) => first_cycle(old(self)@) is None,
                Err(e) => first_cycle(old(self)@) == Some(e@),
            },
            r is Ok <==> old(self)@.acyclic(),
            r matches Err(e) ==> old(self)@.is_cycle(e@),
    {
        proof {
            lemma_first_cycle(self@);
        }
        let mut chain: Vec<&'static str> = Vec::new();
        let mut r: usize = 0;
        while r < self.parents.len()
            invariant
                r <= self.parents.len(),
                self.wf(),
                *self == *old(self),
                chain@.len() == 0,
                first_cycle(self@) == sweep(self@, r as nat),
            decreases self.parents.len() - r,
        {
            let parent = self.parents[r];
            chain.push(parent);
            assert(names(chain@) =~= seq![self@.keys[r as int]]);
            match self.check_internal(parent, &mut chain) {
                Err(e) => {
                    proof {
                        lemma_first_cycle(self@);
                    }
                    return Err(e);
                },
                Ok(()) => {},
            }
            chain.pop();
            r += 1;
        }
        proof {
            lemma_first_cycle(self@);
        }
        Ok(())
    }

    /// Walks on from `parent`, the last name of `chain`, and reports the
    /// first child, in depth-first order, that is on the chain already.
    fn check_internal(&self, parent: &'static str, chain: &mut Vec<&'static str>) -> (r: Result<
        (),
        RecursionError,
    >)
        requires
            self.wf(),
            old(chain)@.len() > 0,
            names(old(chain)@).last() == parent@,
            names(old(chain)@).no_duplicates(),
        ensures
            match r {
                Ok(()) => scan(self@, names(old(chain)@), 0) is None && final(chain)@ == old(
                    chain,
                )@,
                Err(e) => scan(self@, names(old(chain)@), 0) == Some(e@),
            },
        decreases unseen(self@, names(old(chain)@)),
    {
        let ghost g = self@;
        let ghost start = chain@;
        let ghost path = names(start);
        let (at, found) = locate(&self.parents, parent);
        if !found {
            return Ok(());
        }
        proof {
            self.lemma_children_at(at as int);
        }
        let ghost kids = g.children(parent@);
        let n = self.children[at].len();
        let mut i: usize = 0;
        while i < n
            invariant
                i <= n,
                self.wf(),
                g == self@,
                at < self.children@.len(),
                n == self.children@[at as int]@.len(),
                kids == names(self.children@[at as int]@),
                kids == g.children(path.last()),
                chain@ == start,
                start == old(chain)@,
                path == names(start),
                path.len() > 0,
                path.no_duplicates(),
                scan(g, path, 0) == scan(g, path, i as nat),
            decreases n - i,
        {
            let child = self.children[at][i];
            assert(kids[i as int] == child@);
            match position(chain, child) {
                Some(from) => {
                    let found_chain = tail(chain, from);
                    proof {
                        assert(path[from as int] == child@);
                        assert(path.index_of(child@) == from);
                        assert(names(found_chain@) =~= closing(path, child@));
                        assert(scan(g, path, i as nat) == Some(closing(path, child@)));
                    }
                    return Err(RecursionError { chain: found_chain });
                },
                None => {},
            }
            chain.push(child);
            proof {
                assert(names(chain@) =~= path.push(child@));
                lemma_unseen_shrinks(g, path, i as int);
                assert forall|a: int, b: int|
                    0 <= a < path.push(child@).len() && 0 <= b < path.push(child@).len() && a
                        != b implies path.push(child@)[a] != path.push(child@)[b] by {
                    if a < path.len() {
                        assert(path.push(child@)[a] == path[a]);
                    }
                    if b < path.len() {
                        assert(path.push(child@)[b] == path[b]);
                    }
                }
            }
            match self.check_internal(child, chain) {
                Err(e) => {
                    return Err(e);
                },
                Ok(()) => {},
            }
            chain.pop();
            assert(chain@ =~= start);
            i += 1;
        }
        Ok(())
    }

    /// Whether `target` can be reached from `from`, the last name of the path
    /// `chain`, in a graph without a cycle.
    fn descends(&self, from: &'static str, target: &str, Ghost(chain): Ghost<Seq<Seq<char>>>) -> (r:
        bool)
        requires
            self.wf(),
            self@.acyclic(),
            chain.len() > 0,
            self@.is_path(chain),
            chain.last() == from@,
        ensures
            r == self@.reaches(from@, target@),
        decreases unseen(self@, chain),
    {
        let ghost g = self@;
        let (at, found) = locate(&self.parents, from);
        if !found {
            proof {
                if g.reaches(from@, target@) {
                    let j = lemma_reaches_first(g, from@, target@);
                }
            }
            return false;
        }
        proof {
            self.lemma_children_at(at as int);
        }
        let ghost kids = g.children(from@);
        let n = self.children[at].len();
        let mut i: usize = 0;
        while i < n
            invariant
                i <= n,
                self.wf(),
                g == self@,
                g.acyclic(),
                at < self.children@.len(),
                n == self.children@[at as int]@.len(),
                kids == names(self.children@[at as int]@),
                kids == g.children(from@),
                chain.len() > 0,
                g.is_path(chain),
                chain.last() == from@,
                forall|j: int|
                    0 <= j < i ==> kids[j] != target@ && !g.reaches(#[trigger] kids[j], target@),
            decreases n - i,
        {
            let child = self.children[at][i];
            assert(kids[i as int] == child@);
            assert(g.edge(from@, child@));
            if same_text(child, target) {
                proof {
                    lemma_reaches_step(g, from@, child@, target@);
                }
                return true;
            }
            proof {
                lemma_acyclic_step(g, chain, child@);
                lemma_unseen_shrinks(g, chain, i as int);
            }
            let ghost longer = chain.push(child@);
            if self.descends(child, target, Ghost(longer)) {
                proof {
                    lemma_reaches_step(g, from@, child@, target@);
                }
                return true;
            }
            i += 1;
        }
        proof {
            if g.reaches(from@, target@) {
                let j = lemma_reaches_first(g, from@, target@);
            }
        }
        false
    }

    /// Check if subscribing to a set of signals can cause an N-mutable borrow
    /// for this subscriber: whether one of them can reach another.
    pub fn is_chained(&self, signals: &[&'static str]) -> (r: Result<(), ChainedError>)
        requires
            self.wf(),
            self@.acyclic(),
        ensures
            r is Ok <==> forall|a: int, b: int|
                0 <= a < signals@.len() && 0 <= b < signals@.len() && a != b ==> !chained(
                    self@,
                    names(signals@),
                    a,
                    b,
                ),
            r matches Err(e) ==> exists|i: int, j: int|
                0 <= i < signals@.len() && 0 <= j < signals@.len() && i != j && e.from
                    == signals@[i] && e.to == signals@[j] && #[trigger] chained(
                    self@,
                    names(signals@),
                    i,
                    j,
                ) && forall|a: int, b: int|
                    0 <= a < signals@.len() && 0 <= b < signals@.len() && a != b && (a < i || (a
                        == i && b < j)) ==> !chained(self@, names(signals@), a, b),
    {
        let ghost g = self@;
        let ghost s = names(signals@);
        let n = signals.len();
        let mut idx: usize = 0;
        while idx < n
            invariant
                idx <= n,
                n == signals@.len(),
                self.wf(),
                g == self@,
                g.acyclic(),
                s == names(signals@),
                forall|a: int, b: int|
                    0 <= a < idx && 0 <= b < n && a != b ==> !chained(g, s, a, b),
            decreases n - idx,
        {
            let signal = signals[idx];
            let mut redex: usize = 0;
            while redex < n
                invariant
                    idx < n,
                    redex <= n,
                    n == signals@.len(),
                    self.wf(),
                    g == self@,
                    g.acyclic(),
                    s == names(signals@),
                    signal == signals@[idx as int],
                    forall|a: int, b: int|
                        0 <= a < idx && 0 <= b < n && a != b ==> !chained(g, s, a, b),
                    forall|b: int| 0 <= b < redex && idx != b ==> !chained(g, s, idx as int, b),
                decreases n - redex,
            {
                if redex != idx {
                    let to_signal = signals[redex];
                    let ghost root = seq![signal@];
                    assert(g.is_path(root));
                    if self.descends(signal, to_signal, Ghost(root)) {
                        assert(chained(g, s, idx as int, redex as int));
                        return Err(ChainedError { from: signal, to: to_signal });
                    }
                }
                redex += 1;
            }
            idx += 1;
        }
        Ok(())
    }
}

/// The `i`-th of the signals can reach the `j`-th.
pub open spec fn chained(g: Graph, signals: Seq<Seq<char>>, i: int, j: int) -> bool {
    g.reaches(signals[i], signals[j])
}

} // verus!
