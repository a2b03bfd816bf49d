//! A container for many nodes, kept in the order of their keys.

use vstd::prelude::*;
use isize_vec::IsizeVec;
use crate::context::{AccessError, AccessKind, Context, Hold, Scene};
use crate::node::Node;
use crate::trace::Trace;

verus! {

/// Declares `isize_vec::IsizeVec`, the vector that keeps its items in the
/// order of their keys. Contracts see nothing inside it.
#[verifier::external_type_specification]
#[verifier::external_body]
#[verifier::reject_recursive_types(T)]
pub struct ExIsizeVec<T>(IsizeVec<T>);

/// What an `IsizeVec` of cell indices holds: each item with its key, in the
/// order in which the vector hands them out.
pub uninterp spec fn entries(v: IsizeVec<usize>) -> Seq<(isize, usize)>;

/// Whether an entry with `key` stands before a new entry with key
/// `relative`: a lower key does, and an equal one does if the keys are not
/// negative.
pub open spec fn stands_before(key: isize, relative: isize) -> bool {
    key < relative || (key == relative && relative >= 0)
}

/// Wraps `IsizeVec::new`: the new vector is empty.
#[verifier::external_body]
fn ordered_new() -> (v: IsizeVec<usize>)
    ensures
        entries(v) == Seq::<(isize, usize)>::empty(),
{
    IsizeVec::new()
}

/// Wraps `IsizeVec::insert`, which keeps the items in the order of their
/// keys: it puts the item in at the index that it returns, after the
/// entries that stand before it and before the others: those with a lower
/// key, and of those with the same key all if the key is not negative and
/// none if it is.
#[verifier::external_body]
fn ordered_insert(v: &mut IsizeVec<usize>, relative: isize, item: usize) -> (at: usize)
    ensures
        at <= entries(*old(v)).len(),
        entries(*final(v)) == entries(*old(v)).insert(at as int, (relative, item)),
        forall|i: int| 0 <= i < at ==> stands_before(#[trigger] entries(*old(v))[i].0, relative),
        forall|i: int|
            at <= i < entries(*old(v)).len() ==> !stands_before(
                #[trigger] entries(*old(v))[i].0,
                relative,
            ),
{
    v.insert(relative, item)
}

/// Wraps `IsizeVec::retain` with a test for one item: the entries of that
/// item leave, the others stay in their order.
#[verifier::external_body]
fn ordered_discard(v: &mut IsizeVec<usize>, item: usize)
    ensures
        entries(*final(v)) == without(entries(*old(v)), item),
{
    v.retain(|x| differs(*x, item))
}

/// Wraps `IsizeVec::remove`: the entry at `index` leaves, and its item and
/// key are returned.
#[verifier::external_body]
fn ordered_remove(v: &mut IsizeVec<usize>, index: usize) -> (r: (usize, isize))
    requires
        index < entries(*old(v)).len(),
    ensures
        entries(*final(v)) == entries(*old(v)).remove(index as int),
        r.0 == entries(*old(v))[index as int].1,
        r.1 == entries(*old(v))[index as int].0,
{
    v.remove(index)
}

/// Wraps `IsizeVec::iter`: the items in the vector's order.
#[verifier::external_body]
fn ordered_items(v: &IsizeVec<usize>) -> (r: Vec<usize>)
    ensures
        r@ == items_of(entries(*v)),
{
    v.iter().copied().collect()
}

/// Whether two cell indices differ.
fn differs(a: usize, b: usize) -> (r: bool)
    ensures
        r == (a != b),
{
    a != b
}

/// The items of some entries.
pub open spec fn items_of(s: Seq<(isize, usize)>) -> Seq<usize> {
    s.map_values(|e: (isize, usize)| e.1)
}

/// The entries without those of `item`.
pub open spec fn without(s: Seq<(isize, usize)>, item: usize) -> Seq<(isize, usize)>
    decreases s.len(),
{
    if s.len() == 0 {
        s
    } else if s.last().1 == item {
        without(s.drop_last(), item)
    } else {
        without(s.drop_last(), item).push(s.last())
    }
}

/// The entries whose mark is not set, in their order.
pub open spec fn unmarked(s: Seq<(isize, usize)>, marks: Seq<bool>) -> Seq<(isize, usize)>
    decreases s.len(),
{
    if s.len() == 0 || marks.len() != s.len() {
        s
    } else if marks.last() {
        unmarked(s.drop_last(), marks.drop_last())
    } else {
        unmarked(s.drop_last(), marks.drop_last()).push(s.last())
    }
}

/// What a first entry and its mark add to the unmarked entries of the rest.
pub proof fn lemma_unmarked_front(
    x: (isize, usize),
    mark: bool,
    s: Seq<(isize, usize)>,
    marks: Seq<bool>,
)
    requires
        s.len() == marks.len(),
    ensures
        unmarked(seq![x] + s, seq![mark] + marks) == if mark {
            unmarked(s, marks)
        } else {
            seq![x] + unmarked(s, marks)
        },
    decreases s.len(),
{
    let all = seq![x] + s;
    let all_marks = seq![mark] + marks;
    if s.len() == 0 {
        assert(s =~= Seq::<(isize, usize)>::empty());
        assert(marks =~= Seq::<bool>::empty());
        assert(all.drop_last() =~= s);
        assert(all_marks.drop_last() =~= marks);
        assert(unmarked(s, marks) =~= Seq::<(isize, usize)>::empty());
        assert(seq![x] + unmarked(s, marks) =~= Seq::<(isize, usize)>::empty().push(x));
        assert(all.last() == x);
    } else {
        lemma_unmarked_front(x, mark, s.drop_last(), marks.drop_last());
        assert(all.drop_last() =~= seq![x] + s.drop_last());
        assert(all_marks.drop_last() =~= seq![mark] + marks.drop_last());
        assert(all.last() == s.last());
        assert(all_marks.last() == marks.last());
        if !marks.last() && !mark {
            assert((seq![x] + unmarked(s.drop_last(), marks.drop_last())).push(s.last()) =~= seq![
                x,
            ] + unmarked(s.drop_last(), marks.drop_last()).push(s.last()));
        }
    }
}

/// The unmarked entries are entries, and their keys rise if those of all do.
pub proof fn lemma_unmarked_rises(s: Seq<(isize, usize)>, marks: Seq<bool>)
    requires
        keys_rise(s),
        s.len() == marks.len(),
    ensures
        keys_rise(unmarked(s, marks)),
        forall|i: int| 0 <= i < unmarked(s, marks).len() ==> s.contains(#[trigger] unmarked(s, marks)[i]),
    decreases s.len(),
{
    if s.len() > 0 {
        let front = s.drop_last();
        assert forall|i: int, j: int| 0 <= i < j < front.len() implies (#[trigger] front[i]).0 <= (
        #[trigger] front[j]).0 by {
            assert(front[i] == s[i] && front[j] == s[j]);
        }
        lemma_unmarked_rises(front, marks.drop_last());
        let w = unmarked(s, marks);
        let wf = unmarked(front, marks.drop_last());
        assert forall|i: int| 0 <= i < w.len() implies s.contains(#[trigger] w[i]) by {
            if i < wf.len() {
                assert(front.contains(wf[i]));
                let k = front.index_of(wf[i]);
                assert(s[k] == wf[i]);
            } else {
                assert(s[s.len() - 1] == w[i]);
            }
        }
        assert forall|i: int, j: int| 0 <= i < j < w.len() implies (#[trigger] w[i]).0 <= (
        #[trigger] w[j]).0 by {
            if j == wf.len() {
                assert(front.contains(wf[i]));
                let k = front.index_of(wf[i]);
                assert(s[k] == wf[i]);
                assert(s[k].0 <= s[s.len() - 1].0);
            }
        }
    }
}

/// The keys never fall from one entry to the next.
pub open spec fn keys_rise(s: Seq<(isize, usize)>) -> bool {
    forall|i: int, j: int| 0 <= i < j < s.len() ==> (#[trigger] s[i]).0 <= (#[trigger] s[j]).0
}

/// How many entries stand before a new one with key `relative`.
pub open spec fn place(s: Seq<(isize, usize)>, relative: isize) -> int
    decreases s.len(),
{
    if s.len() == 0 {
        0
    } else {
        place(s.drop_last(), relative) + if stands_before(s.last().0, relative) {
            1int
        } else {
            0int
        }
    }
}

/// Where the keys rise, the entries that stand before a new one are the
/// first so many.
pub proof fn lemma_place(s: Seq<(isize, usize)>, relative: isize, at: int)
    requires
        0 <= at <= s.len(),
        forall|i: int| 0 <= i < at ==> stands_before(#[trigger] s[i].0, relative),
        forall|i: int| at <= i < s.len() ==> !stands_before(#[trigger] s[i].0, relative),
    ensures
        place(s, relative) == at,
    decreases s.len(),
{
    if s.len() > 0 {
        let front = s.drop_last();
        assert forall|i: int| 0 <= i < front.len() && i < at implies stands_before(
            #[trigger] front[i].0,
            relative,
        ) by {
            assert(front[i] == s[i]);
        }
        assert forall|i: int| at <= i < front.len() implies !stands_before(
            #[trigger] front[i].0,
            relative,
        ) by {
            assert(front[i] == s[i]);
        }
        if at == s.len() {
            assert(stands_before(s[s.len() - 1].0, relative));
            lemma_place(front, relative, at - 1);
        } else {
            assert(!stands_before(s[s.len() - 1].0, relative));
            lemma_place(front, relative, at);
        }
    }
}

/// Taking entries out leaves the keys rising.
pub proof fn lemma_without_rises(s: Seq<(isize, usize)>, item: usize)
    requires
        keys_rise(s),
    ensures
        keys_rise(without(s, item)),
        forall|i: int|
            0 <= i < without(s, item).len() ==> s.contains(#[trigger] without(s, item)[i])
                && without(s, item)[i].1 != item,
        without(s, item).len() <= s.len(),
    decreases s.len(),
{
    if s.len() > 0 {
        let front = s.drop_last();
        assert forall|i: int, j: int| 0 <= i < j < front.len() implies (#[trigger] front[i]).0 <= (
        #[trigger] front[j]).0 by {
            assert(front[i] == s[i] && front[j] == s[j]);
        }
        lemma_without_rises(front, item);
        let w = without(s, item);
        let wf = without(front, item);
        assert forall|i: int| 0 <= i < w.len() implies s.contains(#[trigger] w[i]) && w[i].1
            != item by {
            if i < wf.len() {
                assert(front.contains(wf[i]));
                let k = front.index_of(wf[i]);
                assert(s[k] == wf[i]);
            } else {
                assert(s[s.len() - 1] == w[i]);
            }
        }
        assert forall|i: int, j: int| 0 <= i < j < w.len() implies (#[trigger] w[i]).0 <= (
        #[trigger] w[j]).0 by {
            if j == wf.len() {
                assert(front.contains(wf[i]));
                let k = front.index_of(wf[i]);
                assert(s[k] == wf[i]);
                assert(s[k].0 <= s[s.len() - 1].0);
            }
        }
    }
}

/// `i` is one of the first `n` indices.
pub open spec fn among(i: int, n: int) -> bool {
    0 <= i < n
}

/// One context before each mark and one after the last.
pub open spec fn paired<T>(trail: Seq<Scene<T>>, marks: Seq<bool>) -> bool {
    trail.len() == marks.len() + 1
}

/// Why a dispatch to `cell` is refused in the context `s`: the cell is not
/// there, or it is held.
pub open spec fn refusal<T>(s: Scene<T>, cell: usize, e: AccessError) -> bool {
    if !s.has(cell as int) {
        e == AccessError::UnexpectedItem
    } else {
        !(s.states[cell as int] is Free) && e == AccessError::AlreadyBorrowed
    }
}

/// Dispatches to `cell` with the exclusive hold, with a handler that can
/// be called again.
pub fn step<T, R, F: FnMut(&mut Context<T>, Hold) -> R>(
    cell: usize,
    ctx: &mut Context<T>,
    handler: &mut F,
) -> (out: Result<R, AccessError>)
    requires
        old(ctx).wf(),
        forall|c: &mut Context<T>, h: Hold|
            c.wf() && c@.on_top(h) && h.kind() is Exclusive && h.cell() == cell ==> call_requires(
                *old(handler),
                (c, h),
            ),
        forall|c: &mut Context<T>, h: Hold, r: R|
            c.wf() && call_ensures(*old(handler), (c, h), r) ==> final(c).wf() && final(c)@.since(c@),
    ensures
        final(ctx).wf(),
        final(ctx)@.since(old(ctx)@),
        *final(handler) == *old(handler),
        out matches Err(e) ==> refusal(old(ctx)@, cell, e) && final(ctx)@ == old(ctx)@,
        out is Err <==> !old(ctx)@.has(cell as int) || !(old(ctx)@.states[cell as int] is Free),
        out matches Ok(r) ==> exists|mid: &mut Context<T>, h: Hold|
            mid@ == old(ctx)@.entered(cell, AccessKind::Exclusive) && mid@.on_top(h) && h.cell()
                == cell && h.kind() is Exclusive && #[trigger] call_ensures(
                *old(handler),
                (mid, h),
                r,
            ) && final(ctx)@ == final(mid)@.left(),
{
    let ghost before = ctx@;
    proof {
        ctx.lemma_wf();
    }
    ctx.trace(cell);
    let hold = match ctx.enter(cell, AccessKind::Exclusive) {
        Ok(h) => h,
        Err(e) => {
            return Err(e);
        },
    };
    let ghost h = hold;
    let ghost entered = ctx@;
    let r = handler(ctx, hold);
    let ghost after = ctx@;
    proof {
        assert(after.since(entered));
        assert(entered.stack.drop_last() =~= before.stack);
    }
    ctx.leave();
    let out = Ok(r);
    proof {
        assert(out->Ok_0 == r);
        assert(ctx@.stack =~= before.stack);
    }
    out
}

/// Dispatches to each of `cells` in turn, with the exclusive hold, until one
/// refuses; hands back what the handler returned for each.
pub fn visit<T, R, F: FnMut(&mut Context<T>, Hold) -> R>(
    cells: &Vec<usize>,
    ctx: &mut Context<T>,
    handler: &mut F,
) -> (out: (Result<(), AccessError>, Vec<R>))
    requires
        old(ctx).wf(),
        forall|c: &mut Context<T>, h: Hold|
            c.wf() && c@.on_top(h) && h.kind() is Exclusive && cells@.contains(h.cell())
                ==> call_requires(*old(handler), (c, h)),
        forall|c: &mut Context<T>, h: Hold, r: R|
            c.wf() && call_ensures(*old(handler), (c, h), r) ==> final(c).wf() && final(c)@.since(c@),
    ensures
        final(ctx).wf(),
        final(ctx)@.since(old(ctx)@),
        *final(handler) == *old(handler),
        out.1@.len() <= cells@.len(),
        exists|trail: Seq<Scene<T>>|
            {
                &&& trail.len() == out.1@.len() + 1
                &&& trail[0] == old(ctx)@
                &&& trail.last() == final(ctx)@
                &&& forall|i: int| #[trigger]
                    among(i, out.1@.len() as int) ==> exists|mid: &mut Context<T>, h: Hold|
                        mid@ == trail[i].entered(cells@[i], AccessKind::Exclusive)
                            && mid@.on_top(h) && h.cell() == cells@[i] && h.kind() is Exclusive
                            && #[trigger] call_ensures(*old(handler), (mid, h), out.1@[i])
                            && trail[i + 1] == final(mid)@.left()
                &&& match out.0 {
                    Ok(()) => out.1@.len() == cells@.len(),
                    Err(e) => out.1@.len() < cells@.len() && refusal(
                        trail.last(),
                        cells@[out.1@.len() as int],
                        e,
                    ),
                }
            },
{
    let ghost start = ctx@;
    let ghost f = *handler;
    let ghost mut trail: Seq<Scene<T>> = seq![start];
    let mut results: Vec<R> = Vec::new();
    let mut i: usize = 0;
    while i < cells.len()
        invariant
            i <= cells@.len(),
            ctx.wf(),
            ctx@.since(start),
            start == old(ctx)@,
            *handler == f,
            f == *old(handler),
            forall|c: &mut Context<T>, h: Hold|
                c.wf() && c@.on_top(h) && h.kind() is Exclusive && cells@.contains(h.cell())
                    ==> call_requires(f, (c, h)),
            forall|c: &mut Context<T>, h: Hold, r: R|
                c.wf() && call_ensures(f, (c, h), r) ==> final(c).wf() && final(c)@.since(c@),
            results@.len() == i,
            trail.len() == i + 1,
            trail[0] == start,
            trail.last() == ctx@,
            forall|k: int| #[trigger]
                among(k, i as int) ==> exists|mid: &mut Context<T>, h: Hold|
                    mid@ == trail[k].entered(cells@[k], AccessKind::Exclusive)
                        && mid@.on_top(h) && h.cell() == cells@[k] && h.kind() is Exclusive
                        && #[trigger] call_ensures(f, (mid, h), results@[k]) && trail[k + 1]
                        == final(mid)@.left(),
        decreases cells@.len() - i,
    {
        let cell = cells[i];
        let ghost before = ctx@;
        let ghost seen = trail;
        let ghost got = results@;
        assert(cells@[i as int] == cell);
        match step(cell, ctx, handler) {
            Err(e) => {
                proof {
                    assert(trail.last() == ctx@);
                }
                return (Err(e), results);
            },
            Ok(r) => {
                results.push(r);
                i += 1;
                proof {
                    trail = trail.push(ctx@);
                    assert(results@[i - 1] == r);
                    assert forall|k: int| #[trigger] among(k, i as int) implies exists|
                        mid: &mut Context<T>,
                        h: Hold,
                    |
                        mid@ == trail[k].entered(cells@[k], AccessKind::Exclusive)
                            && mid@.on_top(h) && h.cell() == cells@[k] && h.kind() is Exclusive
                            && #[trigger] call_ensures(f, (mid, h), results@[k]) && trail[k + 1]
                            == final(mid)@.left() by {
                        if k < i - 1 {
                            assert(among(k, i - 1));
                            assert(trail[k] == seen[k]);
                            assert(trail[k + 1] == seen[k + 1]);
                            assert(results@[k] == got[k]);
                            let (mid, h) = choose|mid: &mut Context<T>, h: Hold|
                                mid@ == seen[k].entered(
                                    cells@[k],
                                    AccessKind::Exclusive,
                                ) && mid@.on_top(h) && h.cell() == cells@[k] && h.kind() is Exclusive
                                    && #[trigger] call_ensures(f, (mid, h), got[k]) && seen[k + 1]
                                    == final(mid)@.left();
                            assert(call_ensures(f, (mid, h), results@[k]));
                        } else {
                            assert(trail[k] == before);
                            let (mid, h) = choose|mid: &mut Context<T>, h: Hold|
                                mid@ == before.entered(cell, AccessKind::Exclusive) && mid@.on_top(h) && h.cell() == cell && h.kind() is Exclusive
                                    && #[trigger] call_ensures(f, (mid, h), r) && ctx@ == final(mid)@.left();
                            assert(call_ensures(f, (mid, h), results@[k]));
                        }
                    }
                }
            },
        }
    }
    (Ok(()), results)
}

/// Container for multiple [`Node`]s.
pub struct Channel {
    items: IsizeVec<usize>,
    trace: Trace,
}

impl View for Channel {
    type V = Seq<(isize, usize)>;

    closed spec fn view(&self) -> Seq<(isize, usize)> {
        entries(self.items)
    }
}

impl Default for Channel {
    fn default() -> (r: Self)
        ensures
            r.wf(),
            r@.len() == 0,
    {
        Channel::new()
    }
}

impl Channel {
    /// The keys of the entries rise, and the trace can be told any
    /// indentation.
    pub closed spec fn wf(&self) -> bool {
        keys_rise(self@) && self.trace.wf()
    }

    /// A channel that is in order shows so to contracts.
    pub proof fn lemma_wf(&self)
        requires
            self.wf(),
        ensures
            keys_rise(self@),
    {
    }

    /// Create a new channel.
    pub fn new() -> (r: Self)
        ensures
            r.wf(),
            r@.len() == 0,
    {
        Channel { items: ordered_new(), trace: Trace::empty() }
    }

    /// Create a new channel with a trace object.
    pub fn new_with_trace<F: Fn(usize) + 'static>(trace: F) -> (r: Self)
        requires
            forall|n: usize| call_requires(trace, (n,)),
        ensures
            r.wf(),
            r@.len() == 0,
            !r.trace().silent(),
            forall|n: usize| #[trigger] r.trace().reported(n) <==> call_ensures(trace, (n,), ()),
    {
        Channel { items: ordered_new(), trace: Trace::new(trace) }
    }

    /// The trace that the channel reports to when it emits.
    pub closed spec fn trace(&self) -> Trace {
        self.trace
    }

    /// Insert a node into this channel.
    ///
    /// The value `relative` indicates where the node will be put in the
    /// list relative to other nodes. If two nodes have the same `relative`
    /// value, then the node will be prepended if it is negative, and
    /// appended if not.
    pub fn insert(&mut self, relative: isize, item: Node)
        requires
            old(self).wf(),
        ensures
            final(self).wf(),
            final(self)@ == old(self)@.insert(place(old(self)@, relative), (relative, item@)),
            0 <= place(old(self)@, relative) <= old(self)@.len(),
    {
        let ghost before = self@;
        let at = ordered_insert(&mut self.items, relative, item.index());
        proof {
            lemma_place(before, relative, at as int);
            let after = self@;
            assert forall|i: int, j: int| 0 <= i < j < after.len() implies (#[trigger] after[i]).0
                <= (#[trigger] after[j]).0 by {
                if i < at && j > at {
                    assert(after[i] == before[i]);
                    assert(after[j] == before[j - 1]);
                } else if i == at {
                    assert(after[j] == before[j - 1]);
                    assert(!stands_before(before[j - 1].0, relative));
                } else if j == at {
                    assert(after[i] == before[i]);
                    assert(stands_before(before[i].0, relative));
                } else if j < at {
                    assert(after[i] == before[i] && after[j] == before[j]);
                } else {
                    assert(after[i] == before[i - 1] && after[j] == before[j - 1]);
                }
            }
        }
    }

    /// Remove all occurrences of a node from this channel.
    pub fn remove(&mut self, item: &Node)
        requires
            old(self).wf(),
        ensures
            final(self).wf(),
            final(self)@ == without(old(self)@, item@),
    {
        proof {
            lemma_without_rises(self@, item@);
        }
        ordered_discard(&mut self.items, item.index());
    }

    /// Apply a function to each item in this channel, in the order of the
    /// list, each under its own exclusive hold.
    ///
    /// The first node that is held already, and whose holder has not
    /// suspended, ends the call with an error: the nodes before it were
    /// called, those from it on are not.
    pub fn emit<T, F: FnMut(&mut Context<T>, Hold)>(&self, ctx: &mut Context<T>, handler: F) -> (out:
        Result<(), AccessError>)
        requires
            self.wf(),
            old(ctx).wf(),
            forall|c: &mut Context<T>, h: Hold|
                c.wf() && c@.on_top(h) && h.kind() is Exclusive && items_of(self@).contains(h.cell()) ==> call_requires(handler, (c, h)),
            forall|c: &mut Context<T>, h: Hold, r: ()|
                c.wf() && call_ensures(handler, (c, h), r) ==> final(c).wf() && final(c)@.since(c@),
        ensures
            final(ctx).wf(),
            final(ctx)@.since(old(ctx)@),
            exists|trail: Seq<Scene<T>>|
                {
                    &&& 1 <= trail.len() <= self@.len() + 1
                    &&& trail[0] == old(ctx)@.indented()
                    &&& trail.last().dedented() == final(ctx)@
                    &&& forall|i: int| #[trigger]
                        among(i, trail.len() - 1) ==> exists|mid: &mut Context<T>, h: Hold|
                            mid@ == trail[i].entered(self@[i].1, AccessKind::Exclusive)
                                && mid@.on_top(h) && h.cell() == self@[i].1 && h.kind() is Exclusive
                                && #[trigger] call_ensures(handler, (mid, h), ()) && trail[i + 1]
                                == final(mid)@.left()
                    &&& match out {
                        Ok(()) => trail.len() == self@.len() + 1,
                        Err(e) => trail.len() <= self@.len() && refusal(
                            trail.last(),
                            self@[trail.len() - 1].1,
                            e,
                        ),
                    }
                },
    {
        let ghost before = ctx@;
        self.trace.log(ctx);
        Trace::indent(ctx);
        let cells = ordered_items(&self.items);
        let mut handler = handler;
        let ghost f = handler;
        let (out, results) = visit(&cells, ctx, &mut handler);
        let ghost reached = ctx@;
        Trace::dedent(ctx);
        proof {
            assert(before.indented().dedented() == before);
            let trail = choose|trail: Seq<Scene<T>>|
                {
                    &&& trail.len() == results@.len() + 1
                    &&& trail[0] == before.indented()
                    &&& trail.last() == reached
                    &&& forall|i: int| #[trigger]
                        among(i, results@.len() as int) ==> exists|mid: &mut Context<T>, h: Hold|
                            mid@ == trail[i].entered(cells@[i], AccessKind::Exclusive)
                                && mid@.on_top(h) && h.cell() == cells@[i] && h.kind() is Exclusive
                                && #[trigger] call_ensures(f, (mid, h), results@[i]) && trail[i + 1]
                                == final(mid)@.left()
                    &&& match out {
                        Ok(()) => results@.len() == cells@.len(),
                        Err(e) => results@.len() < cells@.len() && refusal(
                            trail.last(),
                            cells@[results@.len() as int],
                            e,
                        ),
                    }
                };
            assert forall|i: int| #[trigger] among(i, trail.len() - 1) implies exists|
                mid: &mut Context<T>,
                h: Hold,
            |
                mid@ == trail[i].entered(self@[i].1, AccessKind::Exclusive) && mid@.on_top(h)
                    && h.cell() == self@[i].1 && h.kind() is Exclusive && #[trigger] call_ensures(
                    f,
                    (mid, h),
                    (),
                ) && trail[i + 1] == final(mid)@.left() by {
                assert(among(i, results@.len() as int));
                let (mid, h) = choose|mid: &mut Context<T>, h: Hold|
                    mid@ == trail[i].entered(cells@[i], AccessKind::Exclusive) && mid@.on_top(h)
                        && h.cell() == cells@[i] && h.kind() is Exclusive && #[trigger] call_ensures(
                        f,
                        (mid, h),
                        results@[i],
                    ) && trail[i + 1] == final(mid)@.left();
                assert(call_ensures(f, (mid, h), ()));
            }
        }
        out
    }

    /// Calls `predicate` on each node in the order of the list, each under
    /// its own exclusive hold, and removes the nodes for which it returns
    /// true. The nodes that stay keep their order.
    ///
    /// The first node that is held already, and whose holder has not
    /// suspended, ends the call with an error, and no node is removed.
    pub fn remove_if<T, F: FnMut(&mut Context<T>, Hold) -> bool>(
        &mut self,
        ctx: &mut Context<T>,
        predicate: F,
    ) -> (out: Result<(), AccessError>)
        requires
            old(self).wf(),
            old(ctx).wf(),
            forall|c: &mut Context<T>, h: Hold|
                c.wf() && c@.on_top(h) && h.kind() is Exclusive && items_of(old(self)@).contains(h.cell()) ==> call_requires(predicate, (c, h)),
            forall|c: &mut Context<T>, h: Hold, r: bool|
                c.wf() && call_ensures(predicate, (c, h), r) ==> final(c).wf() && final(c)@.since(c@),
        ensures
            final(self).wf(),
            final(ctx).wf(),
            final(ctx)@.since(old(ctx)@),
            exists|trail: Seq<Scene<T>>, marks: Seq<bool>|
                {
                    &&& marks.len() <= old(self)@.len()
                    &&& #[trigger] paired(trail, marks)
                    &&& trail[0] == old(ctx)@
                    &&& trail.last() == final(ctx)@
                    &&& forall|i: int| #[trigger]
                        among(i, marks.len() as int) ==> exists|mid: &mut Context<T>, h: Hold|
                            mid@ == trail[i].entered(old(self)@[i].1, AccessKind::Exclusive)
                                && mid@.on_top(h) && h.cell() == old(self)@[i].1
                                && h.kind() is Exclusive && #[trigger] call_ensures(
                                predicate,
                                (mid, h),
                                marks[i],
                            ) && trail[i + 1] == final(mid)@.left()
                    &&& match out {
                        Ok(()) => marks.len() == old(self)@.len() && final(self)@ == unmarked(
                            old(self)@,
                            marks,
                        ),
                        Err(e) => marks.len() < old(self)@.len() && final(self)@ == old(self)@
                            && refusal(trail.last(), old(self)@[marks.len() as int].1, e),
                    }
                },
    {
        let ghost before = self@;
        let ghost start = ctx@;
        let cells = ordered_items(&self.items);
        let mut predicate = predicate;
        let ghost f = predicate;
        let (out, results) = visit(&cells, ctx, &mut predicate);
        let ghost marks = results@;
        let ghost trail = choose|trail: Seq<Scene<T>>|
                {
                    &&& trail.len() == results@.len() + 1
                    &&& trail[0] == start
                    &&& trail.last() == ctx@
                    &&& forall|i: int| #[trigger]
                        among(i, results@.len() as int) ==> exists|mid: &mut Context<T>, h: Hold|
                            mid@ == trail[i].entered(cells@[i], AccessKind::Exclusive)
                                && mid@.on_top(h) && h.cell() == cells@[i] && h.kind() is Exclusive
                                && #[trigger] call_ensures(f, (mid, h), results@[i]) && trail[i + 1]
                                == final(mid)@.left()
                    &&& match out {
                        Ok(()) => results@.len() == cells@.len(),
                        Err(e) => results@.len() < cells@.len() && refusal(
                            trail.last(),
                            cells@[results@.len() as int],
                            e,
                        ),
                    }
                };
        proof {
            assert forall|i: int| #[trigger] among(i, marks.len() as int) implies exists|
                mid: &mut Context<T>,
                h: Hold,
            |
                mid@ == trail[i].entered(before[i].1, AccessKind::Exclusive) && mid@.on_top(h)
                    && h.cell() == before[i].1 && h.kind() is Exclusive && #[trigger] call_ensures(
                    f,
                    (mid, h),
                    marks[i],
                ) && trail[i + 1] == final(mid)@.left() by {
                let (mid, h) = choose|mid: &mut Context<T>, h: Hold|
                    mid@ == trail[i].entered(cells@[i], AccessKind::Exclusive) && mid@.on_top(h)
                        && h.cell() == cells@[i] && h.kind() is Exclusive && #[trigger] call_ensures(
                        f,
                        (mid, h),
                        results@[i],
                    ) && trail[i + 1] == final(mid)@.left();
                assert(call_ensures(f, (mid, h), marks[i]));
            }
        }
        match out {
            Err(e) => {
                proof {
                    assert(paired(trail, marks));
                    assert(refusal(trail.last(), before[marks.len() as int].1, e));
                }
                Err(e)
            },
            Ok(()) => {
                let n = results.len();
                let mut j: usize = n;
                proof {
                    assert(before.subrange(0, n as int) =~= before);
                    assert(before.subrange(n as int, n as int) =~= Seq::<(isize, usize)>::empty());
                    assert(before + Seq::<(isize, usize)>::empty() =~= before);
                }
                while j > 0
                    invariant
                        j <= n,
                        n == before.len(),
                        marks == results@,
                        marks.len() == n,
                        keys_rise(before),
                        self.trace.wf(),
                        self@ == before.subrange(0, j as int) + unmarked(
                            before.subrange(j as int, n as int),
                            marks.subrange(j as int, n as int),
                        ),
                    decreases j,
                {
                    j -= 1;
                    let ghost rest = unmarked(
                        before.subrange(j + 1, n as int),
                        marks.subrange(j + 1, n as int),
                    );
                    proof {
                        lemma_unmarked_front(
                            before[j as int],
                            marks[j as int],
                            before.subrange(j + 1, n as int),
                            marks.subrange(j + 1, n as int),
                        );
                        assert(seq![before[j as int]] + before.subrange(j + 1, n as int)
                            =~= before.subrange(j as int, n as int));
                        assert(seq![marks[j as int]] + marks.subrange(j + 1, n as int)
                            =~= marks.subrange(j as int, n as int));
                    }
                    if results[j] {
                        ordered_remove(&mut self.items, j);
                        proof {
                            assert(self@ =~= before.subrange(0, j as int) + rest);
                        }
                    } else {
                        proof {
                            assert(self@ =~= before.subrange(0, j as int) + (seq![before[j as int]]
                                + rest));
                        }
                    }
                }
                proof {
                    assert(before.subrange(0, 0) + unmarked(before, marks) =~= unmarked(before, marks))
                        by {
                        assert(before.subrange(0, 0) =~= Seq::<(isize, usize)>::empty());
                    }
                    assert(before.subrange(0, n as int) =~= before);
                    assert(marks.subrange(0, n as int) =~= marks);
                    lemma_unmarked_rises(before, marks);
                    assert(paired(trail, marks));
                }
                Ok(())
            },
        }
    }

    /// The nodes of this channel, in the order in which it calls them.
    pub fn members(&self) -> (r: Vec<Node>)
        ensures
            r@.len() == self@.len(),
            forall|i: int| 0 <= i < r@.len() ==> (#[trigger] r@[i])@ == self@[i].1,
    {
        let cells = ordered_items(&self.items);
        let mut out: Vec<Node> = Vec::new();
        let mut i: usize = 0;
        while i < cells.len()
            invariant
                i <= cells@.len(),
                cells@ == items_of(self@),
                out@.len() == i,
                forall|j: int| 0 <= j < i ==> (#[trigger] out@[j])@ == self@[j].1,
            decreases cells@.len() - i,
        {
            out.push(Node::at(cells[i]));
            i += 1;
        }
        out
    }
}

} // verus!
