//! A container for many nodes, kept in the order of their subscription.

use vstd::prelude::*;
use std::cmp::Ordering;
use crate::channel::{among, paired, refusal, visit};
use crate::context::{Access, AccessError, AccessKind, Context, Hold, Scene};
use crate::mng::{ChannelType, Frame, Manager, SubscribeError};
use crate::node::Node;
use crate::sorting::{in_order, payload, readable, sort_cells, usable};

verus! {

/// Signal of interest, contains subscribers.
///
/// Signals are channels on which we can emit events synchronously.
pub struct Signal {
    name: &'static str,
    subscribers: Vec<usize>,
}

impl View for Signal {
    type V = Seq<usize>;

    closed spec fn view(&self) -> Seq<usize> {
        self.subscribers@
    }
}

/// The cells whose mark is not set, in their order.
pub open spec fn kept(s: Seq<usize>, marks: Seq<bool>) -> Seq<usize>
    decreases s.len(),
{
    if s.len() == 0 || marks.len() != s.len() {
        s
    } else if marks.last() {
        kept(s.drop_last(), marks.drop_last())
    } else {
        kept(s.drop_last(), marks.drop_last()).push(s.last())
    }
}

/// The first of the cells that cannot be read, if there is one: its index.
pub open spec fn first_unreadable<T>(s: Scene<T>, cells: Seq<usize>, from: int) -> int
    decreases cells.len() - from,
{
    if from < 0 || from >= cells.len() {
        cells.len() as int
    } else if !usable(s, cells[from]) {
        from
    } else {
        first_unreadable(s, cells, from + 1)
    }
}

impl Signal {
    /// The name under which the signal is declared.
    pub closed spec fn name(&self) -> Seq<char> {
        self.name@
    }

    /// Create a new signal, declared with the manager as a direct channel.
    pub fn new(name: &'static str, manager: &mut Manager) -> (r: Result<Self, SubscribeError>)
        requires
            old(manager).wf(),
        ensures
            final(manager).wf(),
            old(manager)@.declared(name@) ==> (r matches Err(SubscribeError::DuplicateChannelName)
                && final(manager)@ == old(manager)@),
            !old(manager)@.declared(name@) ==> (r matches Ok(signal) && signal@.len() == 0
                && signal.name() == name@ && final(manager)@ == old(manager)@.with_channel(
                name@,
                ChannelType::Direct,
            )),
    {
        match manager.ensure_new(name, ChannelType::Direct) {
            Err(e) => Err(SubscribeError::DuplicateChannelName),
            Ok(()) => Ok(Signal { name, subscribers: Vec::new() }),
        }
    }

    /// Records that the handler whose subscription is under way emits into
    /// this signal.
    pub fn internal_clone(&self, manager: &mut Manager) -> (r: Result<(), SubscribeError>)
        requires
            old(manager).wf(),
            old(manager)@.active.len() > 0,
            old(manager)@.declared(self.name()),
        ensures
            final(manager).wf(),
            old(manager)@.active.last().emits.contains(self.name()) ==> (r matches Err(
                SubscribeError::DuplicateDeclaration,
            ) && final(manager)@ == old(manager)@),
            !old(manager)@.active.last().emits.contains(self.name()) ==> (r is Ok && final(manager)@ == old(manager)@.with_top(
                Frame {
                    emits: old(manager)@.active.last().emits.push(self.name()),
                    ..old(manager)@.active.last()
                },
            )),
    {
        match manager.register_emit(self.name) {
            Err(e) => Err(SubscribeError::DuplicateDeclaration),
            Ok(()) => Ok(()),
        }
    }

    /// Subscribes a node, for the handler whose subscription is under way:
    /// it is called after those that are subscribed already.
    pub fn insert(&mut self, manager: &mut Manager, item: Node) -> (r: Result<(), SubscribeError>)
        requires
            old(manager).wf(),
            old(manager)@.active.len() > 0,
            old(manager)@.declared(old(self).name()),
        ensures
            final(manager).wf(),
            final(self).name() == old(self).name(),
            old(manager)@.active.last().listens.contains(old(self).name()) ==> (r matches Err(
                SubscribeError::DuplicateDeclaration,
            ) && final(manager)@ == old(manager)@ && final(self)@ == old(self)@),
            !old(manager)@.active.last().listens.contains(old(self).name()) ==> (r is Ok && final(self)@ == old(self)@.push(item@) && final(manager)@ == old(manager)@.with_top(
                Frame {
                    listens: old(manager)@.active.last().listens.push(old(self).name()),
                    ..old(manager)@.active.last()
                },
            )),
    {
        match manager.register_listen(self.name) {
            Err(e) => Err(SubscribeError::DuplicateDeclaration),
            Ok(()) => {
                self.subscribers.push(item.index());
                Ok(())
            },
        }
    }

    /// Access all subscribers and apply a closure to each, each under its
    /// own exclusive hold.
    ///
    /// Subscribers are iterated in subscription order. The first that is
    /// held already, and whose holder has not suspended, ends the call
    /// with an error.
    pub fn emit<T, F: FnMut(&mut Context<T>, Hold)>(&mut self, ctx: &mut Context<T>, caller: F) -> (out:
        Result<(), AccessError>)
        requires
            old(ctx).wf(),
            forall|c: &mut Context<T>, h: Hold|
                c.wf() && c@.on_top(h) && h.kind() is Exclusive && old(self)@.contains(h.cell())
                    ==> call_requires(caller, (c, h)),
            forall|c: &mut Context<T>, h: Hold, r: ()|
                c.wf() && call_ensures(caller, (c, h), r) ==> final(c).wf() && final(c)@.since(c@),
        ensures
            final(self)@ == old(self)@,
            final(self).name() == old(self).name(),
            final(ctx).wf(),
            final(ctx)@.since(old(ctx)@),
            exists|trail: Seq<Scene<T>>|
                {
                    &&& 1 <= trail.len() <= old(self)@.len() + 1
                    &&& trail[0] == old(ctx)@
                    &&& trail.last() == final(ctx)@
                    &&& forall|i: int| #[trigger]
                        among(i, trail.len() - 1) ==> exists|mid: &mut Context<T>, h: Hold|
                            mid@ == trail[i].entered(old(self)@[i], AccessKind::Exclusive)
                                && mid@.on_top(h) && h.cell() == old(self)@[i]
                                && h.kind() is Exclusive && #[trigger] call_ensures(
                                caller,
                                (mid, h),
                                (),
                            ) && trail[i + 1] == final(mid)@.left()
                    &&& match out {
                        Ok(()) => trail.len() == old(self)@.len() + 1,
                        Err(e) => trail.len() <= old(self)@.len() && refusal(
                            trail.last(),
                            old(self)@[trail.len() - 1],
                            e,
                        ),
                    }
                },
    {
        let ghost before = ctx@;
        let ghost cells = self@;
        let mut caller = caller;
        let ghost f = caller;
        let (out, results) = visit(&self.subscribers, ctx, &mut caller);
        proof {
            let trail = choose|trail: Seq<Scene<T>>|
                {
                    &&& trail.len() == results@.len() + 1
                    &&& trail[0] == before
                    &&& trail.last() == ctx@
                    &&& forall|i: int| #[trigger]
                        among(i, results@.len() as int) ==> exists|mid: &mut Context<T>, h: Hold|
                            mid@ == trail[i].entered(cells[i], AccessKind::Exclusive) && mid@.on_top(h) && h.cell() == cells[i] && h.kind() is Exclusive
                                && #[trigger] call_ensures(f, (mid, h), results@[i]) && trail[i + 1]
                                == final(mid)@.left()
                    &&& match out {
                        Ok(()) => results@.len() == cells.len(),
                        Err(e) => results@.len() < cells.len() && refusal(
                            trail.last(),
                            cells[results@.len() as int],
                            e,
                        ),
                    }
                };
            assert forall|i: int| #[trigger] among(i, trail.len() - 1) implies exists|
                mid: &mut Context<T>,
                h: Hold,
            |
                mid@ == trail[i].entered(cells[i], AccessKind::Exclusive) && mid@.on_top(h)
                    && h.cell() == cells[i] && h.kind() is Exclusive && #[trigger] call_ensures(
                    f,
                    (mid, h),
                    (),
                ) && trail[i + 1] == final(mid)@.left() by {
                assert(among(i, results@.len() as int));
                let (mid, h) = choose|mid: &mut Context<T>, h: Hold|
                    mid@ == trail[i].entered(cells[i], AccessKind::Exclusive) && mid@.on_top(h)
                        && h.cell() == cells[i] && h.kind() is Exclusive && #[trigger] call_ensures(
                        f,
                        (mid, h),
                        results@[i],
                    ) && trail[i + 1] == final(mid)@.left();
                assert(call_ensures(f, (mid, h), ()));
            }
        }
        out
    }

    /// Remove subscribers given a predicate, which is called on each in
    /// subscription order under its own exclusive hold. True removes the
    /// item.
    ///
    /// Removing items does not perturb relative ordering. The first
    /// subscriber that is held already, and whose holder has not suspended,
    /// ends the call with an error, and nothing is removed.
    pub fn remove<T, F: FnMut(&mut Context<T>, Hold) -> bool>(
        &mut self,
        ctx: &mut Context<T>,
        predicate: F,
    ) -> (out: Result<(), AccessError>)
        requires
            old(ctx).wf(),
            forall|c: &mut Context<T>, h: Hold|
                c.wf() && c@.on_top(h) && h.kind() is Exclusive && old(self)@.contains(h.cell())
                    ==> call_requires(predicate, (c, h)),
            forall|c: &mut Context<T>, h: Hold, r: bool|
                c.wf() && call_ensures(predicate, (c, h), r) ==> final(c).wf() && final(c)@.since(c@),
        ensures
            final(self).name() == old(self).name(),
            final(ctx).wf(),
            final(ctx)@.since(old(ctx)@),
            exists|trail: Seq<Scene<T>>, marks: Seq<bool>|
                {
                    &&& marks.len() <= old(self)@.len()
                    &&& #[trigger] paired(trail, marks)
                    &&& trail[0] == old(ctx)@
                    &&& trail.last() == final(ctx)@
                    &&& forall|i: int| #[trigger]
                        among(i, marks.len() as int) ==> exists|mid: &mut Context<T>, h: Hold|
                            mid@ == trail[i].entered(old(self)@[i], AccessKind::Exclusive)
                                && mid@.on_top(h) && h.cell() == old(self)@[i]
                                && h.kind() is Exclusive && #[trigger] call_ensures(
                                predicate,
                                (mid, h),
                                marks[i],
                            ) && trail[i + 1] == final(mid)@.left()
                    &&& match out {
                        Ok(()) => marks.len() == old(self)@.len() && final(self)@ == kept(
                            old(self)@,
                            marks,
                        ),
                        Err(e) => marks.len() < old(self)@.len() && final(self)@ == old(self)@
                            && refusal(trail.last(), old(self)@[marks.len() as int], e),
                    }
                },
    {
        let ghost before = ctx@;
        let ghost cells = self@;
        let mut predicate = predicate;
        let ghost f = predicate;
        let (out, results) = visit(&self.subscribers, ctx, &mut predicate);
        let ghost marks = results@;
        let ghost trail = choose|trail: Seq<Scene<T>>|
            {
                &&& trail.len() == results@.len() + 1
                &&& trail[0] == before
                &&& trail.last() == ctx@
                &&& forall|i: int| #[trigger]
                    among(i, results@.len() as int) ==> exists|mid: &mut Context<T>, h: Hold|
                        mid@ == trail[i].entered(cells[i], AccessKind::Exclusive) && mid@.on_top(h)
                            && h.cell() == cells[i] && h.kind() is Exclusive
                            && #[trigger] call_ensures(f, (mid, h), results@[i]) && trail[i + 1]
                            == final(mid)@.left()
                &&& match out {
                    Ok(()) => results@.len() == cells.len(),
                    Err(e) => results@.len() < cells.len() && refusal(
                        trail.last(),
                        cells[results@.len() as int],
                        e,
                    ),
                }
            };
        match out {
            Err(e) => {
                proof {
                    assert(paired(trail, marks));
                }
                Err(e)
            },
            Ok(()) => {
                let mut stay: Vec<usize> = Vec::new();
                let mut i: usize = 0;
                proof {
                    assert(cells.subrange(0, 0) =~= Seq::<usize>::empty());
                }
                while i < self.subscribers.len()
                    invariant
                        i <= cells.len(),
                        cells == self.subscribers@,
                        marks == results@,
                        marks.len() == cells.len(),
                        stay@ == kept(cells.subrange(0, i as int), marks.subrange(0, i as int)),
                    decreases cells.len() - i,
                {
                    proof {
                        assert(cells.subrange(0, i + 1).drop_last() =~= cells.subrange(0, i as int));
                        assert(marks.subrange(0, i + 1).drop_last() =~= marks.subrange(0, i as int));
                    }
                    if !results[i] {
                        stay.push(self.subscribers[i]);
                    }
                    i += 1;
                }
                proof {
                    assert(cells.subrange(0, cells.len() as int) =~= cells);
                    assert(marks.subrange(0, marks.len() as int) =~= marks);
                    assert(paired(trail, marks));
                }
                self.subscribers = stay;
                Ok(())
            },
        }
    }

    /// Sorts the subscribers with a comparator function on their payloads,
    /// which are read where they stand. Subscribers that compare as equal
    /// stay in their order.
    ///
    /// Fails, and leaves the order as it is, if a subscriber is held
    /// exclusively: the error is that of the first such subscriber.
    pub fn sort_by<T, F: FnMut(&T, &T) -> Ordering>(&mut self, ctx: &Context<T>, compare: F) -> (out:
        Result<(), AccessError>)
        requires
            ctx.wf(),
            forall|a: &T, b: &T| call_requires(compare, (a, b)),
        ensures
            final(self).name() == old(self).name(),
            out is Ok <==> first_unreadable(ctx@, old(self)@, 0) == old(self)@.len(),
            out matches Err(e) ==> final(self)@ == old(self)@ && refusal(
                ctx@,
                old(self)@[first_unreadable(ctx@, old(self)@, 0)],
                e,
            ),
            out is Ok ==> final(self)@.to_multiset() == old(self)@.to_multiset() && forall|k: int| #[trigger]
                among(k, final(self)@.len() - 1) ==> in_order(
                    compare,
                    payload(ctx@, final(self)@[k]),
                    payload(ctx@, final(self)@[k + 1]),
                ),
    {
        match self.check_readable(ctx) {
            Err(e) => Err(e),
            Ok(()) => {
                let mut compare = compare;
                sort_cells(&mut self.subscribers, ctx, &mut compare);
                Ok(())
            },
        }
    }

    /// Whether every subscriber can be read: the error of the first that
    /// cannot.
    fn check_readable<T>(&self, ctx: &Context<T>) -> (r: Result<(), AccessError>)
        requires
            ctx.wf(),
        ensures
            r is Ok <==> first_unreadable(ctx@, self@, 0) == self@.len(),
            r is Ok ==> readable(ctx@, self@),
            r matches Err(e) ==> refusal(ctx@, self@[first_unreadable(ctx@, self@, 0)], e),
    {
        let mut i: usize = 0;
        while i < self.subscribers.len()
            invariant
                i <= self@.len(),
                first_unreadable(ctx@, self@, 0) == first_unreadable(ctx@, self@, i as int),
                forall|k: int| 0 <= k < i ==> usable(ctx@, #[trigger] self@[k]),
            decreases self@.len() - i,
        {
            match ctx.access(self.subscribers[i]) {
                None => {
                    return Err(AccessError::UnexpectedItem);
                },
                Some(Access::Exclusive) => {
                    return Err(AccessError::AlreadyBorrowed);
                },
                _ => {},
            }
            i += 1;
        }
        Ok(())
    }
}

} // verus!
