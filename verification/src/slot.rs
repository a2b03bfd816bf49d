//! A container for one node that may be missing.

use vstd::prelude::*;
use crate::context::{AccessError, AccessKind, Context, Hold};
use crate::node::Node;
use crate::trace::Trace;

verus! {

/// Container for a single optional [`Node`].
///
/// Useful for providing a container that may be empty. If the item is
/// always supposed to exist then using [`Node`] directly is more useful.
pub struct Slot {
    items: Option<Node>,
    trace: Trace,
}

impl View for Slot {
    type V = Option<usize>;

    closed spec fn view(&self) -> Option<usize> {
        match self.items {
            Some(node) => Some(node@),
            None => None,
        }
    }
}

impl Default for Slot {
    fn default() -> (r: Self)
        ensures
            r.wf(),
            r@ is None,
    {
        Slot::new()
    }
}

impl Slot {
    /// The trace of the slot can be told any indentation.
    pub closed spec fn wf(&self) -> bool {
        self.trace.wf()
    }

    /// Create a new slot.
    pub fn new() -> (r: Self)
        ensures
            r.wf(),
            r@ is None,
    {
        Slot { items: None, trace: Trace::empty() }
    }

    /// Create a new slot with a trace object.
    pub fn new_with_trace<F: Fn(usize) + 'static>(trace: F) -> (r: Self)
        requires
            forall|n: usize| call_requires(trace, (n,)),
        ensures
            r.wf(),
            r@ is None,
            !r.trace().silent(),
            forall|n: usize| #[trigger] r.trace().reported(n) <==> call_ensures(trace, (n,), ()),
    {
        Slot { items: None, trace: Trace::new(trace) }
    }

    /// The trace that the slot reports to when it emits.
    pub closed spec fn trace(&self) -> Trace {
        self.trace
    }

    /// Insert a node into this slot, in place of the one that it holds.
    pub fn insert(&mut self, item: Node)
        requires
            old(self).wf(),
        ensures
            final(self).wf(),
            final(self)@ == Some(item@),
    {
        self.items = Some(item);
    }

    /// Remove the currently held node from this slot.
    pub fn remove(&mut self) -> (r: Node)
        requires
            old(self).wf(),
            old(self)@ is Some,
        ensures
            final(self).wf(),
            final(self)@ is None,
            old(self)@ == Some(r@),
    {
        self.items.take().unwrap()
    }

    /// Apply a function to the node in this slot.
    ///
    /// Fails, and calls nobody, if the slot holds no node, and if the node
    /// is held already and its holder has not suspended.
    pub fn emit<T, R, F: FnOnce(&mut Context<T>, Hold) -> R>(
        &self,
        ctx: &mut Context<T>,
        handler: F,
    ) -> (out: Result<R, AccessError>)
        requires
            self.wf(),
            old(ctx).wf(),
            forall|c: &mut Context<T>, h: Hold|
                c.wf() && c@.on_top(h) && self@ == Some(h.cell()) && h.kind() is Exclusive
                    ==> call_requires(handler, (c, h)),
            forall|c: &mut Context<T>, h: Hold, r: R|
                c.wf() && call_ensures(handler, (c, h), r) ==> final(c).wf() && final(c)@.since(c@),
        ensures
            final(ctx).wf(),
            final(ctx)@.since(old(ctx)@),
            self@ is None ==> (out matches Err(AccessError::EmptyRequiredSlot) && final(ctx)@ == old(ctx)@),
            self@ matches Some(cell) ==> {
                &&& !old(ctx)@.has(cell as int) ==> (out matches Err(AccessError::UnexpectedItem)
                    && final(ctx)@ == old(ctx)@)
                &&& old(ctx)@.has(cell as int) && !(old(ctx)@.states[cell as int] is Free) ==> (
                out matches Err(AccessError::AlreadyBorrowed) && final(ctx)@ == old(ctx)@)
                &&& old(ctx)@.has(cell as int) && old(ctx)@.states[cell as int] is Free ==> out is Ok
                    && exists|mid: &mut Context<T>, h: Hold|
                    mid@ == old(ctx)@.indented().entered(cell, AccessKind::Exclusive) && mid@.on_top(
                        h,
                    ) && h.cell() == cell && h.kind() is Exclusive && #[trigger] call_ensures(
                        handler,
                        (mid, h),
                        out->Ok_0,
                    ) && final(ctx)@ == final(mid)@.left().dedented()
            },
    {
        let ghost before = ctx@;
        self.trace.log(ctx);
        Trace::indent(ctx);
        let out = match self.items {
            Some(node) => ctx.dispatch(node.index(), AccessKind::Exclusive, handler),
            None => Err(AccessError::EmptyRequiredSlot),
        };
        Trace::dedent(ctx);
        proof {
            assert(before.indented().dedented() == before);
        }
        out
    }
}

} // verus!
