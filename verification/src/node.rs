//! Nodes: handles on the cells of a context, and how a handler suspends.

use vstd::prelude::*;
use crate::context::{AccessError, AccessKind, Context, Hold};
use crate::trace::Trace;

verus! {

/// Node containing arbitrary data: a handle on one cell of a context.
///
/// The context ensures that no two overlapping exclusive holds of the cell
/// exist, and lets the handler that holds it suspend itself, so that the
/// cell can be reached again without aliasing.
#[derive(Debug, Clone, Copy, PartialEq, Eq)]
pub struct Node {
    id: usize,
}

impl View for Node {
    type V = usize;

    closed spec fn view(&self) -> usize {
        self.id
    }
}

impl Node {
    /// Create a new node.
    pub fn new<T>(ctx: &mut Context<T>, item: T) -> (node: Self)
        requires
            old(ctx).wf(),
        ensures
            final(ctx).wf(),
            node@ == old(ctx)@.states.len(),
            final(ctx)@ == old(ctx)@.grown(item),
    {
        Node { id: ctx.adopt(item, Trace::empty()) }
    }

    /// Create a new node with a tracing function.
    ///
    /// The trace function is called with the current indentation value. It
    /// can be used to log calls to nodes and see how various nodes call upon
    /// other nodes.
    pub fn new_with_trace<T, F: Fn(usize) + 'static>(ctx: &mut Context<T>, item: T, trace: F) -> (node:
        Self)
        requires
            old(ctx).wf(),
            forall|n: usize| call_requires(trace, (n,)),
        ensures
            final(ctx).wf(),
            node@ == old(ctx)@.states.len(),
            final(ctx)@ == old(ctx)@.grown(item),
    {
        Node { id: ctx.adopt(item, Trace::new(trace)) }
    }

    /// Takes the exclusive hold of the node and lets the handler reach and
    /// change its contents, and suspend itself.
    ///
    /// Fails, and calls nobody, if the node is held already and its holder
    /// has not suspended.
    pub fn emit<T, R, F: FnOnce(&mut Context<T>, Hold) -> R>(
        &self,
        ctx: &mut Context<T>,
        handler: F,
    ) -> (out: Result<R, AccessError>)
        requires
            old(ctx).wf(),
            forall|c: &mut Context<T>, h: Hold|
                c.wf() && c@.on_top(h) && h.cell() == self@ && h.kind() is Exclusive
                    ==> call_requires(handler, (c, h)),
            forall|c: &mut Context<T>, h: Hold, r: R|
                c.wf() && call_ensures(handler, (c, h), r) ==> final(c).wf() && final(c)@.since(c@),
        ensures
            final(ctx).wf(),
            final(ctx)@.since(old(ctx)@),
            !old(ctx)@.has(self@ as int) ==> (out matches Err(AccessError::UnexpectedItem) && final(ctx)@ == old(ctx)@),
            old(ctx)@.has(self@ as int) && !(old(ctx)@.states[self@ as int] is Free) ==> (
            out matches Err(AccessError::AlreadyBorrowed) && final(ctx)@ == old(ctx)@),
            old(ctx)@.has(self@ as int) && old(ctx)@.states[self@ as int] is Free ==> out is Ok
                && exists|mid: &mut Context<T>, h: Hold|
                mid@ == old(ctx)@.entered(self@, AccessKind::Exclusive) && mid@.on_top(h)
                    && h.cell() == self@ && h.kind() is Exclusive && #[trigger] call_ensures(
                    handler,
                    (mid, h),
                    out->Ok_0,
                ) && final(ctx)@ == final(mid)@.left(),
    {
        ctx.dispatch(self.id, AccessKind::Exclusive, handler)
    }

    /// Takes a shared hold of the node and lets the handler read its
    /// contents.
    ///
    /// Fails, and calls nobody, if the node is held exclusively and its
    /// holder has not suspended.
    pub fn inspect<T, R, F: FnOnce(&mut Context<T>, Hold) -> R>(
        &self,
        ctx: &mut Context<T>,
        handler: F,
    ) -> (out: Result<R, AccessError>)
        requires
            old(ctx).wf(),
            forall|c: &mut Context<T>, h: Hold|
                c.wf() && c@.on_top(h) && h.cell() == self@ && h.kind() is Shared ==> call_requires(
                    handler,
                    (c, h),
                ),
            forall|c: &mut Context<T>, h: Hold, r: R|
                c.wf() && call_ensures(handler, (c, h), r) ==> final(c).wf() && final(c)@.since(c@),
        ensures
            final(ctx).wf(),
            final(ctx)@.since(old(ctx)@),
            !old(ctx)@.has(self@ as int) ==> (out matches Err(AccessError::UnexpectedItem) && final(ctx)@ == old(ctx)@),
            old(ctx)@.has(self@ as int) && old(ctx)@.states[self@ as int] is Exclusive ==> (
            out matches Err(AccessError::AlreadyBorrowed) && final(ctx)@ == old(ctx)@),
            old(ctx)@.has(self@ as int) && !(old(ctx)@.states[self@ as int] is Exclusive) ==> out is Ok
                && exists|mid: &mut Context<T>, h: Hold|
                mid@ == old(ctx)@.entered(self@, AccessKind::Shared) && mid@.on_top(h) && h.cell()
                    == self@ && h.kind() is Shared && #[trigger] call_ensures(
                    handler,
                    (mid, h),
                    out->Ok_0,
                ) && final(ctx)@ == final(mid)@.left(),
    {
        ctx.dispatch(self.id, AccessKind::Shared, handler)
    }

    /// Returns true if two `Node`s point to the same cell.
    pub fn ptr_eq(this: &Self, other: &Self) -> (r: bool)
        ensures
            r == (this@ == other@),
    {
        this.id == other.id
    }

    /// The index of the node's cell.
    pub fn index(&self) -> (r: usize)
        ensures
            r == self@,
    {
        self.id
    }

    /// The node of the cell with index `cell`.
    pub(crate) fn at(cell: usize) -> (r: Self)
        ensures
            r@ == cell,
    {
        Node { id: cell }
    }
}

/// Suspend a running dispatch.
pub trait Suspend {
    /// The dispatch that the value stands for.
    spec fn named(&self) -> Hold;

    /// Suspend the dispatch and run `runner`, which can then reach the
    /// same node again without violating its holder's exclusive access.
    ///
    /// Only the innermost running dispatch can be suspended: the call
    /// fails, and `runner` is not run, if no dispatch is running or if the
    /// innermost one is another.
    fn suspend<T, R, F: FnOnce(&mut Context<T>) -> R>(
        &mut self,
        ctx: &mut Context<T>,
        runner: F,
    ) -> (out: Result<R, AccessError>)
        requires
            old(ctx).wf(),
            forall|c: &mut Context<T>| c.wf() ==> call_requires(runner, (c,)),
            forall|c: &mut Context<T>, r: R|
                c.wf() && call_ensures(runner, (c,), r) ==> final(c).wf() && final(c)@.since(c@),
        ensures
            final(self).named() == old(self).named(),
            final(ctx).wf(),
            final(ctx)@.since(old(ctx)@),
            old(ctx)@.stack.len() == 0 ==> (out matches Err(AccessError::NotInContext) && final(ctx)@ == old(ctx)@),
            old(ctx)@.stack.len() > 0 && !old(ctx)@.on_top(old(self).named()) ==> (out matches Err(
                AccessError::UnexpectedItem,
            ) && final(ctx)@ == old(ctx)@),
            old(ctx)@.on_top(old(self).named()) ==> out is Ok && exists|mid: &mut Context<T>|
                mid@ == old(ctx)@.paused() && #[trigger] call_ensures(runner, (mid,), out->Ok_0)
                    && final(ctx)@ == final(mid)@.resumed(),
    ;
}

impl Suspend for Hold {
    open spec fn named(&self) -> Hold {
        *self
    }

    fn suspend<T, R, F: FnOnce(&mut Context<T>) -> R>(
        &mut self,
        ctx: &mut Context<T>,
        runner: F,
    ) -> (out: Result<R, AccessError>) {
        ctx.suspend(self, runner)
    }
}

} // verus!
