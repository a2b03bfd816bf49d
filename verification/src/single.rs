//! A container for exactly one node, known to the manager by its name.

use vstd::prelude::*;
use crate::context::{AccessError, AccessKind, Context, Hold};
use crate::mng::{ChannelType, Frame, Manager, SubscribeError};
use crate::node::Node;

verus! {

/// Whether a handler joins the containers or leaves them.
#[derive(Debug, Clone, Copy, PartialEq, Eq)]
pub enum Mode {
    Adding,
    Removing,
}

/// Single slot containing one node.
///
/// It ensures that a single node always exists when it is called, and that
/// no more than a single node is subscribed to it at a time.
pub struct Single {
    name: &'static str,
    node: Option<Node>,
}

impl View for Single {
    type V = Option<usize>;

    closed spec fn view(&self) -> Option<usize> {
        match self.node {
            Some(node) => Some(node@),
            None => None,
        }
    }
}

impl Single {
    /// The name under which the container is declared.
    pub closed spec fn name(&self) -> Seq<char> {
        self.name@
    }

    /// Create a new single object, declared with the manager as a direct
    /// channel.
    ///
    /// `name` is used for error reporting and graph generation in
    /// [`Manager`].
    pub fn new(name: &'static str, manager: &mut Manager) -> (r: Result<Self, SubscribeError>)
        requires
            old(manager).wf(),
        ensures
            final(manager).wf(),
            old(manager)@.declared(name@) ==> (r matches Err(SubscribeError::DuplicateChannelName)
                && final(manager)@ == old(manager)@),
            !old(manager)@.declared(name@) ==> (r matches Ok(single) && single@ is None
                && single.name() == name@ && final(manager)@ == old(manager)@.with_channel(
                name@,
                ChannelType::Direct,
            )),
    {
        match manager.ensure_new(name, ChannelType::Direct) {
            Err(e) => Err(SubscribeError::DuplicateChannelName),
            Ok(()) => Ok(Single { name, node: None }),
        }
    }

    /// Emit a signal on this single.
    ///
    /// Fails, and calls nobody, if no node is subscribed to this single,
    /// and if the node is held already and its holder has not suspended.
    pub fn emit<T, R, F: FnOnce(&mut Context<T>, Hold) -> R>(
        &mut self,
        ctx: &mut Context<T>,
        caller: F,
    ) -> (out: Result<R, AccessError>)
        requires
            old(ctx).wf(),
            forall|c: &mut Context<T>, h: Hold|
                c.wf() && c@.on_top(h) && old(self)@ == Some(h.cell()) && h.kind() is Exclusive
                    ==> call_requires(caller, (c, h)),
            forall|c: &mut Context<T>, h: Hold, r: R|
                c.wf() && call_ensures(caller, (c, h), r) ==> final(c).wf() && final(c)@.since(c@),
        ensures
            final(self)@ == old(self)@,
            final(self).name() == old(self).name(),
            final(ctx).wf(),
            final(ctx)@.since(old(ctx)@),
            old(self)@ is None ==> (out matches Err(AccessError::EmptyRequiredSlot) && final(ctx)@
                == old(ctx)@),
            old(self)@ matches Some(cell) ==> {
                &&& !old(ctx)@.has(cell as int) ==> (out matches Err(AccessError::UnexpectedItem)
                    && final(ctx)@ == old(ctx)@)
                &&& old(ctx)@.has(cell as int) && !(old(ctx)@.states[cell as int] is Free) ==> (
                out matches Err(AccessError::AlreadyBorrowed) && final(ctx)@ == old(ctx)@)
                &&& old(ctx)@.has(cell as int) && old(ctx)@.states[cell as int] is Free ==> out is Ok
                    && exists|mid: &mut Context<T>, h: Hold|
                    mid@ == old(ctx)@.entered(cell, AccessKind::Exclusive) && mid@.on_top(h)
                        && h.cell() == cell && h.kind() is Exclusive && #[trigger] call_ensures(
                        caller,
                        (mid, h),
                        out->Ok_0,
                    ) && final(ctx)@ == final(mid)@.left()
            },
    {
        match self.node {
            Some(node) => ctx.dispatch(node.index(), AccessKind::Exclusive, caller),
            None => Err(AccessError::EmptyRequiredSlot),
        }
    }

    /// Add or remove a node object to this single, for the handler whose
    /// subscription is under way.
    ///
    /// To add is to listen on the container: the manager records it, and
    /// refuses it if the handler listens on it already; then nothing
    /// changes.
    pub fn register(&mut self, manager: &mut Manager, mode: Mode, item: Node) -> (r: Result<
        (),
        SubscribeError,
    >)
        requires
            old(manager).wf(),
            mode is Adding ==> old(manager)@.active.len() > 0 && old(manager)@.declared(old(self).name()) && old(self)@ is None,
            mode is Removing ==> old(self)@ is Some,
        ensures
            final(manager).wf(),
            final(self).name() == old(self).name(),
            mode is Removing ==> r is Ok && final(self)@ is None && final(manager)@ == old(manager)@,
            mode is Adding && old(manager)@.active.last().listens.contains(old(self).name()) ==> (
            r matches Err(SubscribeError::DuplicateDeclaration) && final(self)@ == old(self)@
                && final(manager)@ == old(manager)@),
            mode is Adding && !old(manager)@.active.last().listens.contains(old(self).name()) ==> (
            r is Ok && final(self)@ == Some(item@) && final(manager)@ == old(manager)@.with_top(
                Frame {
                    listens: old(manager)@.active.last().listens.push(old(self).name()),
                    ..old(manager)@.active.last()
                },
            )),
    {
        match mode {
            Mode::Adding => {
                match manager.register_listen(self.name) {
                    Err(e) => Err(SubscribeError::DuplicateDeclaration),
                    Ok(()) => {
                        self.node = Some(item);
                        Ok(())
                    },
                }
            },
            Mode::Removing => {
                self.node = None;
                Ok(())
            },
        }
    }

    /// Records that the handler whose subscription is under way emits into
    /// this single.
    pub fn activate(&self, manager: &mut Manager) -> (r: Result<(), SubscribeError>)
        requires
            old(manager).wf(),
            old(manager)@.active.len() > 0,
            old(manager)@.declared(self.name()),
        ensures
            final(manager).wf(),
            old(manager)@.active.last().emits.contains(self.name()) ==> (r matches Err(
                SubscribeError::DuplicateDeclaration,
            ) && final(manager)@ == old(manager)@),
            !old(manager)@.active.last().emits.contains(self.name()) ==> (r is Ok && final(manager)@ == old(manager)@.with_top(
                Frame {
                    emits: old(manager)@.active.last().emits.push(self.name()),
                    ..old(manager)@.active.last()
                },
            )),
    {
        match manager.register_emit(self.name) {
            Err(e) => Err(SubscribeError::DuplicateDeclaration),
            Ok(()) => Ok(()),
        }
    }
}

} // verus!
