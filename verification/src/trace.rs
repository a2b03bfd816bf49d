//! Tracing: a callback that is told how deep in nested dispatches a call is.

use vstd::prelude::*;
use crate::context::{wrap_sum, Context};

verus! {

/// What a trace reports to: told the indentation of each call.
pub trait Logger {
    /// The indentations that the logger can be told.
    spec fn accepts(&self, indent: usize) -> bool;

    /// What holds once the logger was told an indentation.
    spec fn told(&self, indent: usize) -> bool;

    /// Tells the logger the indentation of a call.
    fn report(&self, indent: usize)
        requires
            self.accepts(indent),
        ensures
            self.told(indent),
    ;
}

impl<F: Fn(usize)> Logger for F {
    open spec fn accepts(&self, indent: usize) -> bool {
        call_requires(*self, (indent,))
    }

    open spec fn told(&self, indent: usize) -> bool {
        call_ensures(*self, (indent,), ())
    }

    fn report(&self, indent: usize) {
        self(indent)
    }
}

/// A tracing hook of a node or of a container.
pub struct Trace {
    logger: Option<Box<dyn Logger>>,
}

impl Trace {
    /// The logger, if there is one, can be told any indentation.
    pub closed spec fn wf(&self) -> bool {
        self.logger matches Some(l) ==> forall|n: usize| l.accepts(n)
    }

    /// The trace has no logger.
    pub closed spec fn silent(&self) -> bool {
        self.logger is None
    }

    /// The trace has a logger, and what holds once that was told `indent`
    /// holds.
    pub closed spec fn reported(&self, indent: usize) -> bool {
        self.logger matches Some(l) && l.told(indent)
    }

    /// A trace that reports to nobody.
    pub fn empty() -> (t: Self)
        ensures
            t.wf(),
            t.silent(),
    {
        Trace { logger: None }
    }

    /// A trace that reports to `handler`.
    pub fn new<F: Fn(usize) + 'static>(handler: F) -> (t: Self)
        requires
            forall|n: usize| call_requires(handler, (n,)),
        ensures
            t.wf(),
            !t.silent(),
            forall|n: usize| #[trigger] t.reported(n) <==> call_ensures(handler, (n,), ()),
    {
        Trace { logger: Some(Box::new(handler)) }
    }

    /// Reports the indentation at which the context stands: the number of
    /// dispatches that are running, plus one for each container that is
    /// emitting.
    pub fn log<T>(&self, ctx: &Context<T>)
        requires
            self.wf(),
        ensures
            !self.silent() ==> self.reported(wrap_sum(ctx@.stack.len() as usize, ctx@.bump)),
    {
        match &self.logger {
            Some(l) => l.report(ctx.indentation()),
            None => {},
        }
    }

    /// Indents what follows by one more: a container starts to emit.
    pub fn indent<T>(ctx: &mut Context<T>)
        requires
            old(ctx).wf(),
        ensures
            final(ctx).wf(),
            final(ctx)@ == old(ctx)@.indented(),
    {
        ctx.shift(true);
    }

    /// Takes back one indentation: a container has emitted.
    pub fn dedent<T>(ctx: &mut Context<T>)
        requires
            old(ctx).wf(),
        ensures
            final(ctx).wf(),
            final(ctx)@ == old(ctx)@.dedented(),
    {
        ctx.shift(false);
    }
}

} // verus!
