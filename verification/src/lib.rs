//! Synchronous and recursive event system.
//!
//! An event system is a collection of objects that can receive and send
//! signals. Here every object lives in a [`Node`], a handle on one cell of a
//! [`Context`]. The context keeps each payload next to its access state and
//! keeps the stack of the dispatches that are running, so that no payload is
//! ever reached by two handlers that both believe they have it for
//! themselves. A handler that wants to be reached again while it runs gives
//! up its hold for a while with [`Suspend::suspend`].
//!
//! Which handler listens on and emits into which channel is recorded by a
//! [`Manager`], which refuses a subscription that would close a cycle of
//! calls. What it has recorded can be written out by a [`Grapher`].
//!
//! Nodes are gathered in containers: a [`Channel`] or a [`Signal`] for many,
//! a [`Slot`] or a [`Single`] for one.

pub mod channel;
pub mod context;
pub mod feed;
pub mod graph;
pub mod mng;
pub mod node;
pub mod queue;
pub mod rec;
pub mod signal;
pub mod single;
pub mod slot;
pub mod sorting;
pub mod text;
pub mod trace;

pub use channel::Channel;
pub use context::{Access, AccessError, AccessKind, Context, Hold};
pub use graph::Grapher;
pub use mng::{ChannelType, Manager, SubscribeError};
pub use node::{Node, Suspend};
pub use queue::{Receiver, Sender};
pub use rec::{ChainedError, Recursion, RecursionError};
pub use signal::Signal;
pub use single::{Mode, Single};
pub use slot::Slot;
pub use trace::Trace;
