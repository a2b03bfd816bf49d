//! The context: every payload in a cell with its access state, and the
//! stack of the dispatches that are running.

use vstd::prelude::*;
use crate::trace::Trace;

verus! {

/// Who has access to a cell's payload.
#[derive(Debug, Clone, Copy, PartialEq, Eq)]
pub enum Access {
    /// Nobody.
    Free,
    /// One dispatch, which may change the payload.
    Exclusive,
    /// So many dispatches, which may read it.
    Shared(usize),
}

/// The access that a dispatch asks for.
#[derive(Debug, Clone, Copy, PartialEq, Eq)]
pub enum AccessKind {
    Exclusive,
    Shared,
}

/// Why a dispatch or a suspension was refused.
#[derive(Debug, Clone, Copy, PartialEq, Eq)]
pub enum AccessError {
    /// The cell is held in a way that does not go with the access asked for.
    AlreadyBorrowed,
    /// No dispatch is running.
    NotInContext,
    /// The innermost running dispatch is not the one that was named.
    UnexpectedItem,
    /// A slot that must hold a node holds none.
    EmptyRequiredSlot,
}

/// One running dispatch: the cell it is on, the access it has, and whether
/// it has given up its hold for a while.
#[derive(Debug, Clone, Copy, PartialEq, Eq)]
pub struct Entry {
    pub cell: usize,
    pub kind: AccessKind,
    pub paused: bool,
}

/// How many dispatches of `kind` hold `cell`: those on the stack that have
/// not given up their hold.
pub open spec fn held(stack: Seq<Entry>, cell: int, kind: AccessKind) -> nat
    decreases stack.len(),
{
    if stack.len() == 0 {
        0
    } else {
        let e = stack.last();
        held(stack.drop_last(), cell, kind) + if e.cell == cell && e.kind == kind && !e.paused {
            1nat
        } else {
            0nat
        }
    }
}

/// The access state that the stack gives a cell.
pub open spec fn access_of(stack: Seq<Entry>, cell: int) -> Access {
    if held(stack, cell, AccessKind::Exclusive) > 0 {
        Access::Exclusive
    } else if held(stack, cell, AccessKind::Shared) > 0 {
        Access::Shared(held(stack, cell, AccessKind::Shared) as usize)
    } else {
        Access::Free
    }
}

/// No two exclusive holds of a cell overlap, and none overlaps a shared one.
pub open spec fn sound(stack: Seq<Entry>, cell: int) -> bool {
    held(stack, cell, AccessKind::Exclusive) == 0 || (held(stack, cell, AccessKind::Exclusive) == 1
        && held(stack, cell, AccessKind::Shared) == 0)
}

/// One more entry counts for its own cell and kind, if it holds, and for
/// nothing else.
pub proof fn lemma_held_push(stack: Seq<Entry>, e: Entry, cell: int, kind: AccessKind)
    ensures
        held(stack.push(e), cell, kind) == held(stack, cell, kind) + if e.cell == cell && e.kind
            == kind && !e.paused {
            1nat
        } else {
            0nat
        },
{
    assert(stack.push(e).drop_last() =~= stack);
}

/// No more dispatches hold a cell than are running.
pub proof fn lemma_held_bound(stack: Seq<Entry>, cell: int)
    ensures
        held(stack, cell, AccessKind::Exclusive) + held(stack, cell, AccessKind::Shared)
            <= stack.len(),
    decreases stack.len(),
{
    if stack.len() > 0 {
        lemma_held_bound(stack.drop_last(), cell);
    }
}

/// A cell that no entry is on is held by nobody.
pub proof fn lemma_held_none(stack: Seq<Entry>, cell: int)
    requires
        forall|i: int| 0 <= i < stack.len() ==> (#[trigger] stack[i]).cell != cell,
    ensures
        held(stack, cell, AccessKind::Exclusive) == 0,
        held(stack, cell, AccessKind::Shared) == 0,
    decreases stack.len(),
{
    if stack.len() > 0 {
        assert(stack[stack.len() - 1].cell != cell);
        assert forall|i: int| 0 <= i < stack.drop_last().len() implies (
        #[trigger] stack.drop_last()[i]).cell != cell by {
            assert(stack.drop_last()[i] == stack[i]);
        }
        lemma_held_none(stack.drop_last(), cell);
    }
}

/// The index after `n`, turning round at the limit.
pub open spec fn wrap_next(n: usize) -> usize {
    if n == usize::MAX {
        0
    } else {
        (n + 1) as usize
    }
}

/// The index before `n`, turning round at zero.
pub open spec fn wrap_prev(n: usize) -> usize {
    if n == 0 {
        usize::MAX
    } else {
        (n - 1) as usize
    }
}

/// The sum of `a` and `b`, turning round at the limit.
pub open spec fn wrap_sum(a: usize, b: usize) -> usize {
    if a + b > usize::MAX {
        (a + b - usize::MAX - 1) as usize
    } else {
        (a + b) as usize
    }
}

/// A context as contracts see it.
pub struct Scene<T> {
    /// The access state of each cell.
    pub states: Seq<Access>,
    /// The payload of each cell.
    pub items: Seq<T>,
    /// The running dispatches, the innermost last.
    pub stack: Seq<Entry>,
    /// How many containers are emitting.
    pub bump: usize,
}

impl<T> Scene<T> {
    /// Every entry is on a cell of the context, and each cell is in the
    /// state that the stack gives it: exclusive holds overlap with nothing.
    pub open spec fn wf(self) -> bool {
        &&& self.states.len() == self.items.len()
        &&& self.stack.len() <= usize::MAX
        &&& forall|i: int|
            0 <= i < self.stack.len() ==> (#[trigger] self.stack[i]).cell < self.states.len()
        &&& forall|c: int|
            0 <= c < self.states.len() ==> #[trigger] self.states[c] == access_of(self.stack, c)
                && sound(self.stack, c)
    }

    /// The context has a cell `cell`.
    pub open spec fn has(self, cell: int) -> bool {
        0 <= cell < self.states.len()
    }

    /// A dispatch of `kind` may start on `cell`.
    pub open spec fn compatible(self, cell: int, kind: AccessKind) -> bool {
        match (self.states[cell], kind) {
            (Access::Free, _) => true,
            (Access::Shared(_), AccessKind::Shared) => true,
            _ => false,
        }
    }

    /// The context with another stack, and `cell` in the state that it
    /// gives.
    pub open spec fn with_stack(self, stack: Seq<Entry>, cell: int) -> Scene<T> {
        Scene {
            states: self.states.update(cell, access_of(stack, cell)),
            items: self.items,
            stack,
            bump: self.bump,
        }
    }

    /// After a dispatch of `kind` started on `cell`.
    pub open spec fn entered(self, cell: usize, kind: AccessKind) -> Scene<T> {
        self.with_stack(self.stack.push(Entry { cell, kind, paused: false }), cell as int)
    }

    /// After the innermost dispatch ended.
    pub open spec fn left(self) -> Scene<T> {
        self.with_stack(self.stack.drop_last(), self.stack.last().cell as int)
    }

    /// After the innermost dispatch gave up its hold.
    pub open spec fn paused(self) -> Scene<T> {
        let top = self.stack.last();
        self.with_stack(
            self.stack.drop_last().push(Entry { cell: top.cell, kind: top.kind, paused: true }),
            top.cell as int,
        )
    }

    /// After the innermost dispatch took its hold back.
    pub open spec fn resumed(self) -> Scene<T> {
        let top = self.stack.last();
        self.with_stack(
            self.stack.drop_last().push(Entry { cell: top.cell, kind: top.kind, paused: false }),
            top.cell as int,
        )
    }

    /// With one more cell, free and holding `item`.
    pub open spec fn grown(self, item: T) -> Scene<T> {
        Scene {
            states: self.states.push(Access::Free),
            items: self.items.push(item),
            stack: self.stack,
            bump: self.bump,
        }
    }

    /// With one more container emitting.
    pub open spec fn indented(self) -> Scene<T> {
        Scene {
            states: self.states,
            items: self.items,
            stack: self.stack,
            bump: wrap_next(self.bump),
        }
    }

    /// With one container less emitting.
    pub open spec fn dedented(self) -> Scene<T> {
        Scene {
            states: self.states,
            items: self.items,
            stack: self.stack,
            bump: wrap_prev(self.bump),
        }
    }

    /// The same dispatches are running as in `before`, and no cell is gone.
    pub open spec fn since(self, before: Scene<T>) -> bool {
        &&& self.stack == before.stack
        &&& self.bump == before.bump
        &&& self.states.len() >= before.states.len()
    }

    /// `hold` names the innermost dispatch, and that holds its cell.
    pub open spec fn on_top(self, hold: Hold) -> bool {
        &&& self.stack.len() > 0
        &&& hold.depth() == self.stack.len() - 1
        &&& self.stack.last() == Entry { cell: hold.cell(), kind: hold.kind(), paused: false }
    }

    /// `hold` names a running dispatch that holds its cell.
    pub open spec fn live(self, hold: Hold) -> bool {
        &&& hold.depth() < self.stack.len()
        &&& self.stack[hold.depth() as int] == Entry {
            cell: hold.cell(),
            kind: hold.kind(),
            paused: false,
        }
    }
}

/// An entered dispatch leaves the context in order.
pub proof fn lemma_entered<T>(s: Scene<T>, cell: usize, kind: AccessKind)
    requires
        s.wf(),
        s.has(cell as int),
        s.compatible(cell as int, kind),
        s.stack.len() < usize::MAX,
    ensures
        s.entered(cell, kind).wf(),
        s.entered(cell, kind).states[cell as int] == match kind {
            AccessKind::Exclusive => Access::Exclusive,
            AccessKind::Shared => match s.states[cell as int] {
                Access::Shared(n) => Access::Shared((n + 1) as usize),
                _ => Access::Shared(1),
            },
        },
        s.states[cell as int] matches Access::Shared(n) ==> n < usize::MAX,
{
    let e = Entry { cell, kind, paused: false };
    let next = s.entered(cell, kind);
    lemma_held_bound(s.stack, cell as int);
    lemma_held_bound(next.stack, cell as int);
    assert(s.states[cell as int] == access_of(s.stack, cell as int));
    assert forall|c: int| 0 <= c < next.states.len() implies #[trigger] next.states[c]
        == access_of(next.stack, c) && sound(next.stack, c) by {
        lemma_held_push(s.stack, e, c, AccessKind::Exclusive);
        lemma_held_push(s.stack, e, c, AccessKind::Shared);
        lemma_held_bound(s.stack, c);
        assert(s.states[c] == access_of(s.stack, c));
    }
    lemma_held_push(s.stack, e, cell as int, AccessKind::Exclusive);
    lemma_held_push(s.stack, e, cell as int, AccessKind::Shared);
    assert forall|i: int| 0 <= i < next.stack.len() implies (#[trigger] next.stack[i]).cell
        < next.states.len() by {
        if i < s.stack.len() {
            assert(next.stack[i] == s.stack[i]);
        }
    }
}

/// The end of the innermost dispatch, if it holds its cell, undoes its
/// start.
pub proof fn lemma_left<T>(s: Scene<T>)
    requires
        s.wf(),
        s.stack.len() > 0,
    ensures
        s.left().wf(),
{
    let top = s.stack.last();
    let rest = s.stack.drop_last();
    let next = s.left();
    assert(s.stack =~= rest.push(top));
    assert forall|c: int| 0 <= c < next.states.len() implies #[trigger] next.states[c]
        == access_of(next.stack, c) && sound(next.stack, c) by {
        lemma_held_push(rest, top, c, AccessKind::Exclusive);
        lemma_held_push(rest, top, c, AccessKind::Shared);
        assert(s.states[c] == access_of(s.stack, c));
    }
    assert forall|i: int| 0 <= i < next.stack.len() implies (#[trigger] next.stack[i]).cell
        < next.states.len() by {
        assert(next.stack[i] == s.stack[i]);
    }
}

/// A start that is undone leaves the context as it was.
pub proof fn lemma_entered_left<T>(s: Scene<T>, cell: usize, kind: AccessKind)
    requires
        s.wf(),
        s.has(cell as int),
    ensures
        s.entered(cell, kind).left() == s,
{
    let e = Entry { cell, kind, paused: false };
    let mid = s.entered(cell, kind);
    assert(mid.stack.drop_last() =~= s.stack);
    assert(s.states[cell as int] == access_of(s.stack, cell as int));
    assert(mid.left().states =~= s.states);
}

/// Giving up the hold of the innermost dispatch leaves the context in
/// order, and its cell as it was before the dispatch started.
pub proof fn lemma_paused<T>(s: Scene<T>)
    requires
        s.wf(),
        s.stack.len() > 0,
    ensures
        s.paused().wf(),
        s.paused().stack.len() == s.stack.len(),
        !s.stack.last().paused ==> s.paused().compatible(
            s.stack.last().cell as int,
            s.stack.last().kind,
        ),
{
    let top = s.stack.last();
    let rest = s.stack.drop_last();
    let quiet = Entry { cell: top.cell, kind: top.kind, paused: true };
    let next = s.paused();
    assert(s.stack =~= rest.push(top));
    assert forall|c: int| 0 <= c < next.states.len() implies #[trigger] next.states[c]
        == access_of(next.stack, c) && sound(next.stack, c) by {
        lemma_held_push(rest, top, c, AccessKind::Exclusive);
        lemma_held_push(rest, top, c, AccessKind::Shared);
        lemma_held_push(rest, quiet, c, AccessKind::Exclusive);
        lemma_held_push(rest, quiet, c, AccessKind::Shared);
        assert(s.states[c] == access_of(s.stack, c));
    }
    assert forall|i: int| 0 <= i < next.stack.len() implies (#[trigger] next.stack[i]).cell
        < next.states.len() by {
        if i < rest.len() {
            assert(next.stack[i] == s.stack[i]);
        } else {
            assert(s.stack[i] == top);
        }
    }
    let c = top.cell as int;
    assert(s.stack[s.stack.len() - 1] == top);
    lemma_held_push(rest, top, c, AccessKind::Exclusive);
    lemma_held_push(rest, top, c, AccessKind::Shared);
    lemma_held_push(rest, quiet, c, AccessKind::Exclusive);
    lemma_held_push(rest, quiet, c, AccessKind::Shared);
    assert(s.states[c] == access_of(s.stack, c));
}

/// Taking back the hold of the innermost dispatch leaves the context in
/// order, where its cell can be held so.
pub proof fn lemma_resumed<T>(s: Scene<T>)
    requires
        s.wf(),
        s.stack.len() > 0,
        s.stack.last().paused,
        s.compatible(s.stack.last().cell as int, s.stack.last().kind),
    ensures
        s.resumed().wf(),
        s.resumed().states[s.stack.last().cell as int] == match s.stack.last().kind {
            AccessKind::Exclusive => Access::Exclusive,
            AccessKind::Shared => match s.states[s.stack.last().cell as int] {
                Access::Shared(n) => Access::Shared((n + 1) as usize),
                _ => Access::Shared(1),
            },
        },
        s.states[s.stack.last().cell as int] matches Access::Shared(n) ==> n < usize::MAX,
{
    let top = s.stack.last();
    let rest = s.stack.drop_last();
    let loud = Entry { cell: top.cell, kind: top.kind, paused: false };
    let next = s.resumed();
    let cell = top.cell as int;
    assert(s.stack =~= rest.push(top));
    assert(s.stack[s.stack.len() - 1] == top);
    lemma_held_bound(rest, cell);
    lemma_held_bound(s.stack, cell);
    lemma_held_bound(next.stack, cell);
    assert forall|c: int| 0 <= c < next.states.len() implies #[trigger] next.states[c]
        == access_of(next.stack, c) && sound(next.stack, c) by {
        lemma_held_push(rest, top, c, AccessKind::Exclusive);
        lemma_held_push(rest, top, c, AccessKind::Shared);
        lemma_held_push(rest, loud, c, AccessKind::Exclusive);
        lemma_held_push(rest, loud, c, AccessKind::Shared);
        assert(s.states[c] == access_of(s.stack, c));
    }
    lemma_held_push(rest, top, cell, AccessKind::Exclusive);
    lemma_held_push(rest, top, cell, AccessKind::Shared);
    lemma_held_push(rest, loud, cell, AccessKind::Exclusive);
    lemma_held_push(rest, loud, cell, AccessKind::Shared);
    assert(s.states[cell] == access_of(s.stack, cell));
    assert forall|i: int| 0 <= i < next.stack.len() implies (#[trigger] next.stack[i]).cell
        < next.states.len() by {
        if i < rest.len() {
            assert(next.stack[i] == s.stack[i]);
        }
    }
}

/// A hold that is given up and taken back leaves the context as it was.
pub proof fn lemma_paused_resumed<T>(s: Scene<T>)
    requires
        s.wf(),
        s.stack.len() > 0,
        !s.stack.last().paused,
    ensures
        s.paused().resumed() == s,
{
    let top = s.stack.last();
    let cell = top.cell as int;
    let back = s.paused().resumed();
    assert(s.stack[s.stack.len() - 1] == top);
    assert(back.stack =~= s.stack);
    assert(s.states[cell] == access_of(s.stack, cell));
    assert(back.states =~= s.states);
}

/// What a dispatch hands its handler: it names the dispatch, and is needed
/// to reach the payload and to suspend.
pub struct Hold {
    cell: usize,
    depth: usize,
    kind: AccessKind,
}

impl Hold {
    /// The cell that the dispatch is on.
    pub closed spec fn cell(&self) -> usize {
        self.cell
    }

    /// The place of the dispatch on the stack.
    pub closed spec fn depth(&self) -> usize {
        self.depth
    }

    /// The access that the dispatch has.
    pub closed spec fn kind(&self) -> AccessKind {
        self.kind
    }
}

/// A cell: a payload, its access state and its trace.
struct NodeCell<T> {
    state: Access,
    item: T,
    trace: Trace,
}

/// Holds the payload of every node next to its access state, and the stack
/// of the dispatches that are running.
pub struct Context<T> {
    cells: Vec<NodeCell<T>>,
    stack: Vec<Entry>,
    bump: usize,
}

impl<T> View for Context<T> {
    type V = Scene<T>;

    closed spec fn view(&self) -> Scene<T> {
        scene_of(self.cells@, self.stack@, self.bump)
    }
}

/// The context that cells, a stack and a count of emitting containers make.
spec fn scene_of<T>(cells: Seq<NodeCell<T>>, stack: Seq<Entry>, bump: usize) -> Scene<T> {
    Scene {
        states: cells.map_values(|c: NodeCell<T>| c.state),
        items: cells.map_values(|c: NodeCell<T>| c.item),
        stack,
        bump,
    }
}

/// Another payload in one cell changes that payload and nothing else.
proof fn lemma_item_changed<T>(
    cells: Seq<NodeCell<T>>,
    stack: Seq<Entry>,
    bump: usize,
    at: int,
    v: NodeCell<T>,
)
    requires
        0 <= at < cells.len(),
        v.state == cells[at].state,
        v.trace == cells[at].trace,
    ensures
        scene_of(cells.update(at, v), stack, bump) == (Scene {
            items: scene_of(cells, stack, bump).items.update(at, v.item),
            ..scene_of(cells, stack, bump)
        }),
        forall|i: int|
            0 <= i < cells.len() ==> (#[trigger] cells.update(at, v)[i]).trace == cells[i].trace,
{
    let next = scene_of(cells.update(at, v), stack, bump);
    let prev = scene_of(cells, stack, bump);
    assert(next.states =~= prev.states);
    assert(next.items =~= prev.items.update(at, v.item));
}

/// Whether access `value` is a hold.
pub fn is_borrowed(value: &Access) -> (r: bool)
    ensures
        r == !(*value is Free),
{
    match value {
        Access::Free => false,
        _ => true,
    }
}

/// Takes the exclusive hold of a free cell.
pub fn borrow_mut(value: &mut Access)
    requires
        *old(value) is Free,
    ensures
        *final(value) is Exclusive,
{
    *value = Access::Exclusive;
}

/// Gives back the exclusive hold.
pub fn unborrow_mut(value: &mut Access)
    requires
        *old(value) is Exclusive,
    ensures
        *final(value) is Free,
{
    *value = Access::Free;
}

/// Takes one more shared hold of a cell that is free or shared.
pub fn borrow(value: &mut Access)
    requires
        match *old(value) {
            Access::Free => true,
            Access::Shared(n) => n < usize::MAX,
            Access::Exclusive => false,
        },
    ensures
        *final(value) == match *old(value) {
            Access::Shared(n) => Access::Shared((n + 1) as usize),
            _ => Access::Shared(1),
        },
{
    let next = match value {
        Access::Shared(n) => Access::Shared(*n + 1),
        _ => Access::Shared(1),
    };
    *value = next;
}

/// Gives back one shared hold.
pub fn unborrow(value: &mut Access)
    requires
        *old(value) matches Access::Shared(n) && n > 0,
    ensures
        *final(value) == match *old(value) {
            Access::Shared(n) if n > 1 => Access::Shared((n - 1) as usize),
            _ => Access::Free,
        },
{
    let next = match value {
        Access::Shared(n) => if *n > 1 {
            Access::Shared(*n - 1)
        } else {
            Access::Free
        },
        _ => Access::Free,
    };
    *value = next;
}

impl<T> Context<T> {
    /// What holds of a context at all times.
    pub closed spec fn wf(&self) -> bool {
        &&& self@.wf()
        &&& forall|i: int| 0 <= i < self.cells@.len() ==> (#[trigger] self.cells@[i]).trace.wf()
    }

    /// A context without nodes.
    pub fn new() -> (r: Self)
        ensures
            r.wf(),
            r@ == (Scene::<T> {
                states: Seq::empty(),
                items: Seq::empty(),
                stack: Seq::empty(),
                bump: 0,
            }),
    {
        let r = Context { cells: Vec::new(), stack: Vec::new(), bump: 0 };
        proof {
            assert(r@.states =~= Seq::empty());
            assert(r@.items =~= Seq::empty());
        }
        r
    }

    /// The number of nodes.
    pub fn len(&self) -> (r: usize)
        ensures
            r == self@.states.len(),
    {
        self.cells.len()
    }

    /// The number of dispatches that are running.
    pub fn depth(&self) -> (r: usize)
        ensures
            r == self@.stack.len(),
    {
        self.stack.len()
    }

    /// The indentation of a call made now: the number of running dispatches
    /// plus the number of emitting containers, turning round at the limit.
    pub fn indentation(&self) -> (r: usize)
        ensures
            r == wrap_sum(self@.stack.len() as usize, self@.bump),
    {
        let depth = self.stack.len();
        if depth > usize::MAX - self.bump {
            depth - (usize::MAX - self.bump) - 1
        } else {
            depth + self.bump
        }
    }

    /// The access state of a cell.
    pub fn access(&self, cell: usize) -> (r: Option<Access>)
        ensures
            r == if self@.has(cell as int) {
                Some(self@.states[cell as int])
            } else {
                None
            },
    {
        if cell < self.cells.len() {
            Some(self.cells[cell].state)
        } else {
            None
        }
    }

    /// The payload of a cell, for reading where nobody can hold the cell
    /// for itself alone.
    pub(crate) fn peek(&self, cell: usize) -> (r: &T)
        requires
            self@.has(cell as int),
            self@.states.len() == self@.items.len(),
        ensures
            *r == self@.items[cell as int],
    {
        &self.cells[cell].item
    }

    /// Adds a cell that holds `item`, and gives its index.
    pub(crate) fn adopt(&mut self, item: T, trace: Trace) -> (cell: usize)
        requires
            old(self).wf(),
            trace.wf(),
        ensures
            final(self).wf(),
            cell == old(self)@.states.len(),
            final(self)@ == old(self)@.grown(item),
    {
        let ghost before = self@;
        let cell = self.cells.len();
        self.cells.push(NodeCell { state: Access::Free, item, trace });
        proof {
            let next = self@;
            assert(next.states =~= before.states.push(Access::Free));
            assert(next.items =~= before.items.push(item));
            lemma_held_none(before.stack, cell as int);
            assert forall|c: int| 0 <= c < next.states.len() implies #[trigger] next.states[c]
                == access_of(next.stack, c) && sound(next.stack, c) by {
                if c < before.states.len() {
                    assert(before.states[c] == access_of(before.stack, c));
                }
            }
            assert forall|i: int| 0 <= i < next.stack.len() implies (#[trigger] next.stack[i]).cell
                < next.states.len() by {
                assert(before.stack[i].cell < before.states.len());
            }
        }
        cell
    }

    /// Tells the trace of a cell where the context stands.
    pub(crate) fn trace(&self, cell: usize)
        requires
            self.wf(),
    {
        if cell < self.cells.len() {
            self.cells[cell].trace.log(self);
        }
    }

    /// Starts a dispatch of `kind` on `cell`, where the cell can be held so.
    pub(crate) fn enter(&mut self, cell: usize, kind: AccessKind) -> (r: Result<Hold, AccessError>)
        requires
            old(self).wf(),
        ensures
            final(self).wf(),
            !old(self)@.has(cell as int) ==> (r matches Err(AccessError::UnexpectedItem) && final(self)@ == old(self)@),
            old(self)@.has(cell as int) && !old(self)@.compatible(cell as int, kind) ==> (r matches Err(
                AccessError::AlreadyBorrowed,
            ) && final(self)@ == old(self)@),
            old(self)@.has(cell as int) && old(self)@.compatible(cell as int, kind) ==> (r matches Ok(
                h,
            ) && h.cell() == cell && h.kind() == kind && final(self)@.on_top(h) && final(self)@
                == old(self)@.entered(cell, kind)),
    {
        let ghost before = self@;
        if cell >= self.cells.len() {
            return Err(AccessError::UnexpectedItem);
        }
        match (self.cells[cell].state, kind) {
            (Access::Free, _) => {},
            (Access::Shared(_), AccessKind::Shared) => {},
            _ => {
                return Err(AccessError::AlreadyBorrowed);
            },
        }
        let depth = self.stack.len();
        self.stack.push(Entry { cell, kind, paused: false });
        let grown = self.stack.len();
        proof {
            assert(before.stack.len() + 1 == grown);
            lemma_entered(before, cell, kind);
        }
        let mut state = self.cells[cell].state;
        match kind {
            AccessKind::Exclusive => borrow_mut(&mut state),
            AccessKind::Shared => borrow(&mut state),
        }
        self.set_state(cell, state);
        proof {
            assert(self@.states =~= before.entered(cell, kind).states);
        }
        Ok(Hold { cell, depth, kind })
    }

    /// Puts a cell in another state.
    fn set_state(&mut self, cell: usize, state: Access)
        requires
            cell < old(self).cells@.len(),
        ensures
            final(self)@.states == old(self)@.states.update(cell as int, state),
            final(self)@.items == old(self)@.items,
            final(self)@.stack == old(self)@.stack,
            final(self)@.bump == old(self)@.bump,
            final(self).cells@.len() == old(self).cells@.len(),
            forall|i: int|
                0 <= i < old(self).cells@.len() ==> (#[trigger] final(self).cells@[i]).trace == old(self).cells@[i].trace,
    {
        let ghost before = self.cells@;
        let slot = &mut self.cells[cell];
        slot.state = state;
        proof {
            assert(self@.states =~= old(self)@.states.update(cell as int, state));
            assert(self@.items =~= old(self)@.items);
        }
    }

    /// Ends the innermost dispatch.
    pub(crate) fn leave(&mut self)
        requires
            old(self).wf(),
            old(self)@.stack.len() > 0,
        ensures
            final(self).wf(),
            final(self)@ == old(self)@.left(),
    {
        let ghost before = self@;
        let top = self.stack.pop().unwrap();
        proof {
            lemma_left(before);
            assert(self.stack@ =~= before.stack.drop_last());
            assert(before.stack[before.stack.len() - 1] == top);
            lemma_held_push(before.stack.drop_last(), top, top.cell as int, AccessKind::Exclusive);
            lemma_held_push(before.stack.drop_last(), top, top.cell as int, AccessKind::Shared);
            assert(before.stack =~= before.stack.drop_last().push(top));
            assert(before.states[top.cell as int] == access_of(before.stack, top.cell as int));
            lemma_held_bound(before.stack, top.cell as int);
        }
        if !top.paused {
            let mut state = self.cells[top.cell].state;
            match top.kind {
                AccessKind::Exclusive => unborrow_mut(&mut state),
                AccessKind::Shared => unborrow(&mut state),
            }
            self.set_state(top.cell, state);
        }
        proof {
            assert(self@.states =~= before.left().states);
        }
    }

    /// Lets the innermost dispatch, which `hold` must name, give up its
    /// hold.
    pub(crate) fn pause(&mut self, hold: &Hold) -> (r: Result<(), AccessError>)
        requires
            old(self).wf(),
        ensures
            final(self).wf(),
            old(self)@.stack.len() == 0 ==> (r matches Err(AccessError::NotInContext) && final(self)@ == old(self)@),
            old(self)@.stack.len() > 0 && !old(self)@.on_top(*hold) ==> (r matches Err(
                AccessError::UnexpectedItem,
            ) && final(self)@ == old(self)@),
            old(self)@.on_top(*hold) ==> r is Ok && final(self)@ == old(self)@.paused(),
    {
        let ghost before = self@;
        let n = self.stack.len();
        if n == 0 {
            return Err(AccessError::NotInContext);
        }
        let top = self.stack[n - 1];
        let same_kind = match (top.kind, hold.kind) {
            (AccessKind::Exclusive, AccessKind::Exclusive) => true,
            (AccessKind::Shared, AccessKind::Shared) => true,
            _ => false,
        };
        if hold.depth != n - 1 || top.cell != hold.cell || !same_kind || top.paused {
            return Err(AccessError::UnexpectedItem);
        }
        self.stack.pop();
        self.stack.push(Entry { cell: top.cell, kind: top.kind, paused: true });
        proof {
            let quiet = Entry { cell: top.cell, kind: top.kind, paused: true };
            lemma_paused(before);
            assert(self.stack@ =~= before.paused().stack);
            assert(before.stack =~= before.stack.drop_last().push(top));
            lemma_held_push(before.stack.drop_last(), top, top.cell as int, AccessKind::Exclusive);
            lemma_held_push(before.stack.drop_last(), top, top.cell as int, AccessKind::Shared);
            lemma_held_push(before.stack.drop_last(), quiet, top.cell as int, AccessKind::Exclusive);
            lemma_held_push(before.stack.drop_last(), quiet, top.cell as int, AccessKind::Shared);
            assert(before.states[top.cell as int] == access_of(before.stack, top.cell as int));
            lemma_held_bound(before.stack, top.cell as int);
        }
        let mut state = self.cells[top.cell].state;
        match top.kind {
            AccessKind::Exclusive => unborrow_mut(&mut state),
            AccessKind::Shared => unborrow(&mut state),
        }
        self.set_state(top.cell, state);
        proof {
            assert(self@.states =~= before.paused().states);
        }
        Ok(())
    }

    /// Lets the innermost dispatch, which has given up its hold, take it
    /// back.
    pub(crate) fn resume(&mut self)
        requires
            old(self).wf(),
            old(self)@.stack.len() > 0,
            old(self)@.stack.last().paused,
            old(self)@.compatible(
                old(self)@.stack.last().cell as int,
                old(self)@.stack.last().kind,
            ),
        ensures
            final(self).wf(),
            final(self)@ == old(self)@.resumed(),
    {
        let ghost before = self@;
        let top = self.stack.pop().unwrap();
        self.stack.push(Entry { cell: top.cell, kind: top.kind, paused: false });
        proof {
            lemma_resumed(before);
            assert(self.stack@ =~= before.resumed().stack);
        }
        let mut state = self.cells[top.cell].state;
        match top.kind {
            AccessKind::Exclusive => borrow_mut(&mut state),
            AccessKind::Shared => borrow(&mut state),
        }
        self.set_state(top.cell, state);
        proof {
            assert(self@.states =~= before.resumed().states);
        }
    }

    /// Whether `hold` names a running dispatch that holds its cell.
    fn check(&self, hold: &Hold) -> (r: Result<(), AccessError>)
        requires
            self.wf(),
        ensures
            self@.stack.len() == 0 ==> (r matches Err(AccessError::NotInContext)),
            self@.stack.len() > 0 && !self@.live(*hold) ==> (r matches Err(
                AccessError::UnexpectedItem,
            )),
            self@.live(*hold) ==> r is Ok && self@.has(hold.cell() as int),
    {
        if self.stack.len() == 0 {
            return Err(AccessError::NotInContext);
        }
        if hold.depth >= self.stack.len() {
            return Err(AccessError::UnexpectedItem);
        }
        let entry = self.stack[hold.depth];
        let same_kind = match (entry.kind, hold.kind) {
            (AccessKind::Exclusive, AccessKind::Exclusive) => true,
            (AccessKind::Shared, AccessKind::Shared) => true,
            _ => false,
        };
        if entry.cell != hold.cell || !same_kind || entry.paused {
            return Err(AccessError::UnexpectedItem);
        }
        Ok(())
    }

    /// The payload that a running dispatch holds.
    pub fn get(&self, hold: &Hold) -> (r: Result<&T, AccessError>)
        requires
            self.wf(),
        ensures
            self@.stack.len() == 0 ==> (r matches Err(AccessError::NotInContext)),
            self@.stack.len() > 0 && !self@.live(*hold) ==> (r matches Err(
                AccessError::UnexpectedItem,
            )),
            self@.live(*hold) ==> (r matches Ok(item) && *item == self@.items[hold.cell() as int]),
    {
        match self.check(hold) {
            Err(e) => Err(e),
            Ok(()) => Ok(&self.cells[hold.cell].item),
        }
    }

    /// The payload that a running dispatch holds for itself alone, to be
    /// changed.
    pub fn get_mut(&mut self, hold: &Hold) -> (r: Result<&mut T, AccessError>)
        requires
            old(self).wf(),
        ensures
            final(self).wf(),
            old(self)@.stack.len() == 0 ==> (r matches Err(AccessError::NotInContext) && final(self)@ == old(self)@),
            old(self)@.stack.len() > 0 && !old(self)@.live(*hold) ==> (r matches Err(
                AccessError::UnexpectedItem,
            ) && final(self)@ == old(self)@),
            old(self)@.live(*hold) && hold.kind() is Shared ==> (r matches Err(
                AccessError::AlreadyBorrowed,
            ) && final(self)@ == old(self)@),
            old(self)@.live(*hold) && hold.kind() is Exclusive ==> (r matches Ok(item) && *item
                == old(self)@.items[hold.cell() as int] && final(self)@ == (Scene {
                items: old(self)@.items.update(hold.cell() as int, *final(item)),
                ..old(self)@
            })),
    {
        match self.check(hold) {
            Err(e) => {
                return Err(e);
            },
            Ok(()) => {},
        }
        match hold.kind {
            AccessKind::Shared => {
                return Err(AccessError::AlreadyBorrowed);
            },
            AccessKind::Exclusive => {},
        }
        proof {
            let cells = self.cells@;
            let stack = self.stack@;
            let bump = self.bump;
            let at = hold.cell as int;
            assert forall|v: NodeCell<T>|
                v.state == cells[at].state && v.trace == cells[at].trace implies #[trigger] scene_of(
                cells.update(at, v),
                stack,
                bump,
            ) == (Scene {
                items: scene_of(cells, stack, bump).items.update(at, v.item),
                ..scene_of(cells, stack, bump)
            }) && forall|i: int|
                0 <= i < cells.len() ==> (#[trigger] cells.update(at, v)[i]).trace.wf() by {
                lemma_item_changed(cells, stack, bump, at, v);
            }
        }
        let slot = &mut self.cells[hold.cell];
        Ok(&mut slot.item)
    }

    /// A context that is in order shows so to contracts.
    pub proof fn lemma_wf(&self)
        requires
            self.wf(),
        ensures
            self@.wf(),
    {
    }

    /// Dispatches to `cell`: takes the hold of `kind`, calls the handler
    /// with the hold, and gives the hold back.
    pub fn dispatch<R, F: FnOnce(&mut Context<T>, Hold) -> R>(
        &mut self,
        cell: usize,
        kind: AccessKind,
        handler: F,
    ) -> (out: Result<R, AccessError>)
        requires
            old(self).wf(),
            forall|c: &mut Context<T>, h: Hold|
                c.wf() && c@.on_top(h) && h.cell() == cell && h.kind() == kind ==> call_requires(
                    handler,
                    (c, h),
                ),
            forall|c: &mut Context<T>, h: Hold, r: R|
                c.wf() && call_ensures(handler, (c, h), r) ==> final(c).wf() && final(c)@.since(c@),
        ensures
            final(self).wf(),
            final(self)@.since(old(self)@),
            !old(self)@.has(cell as int) ==> (out matches Err(AccessError::UnexpectedItem) && final(self)@ == old(self)@),
            old(self)@.has(cell as int) && !old(self)@.compatible(cell as int, kind) ==> (
            out matches Err(AccessError::AlreadyBorrowed) && final(self)@ == old(self)@),
            old(self)@.has(cell as int) && old(self)@.compatible(cell as int, kind) ==> out is Ok
                && exists|mid: &mut Context<T>, h: Hold|
                mid@ == old(self)@.entered(cell, kind) && mid@.on_top(h) && h.cell() == cell
                    && h.kind() == kind && #[trigger] call_ensures(handler, (mid, h), out->Ok_0)
                    && final(self)@ == final(mid)@.left(),
    {
        let ghost before = self@;
        self.trace(cell);
        let hold = match self.enter(cell, kind) {
            Ok(h) => h,
            Err(e) => {
                return Err(e);
            },
        };
        let ghost h = hold;
        let ghost entered = self@;
        let r = handler(self, hold);
        let ghost after = self@;
        proof {
            assert(after.since(entered));
            assert(entered.stack.drop_last() =~= before.stack);
        }
        self.leave();
        let out = Ok(r);
        proof {
            assert(out->Ok_0 == r);
            assert(self@.stack =~= before.stack);
        }
        out
    }

    /// Lets the innermost dispatch, which `hold` must name, give up its
    /// hold while `runner` runs, and take it back afterwards.
    pub fn suspend<R, F: FnOnce(&mut Context<T>) -> R>(&mut self, hold: &Hold, runner: F) -> (out:
        Result<R, AccessError>)
        requires
            old(self).wf(),
            forall|c: &mut Context<T>| c.wf() ==> call_requires(runner, (c,)),
            forall|c: &mut Context<T>, r: R|
                c.wf() && call_ensures(runner, (c,), r) ==> final(c).wf() && final(c)@.since(c@),
        ensures
            final(self).wf(),
            final(self)@.since(old(self)@),
            old(self)@.stack.len() == 0 ==> (out matches Err(AccessError::NotInContext) && final(self)@ == old(self)@),
            old(self)@.stack.len() > 0 && !old(self)@.on_top(*hold) ==> (out matches Err(
                AccessError::UnexpectedItem,
            ) && final(self)@ == old(self)@),
            old(self)@.on_top(*hold) ==> out is Ok && exists|mid: &mut Context<T>|
                mid@ == old(self)@.paused() && #[trigger] call_ensures(runner, (mid,), out->Ok_0)
                    && final(self)@ == final(mid)@.resumed(),
    {
        let ghost before = self@;
        match self.pause(hold) {
            Err(e) => {
                return Err(e);
            },
            Ok(()) => {},
        }
        let ghost quiet = self@;
        let r = runner(self);
        let ghost after = self@;
        proof {
            lemma_paused(before);
            assert(after.since(quiet));
            let top = before.stack.last();
            assert(after.stack[after.stack.len() - 1].paused);
            assert(after.states[top.cell as int] == access_of(after.stack, top.cell as int));
            assert(quiet.states[top.cell as int] == access_of(quiet.stack, top.cell as int));
        }
        self.resume();
        let out = Ok(r);
        proof {
            assert(out->Ok_0 == r);
            assert(self@.stack =~= before.stack);
        }
        out
    }

    /// Counts one emitting container more, or one less.
    pub(crate) fn shift(&mut self, up: bool)
        requires
            old(self).wf(),
        ensures
            final(self).wf(),
            final(self)@ == if up {
                old(self)@.indented()
            } else {
                old(self)@.dedented()
            },
    {
        if up {
            self.bump = if self.bump == usize::MAX {
                0
            } else {
                self.bump + 1
            };
        } else {
            self.bump = if self.bump == 0 {
                usize::MAX
            } else {
                self.bump - 1
            };
        }
    }
}

} // verus!
