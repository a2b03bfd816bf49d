//! The manager: which handler listens on and emits into which channel, and
//! the refusal of a subscription that would close a cycle.

use vstd::prelude::*;
use vstd::string::StringExecFns;
use crate::rec::{first_cycle, Graph, Recursion};
use crate::rec::{lemma_extended_empty, lemma_linked_edges, lemma_reaches_grows, lemma_reaches_step};
use crate::text::{ascending, lemma_insert_ascending, locate, names, position, rank, tail};

verus! {

/// How a channel carries its calls.
#[derive(Debug, Clone, Copy, PartialEq, Eq)]
pub enum ChannelType {
    /// The emitter calls the listeners at once.
    Direct,
    /// The emitter leaves items that the listeners fetch later; such a
    /// channel takes no part in the graph that is searched for cycles.
    Feed,
}

impl ChannelType {
    pub fn is_direct(&self) -> (r: bool)
        ensures
            r == (*self is Direct),
    {
        match self {
            ChannelType::Direct => true,
            _ => false,
        }
    }
}

/// Why the manager refused a declaration or a subscription.
#[derive(Debug, PartialEq)]
pub enum SubscribeError {
    /// The channel name is declared already.
    DuplicateChannelName,
    /// The subscription has named this channel already, in the same role.
    DuplicateDeclaration,
    /// The subscription would close a cycle. `chain` holds the channels of
    /// the cycle, each once; `handlers` holds for each of them the handlers
    /// that listen on it and emit into the next one, the first one being next
    /// to the last.
    RecursionDetected { chain: Vec<&'static str>, handlers: Vec<Vec<&'static str>> },
}

/// The handlers of one hop of a cycle, and the channel that it leaves.
pub open spec fn hop_text(handlers: Seq<Seq<char>>, from: Seq<char>) -> Seq<char> {
    "["@ + crate::text::joined(handlers, ", "@) + "]"@ + from + " -> "@
}

/// The handlers of hop `i`, none where there are fewer lists than hops.
pub open spec fn handlers_at(handlers: Seq<Seq<Seq<char>>>, i: int) -> Seq<Seq<char>> {
    if 0 <= i < handlers.len() {
        handlers[i]
    } else {
        Seq::empty()
    }
}

/// The first `n` hops of a cycle, one after the other.
pub open spec fn hops_text(chain: Seq<Seq<char>>, handlers: Seq<Seq<Seq<char>>>, n: nat) -> Seq<char>
    decreases n,
{
    if n == 0 {
        Seq::empty()
    } else {
        hops_text(chain, handlers, (n - 1) as nat) + hop_text(
            handlers_at(handlers, n - 1),
            chain[n - 1],
        )
    }
}

/// A cycle as it is reported: each channel after the handlers that lead on
/// from it, and at the end the first channel once more.
pub open spec fn cycle_text(chain: Seq<Seq<char>>, handlers: Seq<Seq<Seq<char>>>) -> Seq<char> {
    if chain.len() == 0 {
        Seq::empty()
    } else {
        hops_text(chain, handlers, chain.len()) + chain[0]
    }
}

impl SubscribeError {
    /// What the error says.
    pub open spec fn text(self) -> Seq<char> {
        match self {
            SubscribeError::DuplicateChannelName => "revent: name is already registered to this manager"@,
            SubscribeError::DuplicateDeclaration => "revent: not allowed to register more than once per subscription"@,
            SubscribeError::RecursionDetected { chain, handlers } =>
                "revent: found a recursion during subscription: "@ + cycle_text(
                    names(chain@),
                    names_each(handlers@),
                ),
        }
    }

    /// The error as a message.
    pub fn message(&self) -> (r: String)
        ensures
            r@ == self.text(),
    {
        let mut out = String::new();
        match self {
            SubscribeError::DuplicateChannelName => {
                out.append("revent: name is already registered to this manager");
                assert(out@ =~= self.text());
            },
            SubscribeError::DuplicateDeclaration => {
                out.append("revent: not allowed to register more than once per subscription");
                assert(out@ =~= self.text());
            },
            SubscribeError::RecursionDetected { chain, handlers } => {
                let ghost c = names(chain@);
                let ghost hs = names_each(handlers@);
                let mut body = String::new();
                let mut i: usize = 0;
                while i < chain.len()
                    invariant
                        i <= chain@.len(),
                        c == names(chain@),
                        hs == names_each(handlers@),
                        body@ == hops_text(c, hs, i as nat),
                    decreases chain@.len() - i,
                {
                    let ghost before = body@;
                    let listed = if i < handlers.len() {
                        assert(hs[i as int] == names(handlers@[i as int]@));
                        crate::text::join(&handlers[i], ", ")
                    } else {
                        let none: Vec<&'static str> = Vec::new();
                        assert(names(none@) =~= Seq::<Seq<char>>::empty());
                        crate::text::join(&none, ", ")
                    };
                    assert(listed@ == crate::text::joined(handlers_at(hs, i as int), ", "@));
                    body.append("[");
                    body.append(listed.as_str());
                    body.append("]");
                    body.append(chain[i]);
                    body.append(" -> ");
                    proof {
                        assert(c[i as int] == chain@[i as int]@);
                        assert(body@ =~= before + hop_text(handlers_at(hs, i as int), c[i as int]));
                    }
                    i += 1;
                }
                if chain.len() > 0 {
                    body.append(chain[0]);
                    assert(c[0] == chain@[0]@);
                }
                out.append("revent: found a recursion during subscription: ");
                out.append(body.as_str());
                assert(out@ =~= self.text());
            },
        }
        out
    }
}

/// The channels that one subscription has named so far.
struct ListensAndEmits {
    name: &'static str,
    emits: Vec<&'static str>,
    listens: Vec<&'static str>,
}

/// A subscription under way, as contracts see it.
pub struct Frame {
    pub name: Seq<char>,
    pub listens: Seq<Seq<char>>,
    pub emits: Seq<Seq<char>>,
}

/// The manager's state, as contracts see it.
pub struct Registry {
    /// The declared channels, in the order of their declaration.
    pub channels: Seq<Seq<char>>,
    /// The type of each channel.
    pub kinds: Seq<ChannelType>,
    /// For each channel the handlers that listen on it, ascending.
    pub listens: Seq<Seq<Seq<char>>>,
    /// For each channel the handlers that emit into it, ascending.
    pub emits: Seq<Seq<Seq<char>>>,
    /// Which direct channel can call which: an edge from each channel that a
    /// handler listens on to each that it emits into.
    pub graph: Graph,
    /// The subscriptions under way, the innermost last.
    pub active: Seq<Frame>,
}

/// The set `s` with `x` in it: put in at its place unless it is there.
pub open spec fn put(s: Seq<Seq<char>>, x: Seq<char>) -> Seq<Seq<char>> {
    if s.contains(x) {
        s
    } else {
        s.insert(rank(s, x), x)
    }
}

/// The names of `a` that `b` holds too, in the order of `a`.
pub open spec fn common(a: Seq<Seq<char>>, b: Seq<Seq<char>>) -> Seq<Seq<char>>
    decreases a.len(),
{
    if a.len() == 0 {
        Seq::empty()
    } else if b.contains(a.last()) {
        common(a.drop_last(), b).push(a.last())
    } else {
        common(a.drop_last(), b)
    }
}

/// The lists of handlers, one for each channel, after `name` joined those
/// of the channels that `picked` holds.
pub open spec fn joined(
    channels: Seq<Seq<char>>,
    lists: Seq<Seq<Seq<char>>>,
    picked: Seq<Seq<char>>,
    name: Seq<char>,
) -> Seq<Seq<Seq<char>>> {
    Seq::new(
        lists.len(),
        |i: int|
            if picked.contains(channels[i]) {
                put(lists[i], name)
            } else {
                lists[i]
            },
    )
}

/// The handlers that listen on `from` and emit into `to`, given the lists
/// of listeners and of emitters, one for each channel.
pub open spec fn between(
    channels: Seq<Seq<char>>,
    listens: Seq<Seq<Seq<char>>>,
    emits: Seq<Seq<Seq<char>>>,
    from: Seq<char>,
    to: Seq<char>,
) -> Seq<Seq<char>> {
    common(listens[channels.index_of(from)], emits[channels.index_of(to)])
}

/// The index after `i` on a cycle of `n`.
pub open spec fn next_on(i: int, n: int) -> int {
    if i + 1 == n {
        0
    } else {
        i + 1
    }
}

/// For each channel of a cycle, the handlers that lead from it to the next
/// one.
pub open spec fn hops(
    channels: Seq<Seq<char>>,
    listens: Seq<Seq<Seq<char>>>,
    emits: Seq<Seq<Seq<char>>>,
    chain: Seq<Seq<char>>,
) -> Seq<Seq<Seq<char>>> {
    Seq::new(
        chain.len(),
        |i: int| between(channels, listens, emits, chain[i], chain[next_on(i, chain.len() as int)]),
    )
}

impl Registry {
    /// `name` is a declared channel.
    pub open spec fn declared(self, name: Seq<char>) -> bool {
        self.channels.contains(name)
    }

    /// `name` is a declared channel of the direct type.
    pub open spec fn direct(self, name: Seq<char>) -> bool {
        self.channels.contains(name) && self.kinds[self.channels.index_of(name)] is Direct
    }

    /// The state in which nothing is declared.
    pub open spec fn empty() -> Registry {
        Registry {
            channels: Seq::empty(),
            kinds: Seq::empty(),
            listens: Seq::empty(),
            emits: Seq::empty(),
            graph: Graph { keys: Seq::empty(), kids: Seq::empty() },
            active: Seq::empty(),
        }
    }

    /// The frames name declared channels only, and none twice in one role.
    pub open spec fn frames_wf(self) -> bool {
        forall|i: int|
            0 <= i < self.active.len() ==> {
                let f = #[trigger] self.active[i];
                &&& f.listens.no_duplicates()
                &&& f.emits.no_duplicates()
                &&& forall|j: int| 0 <= j < f.listens.len() ==> self.declared(#[trigger] f.listens[j])
                &&& forall|j: int| 0 <= j < f.emits.len() ==> self.declared(#[trigger] f.emits[j])
            }
    }

    /// What holds of the manager at all times. Among the rest: the graph has
    /// no cycle.
    pub open spec fn wf(self) -> bool {
        &&& self.channels.no_duplicates()
        &&& self.kinds.len() == self.channels.len()
        &&& self.listens.len() == self.channels.len()
        &&& self.emits.len() == self.channels.len()
        &&& forall|i: int| 0 <= i < self.listens.len() ==> ascending(#[trigger] self.listens[i])
        &&& forall|i: int| 0 <= i < self.emits.len() ==> ascending(#[trigger] self.emits[i])
        &&& self.graph.wf()
        &&& self.graph.tidy()
        &&& self.graph.acyclic()
        &&& forall|n: Seq<char>| #[trigger] self.graph.keys.contains(n) ==> self.direct(n)
        &&& forall|a: Seq<char>, b: Seq<char>| #[trigger]
            self.graph.edge(a, b) ==> self.direct(a) && self.direct(b)
        &&& self.frames_wf()
    }

    /// The state after a channel was declared.
    pub open spec fn with_channel(self, name: Seq<char>, kind: ChannelType) -> Registry {
        Registry {
            channels: self.channels.push(name),
            kinds: self.kinds.push(kind),
            listens: self.listens.push(Seq::empty()),
            emits: self.emits.push(Seq::empty()),
            graph: self.graph,
            active: self.active,
        }
    }

    /// The state after a subscription was opened and has named its channels.
    pub open spec fn opened(
        self,
        name: Seq<char>,
        listens: Seq<Seq<char>>,
        emits: Seq<Seq<char>>,
    ) -> Registry {
        Registry {
            channels: self.channels,
            kinds: self.kinds,
            listens: self.listens,
            emits: self.emits,
            graph: self.graph,
            active: self.active.push(Frame { name, listens, emits }),
        }
    }

    /// The state with another frame in place of the innermost one.
    pub open spec fn with_top(self, f: Frame) -> Registry {
        Registry {
            channels: self.channels,
            kinds: self.kinds,
            listens: self.listens,
            emits: self.emits,
            graph: self.graph,
            active: self.active.drop_last().push(f),
        }
    }

    /// The graph `g` with `l` as a parent and an edge from it to each direct
    /// channel among the first `n` of `emits`.
    pub open spec fn stage_row(self, g: Graph, l: Seq<char>, emits: Seq<Seq<char>>, n: nat) -> Graph
        decreases n,
    {
        if n == 0 {
            g.extended(l, Seq::empty())
        } else {
            let before = self.stage_row(g, l, emits, (n - 1) as nat);
            if self.direct(emits[n - 1]) {
                before.linked(l, emits[n - 1])
            } else {
                before
            }
        }
    }

    /// The graph `g` with an edge from each direct channel among the first
    /// `m` of `listens` to each direct channel of `emits`.
    pub open spec fn stage(
        self,
        g: Graph,
        listens: Seq<Seq<char>>,
        m: nat,
        emits: Seq<Seq<char>>,
    ) -> Graph
        decreases m,
    {
        if m == 0 {
            g
        } else {
            let before = self.stage(g, listens, (m - 1) as nat, emits);
            if self.direct(listens[m - 1]) {
                self.stage_row(before, listens[m - 1], emits, emits.len())
            } else {
                before
            }
        }
    }

    /// The graph as the innermost subscription would leave it.
    pub open spec fn staged(self) -> Graph {
        let f = self.active.last();
        self.stage(self.graph, f.listens, f.listens.len(), f.emits)
    }

    /// The listeners of each channel as the innermost subscription would
    /// leave them.
    pub open spec fn staged_listens(self) -> Seq<Seq<Seq<char>>> {
        let f = self.active.last();
        joined(self.channels, self.listens, f.listens, f.name)
    }

    /// The emitters of each channel as the innermost subscription would
    /// leave them.
    pub open spec fn staged_emits(self) -> Seq<Seq<Seq<char>>> {
        let f = self.active.last();
        joined(self.channels, self.emits, f.emits, f.name)
    }

    /// The state after the innermost subscription was taken in.
    pub open spec fn committed(self) -> Registry {
        Registry {
            channels: self.channels,
            kinds: self.kinds,
            listens: self.staged_listens(),
            emits: self.staged_emits(),
            graph: self.staged(),
            active: self.active.drop_last(),
        }
    }

    /// The state after the innermost subscription was given up.
    pub open spec fn abandoned(self) -> Registry {
        Registry {
            channels: self.channels,
            kinds: self.kinds,
            listens: self.listens,
            emits: self.emits,
            graph: self.graph,
            active: self.active.drop_last(),
        }
    }

    /// `a` and `b` are direct channels, `a` among the first `m` of
    /// `listens` and `b` among `emits`.
    pub open spec fn adds(
        self,
        listens: Seq<Seq<char>>,
        m: int,
        emits: Seq<Seq<char>>,
        a: Seq<char>,
        b: Seq<char>,
    ) -> bool {
        &&& self.direct(a)
        &&& self.direct(b)
        &&& exists|i: int| 0 <= i < m && i < listens.len() && #[trigger] listens[i] == a
        &&& exists|j: int| 0 <= j < emits.len() && #[trigger] emits[j] == b
    }
}

/// A copy of `list` with `name` in it: put in at its place in the order
/// unless it is there.
fn insert_name(list: &Vec<&'static str>, name: &'static str) -> (r: Vec<&'static str>)
    requires
        ascending(names(list@)),
    ensures
        names(r@) == put(names(list@), name@),
        ascending(names(r@)),
{
    let mut out = tail(list, 0);
    assert(out@ =~= list@);
    let (at, found) = locate(&out, name);
    if !found {
        out.insert(at, name);
        proof {
            assert(names(out@) =~= names(list@).insert(at as int, name@));
            lemma_insert_ascending(names(list@), name@);
        }
    }
    out
}

/// The lists of handlers, one for each channel, after `name` joined those
/// of the channels that `picked` holds.
fn join(
    channels: &Vec<&'static str>,
    lists: &Vec<Vec<&'static str>>,
    picked: &Vec<&'static str>,
    name: &'static str,
) -> (r: Vec<Vec<&'static str>>)
    requires
        lists@.len() == channels@.len(),
        forall|i: int| 0 <= i < lists@.len() ==> ascending(#[trigger] names_each(lists@)[i]),
    ensures
        r@.len() == lists@.len(),
        names_each(r@) == joined(names(channels@), names_each(lists@), names(picked@), name@),
        forall|i: int| 0 <= i < r@.len() ==> ascending(#[trigger] names_each(r@)[i]),
{
    let mut out: Vec<Vec<&'static str>> = Vec::new();
    let ghost goal = joined(names(channels@), names_each(lists@), names(picked@), name@);
    let mut i: usize = 0;
    while i < lists.len()
        invariant
            i <= lists@.len(),
            lists@.len() == channels@.len(),
            forall|j: int| 0 <= j < lists@.len() ==> ascending(#[trigger] names_each(lists@)[j]),
            goal == joined(names(channels@), names_each(lists@), names(picked@), name@),
            out@.len() == i,
            forall|j: int| 0 <= j < i ==> names(#[trigger] out@[j]@) == goal[j],
            forall|j: int| 0 <= j < i ==> ascending(names(#[trigger] out@[j]@)),
        decreases lists@.len() - i,
    {
        assert(names_each(lists@)[i as int] == names(lists@[i as int]@));
        assert(names(channels@)[i as int] == channels@[i as int]@);
        let row = if position(picked, channels[i]).is_some() {
            insert_name(&lists[i], name)
        } else {
            let copy = tail(&lists[i], 0);
            assert(copy@ =~= lists@[i as int]@);
            copy
        };
        out.push(row);
        i += 1;
    }
    proof {
        assert(names_each(out@) =~= goal);
        assert forall|j: int| 0 <= j < out@.len() implies ascending(
            #[trigger] names_each(out@)[j],
        ) by {
            assert(names_each(out@)[j] == names(out@[j]@));
        }
    }
    out
}

/// The names of `a` that `b` holds too, in the order of `a`.
pub(crate) fn intersect(a: &Vec<&'static str>, b: &Vec<&'static str>) -> (r: Vec<&'static str>)
    ensures
        names(r@) == common(names(a@), names(b@)),
{
    let mut out: Vec<&'static str> = Vec::new();
    let mut i: usize = 0;
    assert(names(a@.subrange(0, 0)) =~= Seq::<Seq<char>>::empty());
    assert(names(out@) =~= Seq::<Seq<char>>::empty());
    while i < a.len()
        invariant
            i <= a@.len(),
            names(out@) == common(names(a@.subrange(0, i as int)), names(b@)),
        decreases a@.len() - i,
    {
        let ghost seen = names(a@.subrange(0, i as int));
        let ghost more = names(a@.subrange(0, i + 1));
        proof {
            assert(more.drop_last() =~= seen);
            assert(more.last() == a@[i as int]@);
        }
        if position(b, a[i]).is_some() {
            let ghost was = out@;
            out.push(a[i]);
            assert(names(out@) =~= names(was).push(a@[i as int]@));
        }
        i += 1;
    }
    assert(a@.subrange(0, a@.len() as int) =~= a@);
    out
}

/// For each channel of a cycle, the handlers that lead from it to the next
/// one.
fn hops_of(
    channels: &Vec<&'static str>,
    listens: &Vec<Vec<&'static str>>,
    emits: &Vec<Vec<&'static str>>,
    chain: &Vec<&'static str>,
) -> (r: Vec<Vec<&'static str>>)
    requires
        names(channels@).no_duplicates(),
        listens@.len() == channels@.len(),
        emits@.len() == channels@.len(),
        forall|i: int| 0 <= i < chain@.len() ==> names(channels@).contains(#[trigger] names(chain@)[i]),
    ensures
        names_each(r@) == hops(
            names(channels@),
            names_each(listens@),
            names_each(emits@),
            names(chain@),
        ),
{
    let ghost goal = hops(names(channels@), names_each(listens@), names_each(emits@), names(chain@));
    let mut out: Vec<Vec<&'static str>> = Vec::new();
    let n = chain.len();
    let mut i: usize = 0;
    while i < n
        invariant
            i <= n,
            n == chain@.len(),
            names(channels@).no_duplicates(),
            listens@.len() == channels@.len(),
            emits@.len() == channels@.len(),
            forall|j: int|
                0 <= j < chain@.len() ==> names(channels@).contains(#[trigger] names(chain@)[j]),
            goal == hops(names(channels@), names_each(listens@), names_each(emits@), names(chain@)),
            out@.len() == i,
            forall|j: int| 0 <= j < i ==> names(#[trigger] out@[j]@) == goal[j],
        decreases n - i,
    {
        let next = if i + 1 == n {
            0
        } else {
            i + 1
        };
        assert(next == next_on(i as int, n as int));
        let from = chain[i];
        let to = chain[next];
        assert(names(chain@)[i as int] == from@);
        assert(names(chain@)[next as int] == to@);
        let at_from = position(channels, from);
        let at_to = position(channels, to);
        let (a, b) = (at_from.unwrap(), at_to.unwrap());
        proof {
            assert(names(channels@).index_of(from@) == a);
            assert(names(channels@).index_of(to@) == b);
            assert(names_each(listens@)[a as int] == names(listens@[a as int]@));
            assert(names_each(emits@)[b as int] == names(emits@[b as int]@));
        }
        let row = intersect(&listens[a], &emits[b]);
        out.push(row);
        i += 1;
    }
    assert(names_each(out@) =~= goal);
    out
}

/// Inspects how handlers use channels, and refuses a subscription that
/// would let a handler be reached again while it runs.
///
/// Handlers are known by their names: two subscriptions under one name
/// count as one handler. Unsubscribing does not remove the channel
/// dependencies from the manager: the graph only grows, so that whether a
/// wiring is free of cycles does not depend on the order of subscribing and
/// unsubscribing.
pub struct Manager {
    channels: Vec<&'static str>,
    kinds: Vec<ChannelType>,
    listens: Vec<Vec<&'static str>>,
    emits: Vec<Vec<&'static str>>,
    amalgam: Recursion,
    active: Vec<ListensAndEmits>,
}

impl View for ListensAndEmits {
    type V = Frame;

    closed spec fn view(&self) -> Frame {
        Frame { name: self.name@, listens: names(self.listens@), emits: names(self.emits@) }
    }
}

/// The names in each of some lists.
pub open spec fn names_each(lists: Seq<Vec<&'static str>>) -> Seq<Seq<Seq<char>>> {
    lists.map_values(|l: Vec<&'static str>| names(l@))
}

impl View for Manager {
    type V = Registry;

    closed spec fn view(&self) -> Registry {
        Registry {
            channels: names(self.channels@),
            kinds: self.kinds@,
            listens: names_each(self.listens@),
            emits: names_each(self.emits@),
            graph: self.amalgam@,
            active: self.active@.map_values(|f: ListensAndEmits| f@),
        }
    }
}

impl Manager {
    /// What holds of a manager at all times.
    pub closed spec fn wf(&self) -> bool {
        self@.wf() && self.amalgam.wf()
    }

    /// A manager that is in order shows so to contracts.
    pub proof fn lemma_wf(&self)
        requires
            self.wf(),
        ensures
            self@.wf(),
    {
    }

    /// Create a new manager.
    pub fn new() -> (r: Self)
        ensures
            r.wf(),
            r@ == Registry::empty(),
    {
        let r = Manager {
            channels: Vec::new(),
            kinds: Vec::new(),
            listens: Vec::new(),
            emits: Vec::new(),
            amalgam: Recursion::default(),
            active: Vec::new(),
        };
        proof {
            assert(r@.channels =~= Seq::empty());
            assert(r@.listens =~= Seq::empty());
            assert(r@.emits =~= Seq::empty());
            assert(r@.active =~= Seq::empty());
            assert(r@.graph.keys =~= Seq::empty());
            assert(r@.graph.kids =~= Seq::empty());
            lemma_empty_graph(r@.graph);
        }
        r
    }

    /// The names of the declared channels.
    pub(crate) fn channel_names(&self) -> (r: &Vec<&'static str>)
        ensures
            names(r@) == self@.channels,
    {
        &self.channels
    }

    /// The types of the declared channels.
    pub(crate) fn channel_kinds(&self) -> (r: &Vec<ChannelType>)
        ensures
            r@ == self@.kinds,
    {
        &self.kinds
    }

    /// For each channel the handlers that listen on it.
    pub(crate) fn listeners(&self) -> (r: &Vec<Vec<&'static str>>)
        ensures
            names_each(r@) == self@.listens,
    {
        &self.listens
    }

    /// For each channel the handlers that emit into it.
    pub(crate) fn emitters(&self) -> (r: &Vec<Vec<&'static str>>)
        ensures
            names_each(r@) == self@.emits,
    {
        &self.emits
    }

    /// Declares a channel under a name that no other channel of this
    /// manager has.
    pub fn ensure_new(&mut self, name: &'static str, channel_type: ChannelType) -> (r: Result<
        (),
        SubscribeError,
    >)
        requires
            old(self).wf(),
        ensures
            final(self).wf(),
            old(self)@.declared(name@) ==> r == Err::<(), SubscribeError>(
                SubscribeError::DuplicateChannelName,
            ) && final(self)@ == old(self)@,
            !old(self)@.declared(name@) ==> r is Ok && final(self)@ == old(self)@.with_channel(
                name@,
                channel_type,
            ),
    {
        let ghost before = self@;
        if position(&self.channels, name).is_some() {
            return Err(SubscribeError::DuplicateChannelName);
        }
        let none: Vec<&'static str> = Vec::new();
        let nobody: Vec<&'static str> = Vec::new();
        self.channels.push(name);
        self.kinds.push(channel_type);
        self.listens.push(none);
        self.emits.push(nobody);
        proof {
            let goal = before.with_channel(name@, channel_type);
            assert(names(none@) =~= Seq::<Seq<char>>::empty());
            assert(names(nobody@) =~= Seq::<Seq<char>>::empty());
            assert(self@.channels =~= goal.channels);
            assert(self@.listens =~= goal.listens);
            assert(self@.emits =~= goal.emits);
            assert(self@.active =~= goal.active);
            lemma_with_channel(before, name@, channel_type);
        }
        Ok(())
    }

    /// Opens the subscription of the handler `name`: what it listens on and
    /// emits into is recorded until the subscription is finished.
    pub fn prepare_construction(&mut self, name: &'static str)
        requires
            old(self).wf(),
        ensures
            final(self).wf(),
            final(self)@ == (Registry {
                active: old(self)@.active.push(
                    Frame { name: name@, listens: Seq::empty(), emits: Seq::empty() },
                ),
                ..old(self)@
            }),
    {
        let ghost before = self@;
        let frame = ListensAndEmits { name, emits: Vec::new(), listens: Vec::new() };
        proof {
            assert(frame@.listens =~= Seq::<Seq<char>>::empty());
            assert(frame@.emits =~= Seq::<Seq<char>>::empty());
        }
        self.active.push(frame);
        proof {
            assert(self@.active =~= before.active.push(frame@));
            assert forall|i: int| 0 <= i < self@.active.len() implies {
                let f = #[trigger] self@.active[i];
                &&& f.listens.no_duplicates()
                &&& f.emits.no_duplicates()
                &&& forall|j: int|
                    0 <= j < f.listens.len() ==> self@.declared(#[trigger] f.listens[j])
                &&& forall|j: int| 0 <= j < f.emits.len() ==> self@.declared(#[trigger] f.emits[j])
            } by {
                if i < before.active.len() {
                    assert(self@.active[i] == before.active[i]);
                }
            }
        }
    }

    /// Whether a channel of this name is declared.
    pub fn is_declared(&self, name: &str) -> (r: bool)
        ensures
            r == self@.declared(name@),
    {
        position(&self.channels, name).is_some()
    }

    /// The number of subscriptions under way.
    pub fn current_frames(&self) -> (r: usize)
        ensures
            r == self@.active.len(),
    {
        self.active.len()
    }

    /// The handler whose subscription is under way.
    pub fn current(&self) -> (r: &'static str)
        requires
            self.wf(),
            self@.active.len() > 0,
        ensures
            r@ == self@.active.last().name,
    {
        self.active[self.active.len() - 1].name
    }

    /// Records that the handler whose subscription is under way emits into
    /// `signal`.
    pub fn register_emit(&mut self, signal: &'static str) -> (r: Result<(), SubscribeError>)
        requires
            old(self).wf(),
            old(self)@.active.len() > 0,
            old(self)@.declared(signal@),
        ensures
            final(self).wf(),
            old(self)@.active.last().emits.contains(signal@) ==> r == Err::<(), SubscribeError>(
                SubscribeError::DuplicateDeclaration,
            ) && final(self)@ == old(self)@,
            !old(self)@.active.last().emits.contains(signal@) ==> r is Ok && final(self)@ == old(
                self,
            )@.with_top(
                Frame {
                    emits: old(self)@.active.last().emits.push(signal@),
                    ..old(self)@.active.last()
                },
            ),
    {
        let ghost before = self@;
        let top = self.active.len() - 1;
        assert(before.active[top as int] == self.active@[top as int]@);
        if position(&self.active[top].emits, signal).is_some() {
            return Err(SubscribeError::DuplicateDeclaration);
        }
        let mut frame = self.active.pop().unwrap();
        frame.emits.push(signal);
        let ghost grown = frame@;
        self.active.push(frame);
        proof {
            let old_top = before.active.last();
            assert(grown.emits =~= old_top.emits.push(signal@));
            assert(grown == Frame { emits: old_top.emits.push(signal@), ..old_top });
            assert(self@.active =~= before.active.drop_last().push(grown));
            lemma_with_top(before, grown);
        }
        Ok(())
    }

    /// Records that the handler whose subscription is under way listens on
    /// `signal`.
    pub fn register_listen(&mut self, signal: &'static str) -> (r: Result<(), SubscribeError>)
        requires
            old(self).wf(),
            old(self)@.active.len() > 0,
            old(self)@.declared(signal@),
        ensures
            final(self).wf(),
            old(self)@.active.last().listens.contains(signal@) ==> r == Err::<(), SubscribeError>(
                SubscribeError::DuplicateDeclaration,
            ) && final(self)@ == old(self)@,
            !old(self)@.active.last().listens.contains(signal@) ==> r is Ok && final(self)@ == old(
                self,
            )@.with_top(
                Frame {
                    listens: old(self)@.active.last().listens.push(signal@),
                    ..old(self)@.active.last()
                },
            ),
    {
        let ghost before = self@;
        let top = self.active.len() - 1;
        assert(before.active[top as int] == self.active@[top as int]@);
        if position(&self.active[top].listens, signal).is_some() {
            return Err(SubscribeError::DuplicateDeclaration);
        }
        let mut frame = self.active.pop().unwrap();
        frame.listens.push(signal);
        let ghost grown = frame@;
        self.active.push(frame);
        proof {
            let old_top = before.active.last();
            assert(grown.listens =~= old_top.listens.push(signal@));
            assert(grown == Frame { listens: old_top.listens.push(signal@), ..old_top });
            assert(self@.active =~= before.active.drop_last().push(grown));
            lemma_with_top(before, grown);
        }
        Ok(())
    }
}

impl Manager {
    /// Whether a declared channel is of the direct type.
    fn direct(&self, name: &'static str) -> (r: bool)
        requires
            self@.channels.no_duplicates(),
            self@.kinds.len() == self@.channels.len(),
            self@.declared(name@),
        ensures
            r == self@.direct(name@),
    {
        let at = position(&self.channels, name).unwrap();
        assert(self@.channels.index_of(name@) == at);
        self.kinds[at].is_direct()
    }

    /// The graph as the subscription `frame` would leave it.
    fn stage(&self, frame: &ListensAndEmits) -> (r: Recursion)
        requires
            self@.channels.no_duplicates(),
            self@.kinds.len() == self@.channels.len(),
            self.amalgam.wf(),
            self@.graph.tidy(),
            forall|j: int| 0 <= j < frame@.listens.len() ==> self@.declared(#[trigger] frame@.listens[j]),
            forall|j: int| 0 <= j < frame@.emits.len() ==> self@.declared(#[trigger] frame@.emits[j]),
        ensures
            r.wf(),
            r@ == self@.stage(
                self@.graph,
                frame@.listens,
                frame@.listens.len(),
                frame@.emits,
            ),
    {
        let ghost reg = self@;
        let ghost g = self@.graph;
        let ghost listens = frame@.listens;
        let ghost emits = frame@.emits;
        let mut staged = self.amalgam.duplicate();
        let mut li: usize = 0;
        while li < frame.listens.len()
            invariant
                li <= frame.listens@.len(),
                reg == self@,
                g == self@.graph,
                g.wf(),
                g.tidy(),
                listens == frame@.listens,
                emits == frame@.emits,
                listens.len() == frame.listens@.len(),
                emits.len() == frame.emits@.len(),
                reg.channels.no_duplicates(),
                reg.kinds.len() == reg.channels.len(),
                forall|j: int| 0 <= j < listens.len() ==> reg.declared(#[trigger] listens[j]),
                forall|j: int| 0 <= j < emits.len() ==> reg.declared(#[trigger] emits[j]),
                staged.wf(),
                staged@ == reg.stage(g, listens, li as nat, emits),
            decreases frame.listens@.len() - li,
        {
            let l = frame.listens[li];
            assert(listens[li as int] == l@);
            proof {
                lemma_stage(reg, g, listens, li as nat, emits);
            }
            if self.direct(l) {
                let ghost base = staged@;
                let none: Vec<&'static str> = Vec::new();
                assert(names(none@) =~= Seq::<Seq<char>>::empty());
                staged.add(l, none.as_slice());
                let mut ei: usize = 0;
                while ei < frame.emits.len()
                    invariant
                        ei <= frame.emits@.len(),
                        reg == self@,
                        emits == frame@.emits,
                        emits.len() == frame.emits@.len(),
                        reg.channels.no_duplicates(),
                        reg.kinds.len() == reg.channels.len(),
                        forall|j: int| 0 <= j < emits.len() ==> reg.declared(#[trigger] emits[j]),
                        base.wf(),
                        base.tidy(),
                        staged.wf(),
                        staged@ == reg.stage_row(base, l@, emits, ei as nat),
                    decreases frame.emits@.len() - ei,
                {
                    let e = frame.emits[ei];
                    assert(emits[ei as int] == e@);
                    proof {
                        lemma_stage_row(reg, base, l@, emits, ei as nat);
                    }
                    if self.direct(e) {
                        staged.link(l, e);
                    }
                    ei += 1;
                }
            }
            li += 1;
        }
        staged
    }

    /// Closes the subscription under way. Where the graph with the edges of
    /// this subscription has no cycle, they are taken into it and the handler
    /// joins the channels that it named; else the manager stays as it was
    /// before the subscription, and the first cycle is reported with the
    /// handlers on it.
    pub fn finish_construction(&mut self) -> (r: Result<(), SubscribeError>)
        requires
            old(self).wf(),
            old(self)@.active.len() > 0,
        ensures
            final(self).wf(),
            final(self)@.graph.acyclic(),
            old(self)@.staged().acyclic() ==> r is Ok && final(self)@ == old(self)@.committed(),
            !old(self)@.staged().acyclic() ==> final(self)@ == old(self)@.abandoned() && (r matches Err(
                SubscribeError::RecursionDetected { chain, handlers },
            ) && first_cycle(old(self)@.staged()) == Some(names(chain@)) && names_each(handlers@)
                == hops(
                old(self)@.channels,
                old(self)@.staged_listens(),
                old(self)@.staged_emits(),
                names(chain@),
            )),
    {
        let ghost before = self@;
        let ghost top = before.active.last();
        assert(self.active@[self.active@.len() - 1]@ == top);
        let frame = self.active.pop().unwrap();
        proof {
            assert(frame@ == top);
            assert(self@.active =~= before.active.drop_last());
            assert(self@ == before.abandoned());
            lemma_abandoned(before);
            lemma_stage(before, before.graph, top.listens, top.listens.len(), top.emits);
            assert(self@.stage(self@.graph, top.listens, top.listens.len(), top.emits)
                == before.staged()) by {
                lemma_stage_same(self@, before, before.graph, top.listens, top.listens.len(), top.emits);
            }
        }
        let mut staged = self.stage(&frame);
        let listens = join(&self.channels, &self.listens, &frame.listens, frame.name);
        let emits = join(&self.channels, &self.emits, &frame.emits, frame.name);
        match staged.check() {
            Ok(()) => {
                self.amalgam = staged;
                self.listens = listens;
                self.emits = emits;
                proof {
                    assert(self@ == before.committed());
                    lemma_committed(before);
                }
                Ok(())
            },
            Err(e) => {
                proof {
                    let c = names(e.chain@);
                    let g = before.staged();
                    assert forall|i: int| 0 <= i < c.len() implies names(self.channels@).contains(
                        #[trigger] c[i],
                    ) by {
                        if i < c.len() - 1 {
                            assert(g.edge(c[i], c[i + 1]));
                        } else {
                            assert(g.edge(c[i], c[0]));
                        }
                    }
                }
                let handlers = hops_of(&self.channels, &listens, &emits, &e.chain);
                Err(SubscribeError::RecursionDetected { chain: e.chain, handlers })
            },
        }
    }
}

impl Manager {
    /// Gives up the subscription under way: nothing of it is taken in.
    pub fn abandon_construction(&mut self)
        requires
            old(self).wf(),
            old(self)@.active.len() > 0,
        ensures
            final(self).wf(),
            final(self)@ == old(self)@.abandoned(),
    {
        let ghost before = self@;
        let frame = self.active.pop();
        proof {
            assert(self@.active =~= before.active.drop_last());
            lemma_abandoned(before);
        }
    }

    /// Records each of `signals` with the subscription under way, as
    /// emitted into or as listened on, up to the first that it has already.
    fn register_all(&mut self, signals: &[&'static str], listening: bool) -> (r: Result<
        (),
        SubscribeError,
    >)
        requires
            old(self).wf(),
            old(self)@.active.len() > 0,
            forall|i: int| 0 <= i < signals@.len() ==> old(self)@.declared(#[trigger] names(signals@)[i]),
            if listening {
                old(self)@.active.last().listens.len() == 0
            } else {
                old(self)@.active.last().emits.len() == 0
            },
        ensures
            final(self).wf(),
            final(self)@.active.len() == old(self)@.active.len(),
            final(self)@.abandoned() == old(self)@.abandoned(),
            r is Ok <==> names(signals@).no_duplicates(),
            r matches Err(e) ==> e == SubscribeError::DuplicateDeclaration,
            r is Ok ==> final(self)@ == old(self)@.with_top(
                if listening {
                    Frame { listens: names(signals@), ..old(self)@.active.last() }
                } else {
                    Frame { emits: names(signals@), ..old(self)@.active.last() }
                },
            ),
    {
        let ghost before = self@;
        let ghost start = before.active.last();
        let ghost all = names(signals@);
        let mut i: usize = 0;
        proof {
            assert(all.subrange(0, 0) =~= Seq::<Seq<char>>::empty());
            assert(before.active.drop_last().push(start) =~= before.active);
            if listening {
                assert(start.listens =~= all.subrange(0, 0));
                assert(start == Frame { listens: all.subrange(0, 0), ..start });
            } else {
                assert(start.emits =~= all.subrange(0, 0));
                assert(start == Frame { emits: all.subrange(0, 0), ..start });
            }
            assert(self@.active =~= before.with_top(start).active);
        }
        while i < signals.len()
            invariant
                i <= signals@.len(),
                all == names(signals@),
                self.wf(),
                before.wf(),
                before == old(self)@,
                self@.active.len() == before.active.len(),
                self@.abandoned() == before.abandoned(),
                before.active.len() > 0,
                start == before.active.last(),
                forall|j: int| 0 <= j < all.len() ==> before.declared(#[trigger] all[j]),
                all.subrange(0, i as int).no_duplicates(),
                self@ == before.with_top(
                    if listening {
                        Frame { listens: all.subrange(0, i as int), ..start }
                    } else {
                        Frame { emits: all.subrange(0, i as int), ..start }
                    },
                ),
            decreases signals@.len() - i,
        {
            let ghost seen = all.subrange(0, i as int);
            let ghost now = self@;
            let signal = signals[i];
            assert(all[i as int] == signal@);
            assert(now.declared(signal@));
            assert(now.active.last() == now.active[now.active.len() - 1]);
            let outcome = if listening {
                self.register_listen(signal)
            } else {
                self.register_emit(signal)
            };
            match outcome {
                Err(e) => {
                    proof {
                        let at = seen.index_of(signal@);
                        assert(all[at] == all[i as int]);
                    }
                    return Err(SubscribeError::DuplicateDeclaration);
                },
                Ok(()) => {},
            }
            proof {
                assert(all.subrange(0, i + 1) =~= seen.push(signal@));
                assert(now.active.drop_last() =~= before.active.drop_last());
                assert(self@.active.drop_last() =~= before.active.drop_last());
                let more = all.subrange(0, i + 1);
                assert forall|a: int, b: int|
                    0 <= a < more.len() && 0 <= b < more.len() && a != b implies #[trigger] more[a]
                    != #[trigger] more[b] by {
                    if a < i && b < i {
                        assert(seen[a] != seen[b]);
                    } else if a < i {
                        assert(seen[a] == all[a]);
                    } else {
                        assert(seen[b] == all[b]);
                    }
                }
            }
            i += 1;
        }
        assert(all.subrange(0, all.len() as int) =~= all);
        Ok(())
    }

    /// Subscribes the handler `name`, which listens on `listens` and emits
    /// into `emits`: opens its subscription, records the channels and closes
    /// it. Where it is refused the manager stays as it was.
    pub fn subscribe(
        &mut self,
        name: &'static str,
        listens: &[&'static str],
        emits: &[&'static str],
    ) -> (r: Result<(), SubscribeError>)
        requires
            old(self).wf(),
            forall|i: int| 0 <= i < listens@.len() ==> old(self)@.declared(#[trigger] names(listens@)[i]),
            forall|i: int| 0 <= i < emits@.len() ==> old(self)@.declared(#[trigger] names(emits@)[i]),
        ensures
            final(self).wf(),
            final(self)@.graph.acyclic(),
            !(names(listens@).no_duplicates() && names(emits@).no_duplicates()) ==> r == Err::<
                (),
                SubscribeError,
            >(SubscribeError::DuplicateDeclaration) && final(self)@ == old(self)@,
            names(listens@).no_duplicates() && names(emits@).no_duplicates() ==> {
                let opened = old(self)@.opened(name@, names(listens@), names(emits@));
                &&& opened.staged().acyclic() ==> r is Ok && final(self)@ == opened.committed()
                &&& !opened.staged().acyclic() ==> final(self)@ == old(self)@ && (r matches Err(
                    SubscribeError::RecursionDetected { chain, handlers },
                ) && first_cycle(opened.staged()) == Some(names(chain@)) && names_each(handlers@)
                    == hops(
                    opened.channels,
                    opened.staged_listens(),
                    opened.staged_emits(),
                    names(chain@),
                ))
            },
    {
        let ghost before = self@;
        self.prepare_construction(name);
        let ghost fresh = self@;
        proof {
            assert(fresh.abandoned().active =~= before.active);
            assert(fresh.abandoned() == before);
        }
        match self.register_all(emits, false) {
            Err(e) => {
                self.abandon_construction();
                return Err(SubscribeError::DuplicateDeclaration);
            },
            Ok(()) => {},
        }
        let ghost half = self@;
        proof {
            assert(half.active.last().listens.len() == 0);
        }
        match self.register_all(listens, true) {
            Err(e) => {
                self.abandon_construction();
                return Err(SubscribeError::DuplicateDeclaration);
            },
            Ok(()) => {},
        }
        proof {
            let opened = before.opened(name@, names(listens@), names(emits@));
            assert(self@.active =~= opened.active);
            assert(self@ == opened);
            assert(opened.abandoned() == before);
        }
        self.finish_construction()
    }
}

/// A subscription is refused where a channel that it emits into already
/// reaches one that it listens on, and where it listens on and emits into
/// one direct channel: the graph that it would leave has a cycle.
pub proof fn lemma_back_edge_refused(reg: Registry, x: Seq<char>, y: Seq<char>)
    requires
        reg.wf(),
        reg.active.len() > 0,
        reg.active.last().listens.contains(x),
        reg.active.last().emits.contains(y),
        reg.graph.reaches(y, x) || (x == y && reg.direct(x)),
    ensures
        !reg.staged().acyclic(),
{
    let f = reg.active.last();
    let g = reg.graph;
    let h = reg.staged();
    lemma_stage(reg, g, f.listens, f.listens.len(), f.emits);
    if g.reaches(y, x) {
        let p = choose|p: Seq<Seq<char>>|
            p.len() >= 2 && #[trigger] g.is_path(p) && p[0] == y && p.last() == x;
        assert(g.edge(p[0], p[1]));
        assert(g.edge(p[p.len() - 2], p[p.len() - 1]));
        lemma_reaches_grows(g, h, y, x);
    }
    let i = f.listens.index_of(x);
    let j = f.emits.index_of(y);
    assert(reg.adds(f.listens, f.listens.len() as int, f.emits, x, y));
    assert(h.edge(x, y));
    lemma_reaches_step(h, x, y, x);
}

/// The staged graph rests on the channels and their types alone.
pub proof fn lemma_stage_same(
    a: Registry,
    b: Registry,
    g: Graph,
    listens: Seq<Seq<char>>,
    m: nat,
    emits: Seq<Seq<char>>,
)
    requires
        a.channels == b.channels,
        a.kinds == b.kinds,
    ensures
        a.stage(g, listens, m, emits) == b.stage(g, listens, m, emits),
    decreases m,
{
    if m > 0 {
        lemma_stage_same(a, b, g, listens, (m - 1) as nat, emits);
        lemma_stage_row_same(
            a,
            b,
            a.stage(g, listens, (m - 1) as nat, emits),
            listens[m - 1],
            emits,
            emits.len(),
        );
    }
}

/// The edges from one listened channel rest on the channels and their
/// types alone.
pub proof fn lemma_stage_row_same(
    a: Registry,
    b: Registry,
    g: Graph,
    l: Seq<char>,
    emits: Seq<Seq<char>>,
    n: nat,
)
    requires
        a.channels == b.channels,
        a.kinds == b.kinds,
    ensures
        a.stage_row(g, l, emits, n) == b.stage_row(g, l, emits, n),
    decreases n,
{
    if n > 0 {
        lemma_stage_row_same(a, b, g, l, emits, (n - 1) as nat);
    }
}

/// Giving up the innermost subscription leaves the manager in order.
pub proof fn lemma_abandoned(reg: Registry)
    requires
        reg.wf(),
        reg.active.len() > 0,
    ensures
        reg.abandoned().wf(),
{
    let next = reg.abandoned();
    assert forall|i: int| 0 <= i < next.active.len() implies {
        let g = #[trigger] next.active[i];
        &&& g.listens.no_duplicates()
        &&& g.emits.no_duplicates()
        &&& forall|j: int| 0 <= j < g.listens.len() ==> next.declared(#[trigger] g.listens[j])
        &&& forall|j: int| 0 <= j < g.emits.len() ==> next.declared(#[trigger] g.emits[j])
    } by {
        assert(next.active[i] == reg.active[i]);
    }
}

/// Taking in the innermost subscription leaves the manager in order,
/// where the graph that it leaves has no cycle.
pub proof fn lemma_committed(reg: Registry)
    requires
        reg.wf(),
        reg.active.len() > 0,
        reg.staged().acyclic(),
    ensures
        reg.committed().wf(),
{
    let next = reg.committed();
    let f = reg.active.last();
    lemma_abandoned(reg);
    lemma_stage(reg, reg.graph, f.listens, f.listens.len(), f.emits);
    assert forall|i: int| 0 <= i < next.active.len() implies {
        let g = #[trigger] next.active[i];
        &&& g.listens.no_duplicates()
        &&& g.emits.no_duplicates()
        &&& forall|j: int| 0 <= j < g.listens.len() ==> next.declared(#[trigger] g.listens[j])
        &&& forall|j: int| 0 <= j < g.emits.len() ==> next.declared(#[trigger] g.emits[j])
    } by {
        assert(next.active[i] == reg.active[i]);
    }
    assert forall|i: int| 0 <= i < next.listens.len() implies ascending(
        #[trigger] next.listens[i],
    ) by {
        if !reg.listens[i].contains(f.name) {
            lemma_insert_ascending(reg.listens[i], f.name);
        }
    }
    assert forall|i: int| 0 <= i < next.emits.len() implies ascending(#[trigger] next.emits[i]) by {
        if !reg.emits[i].contains(f.name) {
            lemma_insert_ascending(reg.emits[i], f.name);
        }
    }
    assert forall|n: Seq<char>| #[trigger] next.graph.keys.contains(n) implies next.direct(n) by {
        if reg.graph.keys.contains(n) {
            assert(reg.direct(n));
        }
    }
    assert forall|a: Seq<char>, b: Seq<char>| #[trigger] next.graph.edge(a, b) implies next.direct(
        a,
    ) && next.direct(b) by {
        if reg.graph.edge(a, b) {
            assert(reg.direct(a) && reg.direct(b));
        }
    }
}

/// Another innermost frame, of declared channels and none twice, leaves the
/// manager in order.
pub proof fn lemma_with_top(reg: Registry, f: Frame)
    requires
        reg.wf(),
        reg.active.len() > 0,
        f.listens.no_duplicates(),
        f.emits.no_duplicates(),
        forall|j: int| 0 <= j < f.listens.len() ==> reg.declared(#[trigger] f.listens[j]),
        forall|j: int| 0 <= j < f.emits.len() ==> reg.declared(#[trigger] f.emits[j]),
    ensures
        reg.with_top(f).wf(),
{
    let next = reg.with_top(f);
    assert forall|i: int| 0 <= i < next.active.len() implies {
        let g = #[trigger] next.active[i];
        &&& g.listens.no_duplicates()
        &&& g.emits.no_duplicates()
        &&& forall|j: int| 0 <= j < g.listens.len() ==> next.declared(#[trigger] g.listens[j])
        &&& forall|j: int| 0 <= j < g.emits.len() ==> next.declared(#[trigger] g.emits[j])
    } by {
        if i < reg.active.len() - 1 {
            assert(next.active[i] == reg.active[i]);
        }
    }
}

/// A new channel leaves the declared ones as they were.
pub proof fn lemma_with_channel(reg: Registry, name: Seq<char>, kind: ChannelType)
    requires
        reg.wf(),
        !reg.declared(name),
    ensures
        reg.with_channel(name, kind).wf(),
        forall|n: Seq<char>|
            reg.declared(n) ==> #[trigger] reg.with_channel(name, kind).declared(n)
                && reg.with_channel(name, kind).direct(n) == reg.direct(n),
{
    let next = reg.with_channel(name, kind);
    assert forall|n: Seq<char>| reg.declared(n) implies #[trigger] next.declared(n) && next.direct(
        n,
    ) == reg.direct(n) by {
        let i = reg.channels.index_of(n);
        assert(next.channels[i] == n);
        assert(next.channels.index_of(n) == i);
    }
    assert forall|i: int| 0 <= i < next.listens.len() implies ascending(
        #[trigger] next.listens[i],
    ) by {
        if i < reg.listens.len() {
            assert(next.listens[i] == reg.listens[i]);
        }
    }
    assert forall|i: int| 0 <= i < next.emits.len() implies ascending(#[trigger] next.emits[i]) by {
        if i < reg.emits.len() {
            assert(next.emits[i] == reg.emits[i]);
        }
    }
    assert forall|i: int| 0 <= i < next.active.len() implies {
        let f = #[trigger] next.active[i];
        &&& f.listens.no_duplicates()
        &&& f.emits.no_duplicates()
        &&& forall|j: int| 0 <= j < f.listens.len() ==> next.declared(#[trigger] f.listens[j])
        &&& forall|j: int| 0 <= j < f.emits.len() ==> next.declared(#[trigger] f.emits[j])
    } by {
        let f = reg.active[i];
        assert forall|j: int| 0 <= j < f.listens.len() implies next.declared(
            #[trigger] f.listens[j],
        ) by {
            assert(reg.declared(f.listens[j]));
        }
        assert forall|j: int| 0 <= j < f.emits.len() implies next.declared(
            #[trigger] f.emits[j],
        ) by {
            assert(reg.declared(f.emits[j]));
        }
    }
    assert forall|n: Seq<char>| #[trigger] next.graph.keys.contains(n) implies next.direct(n) by {
        assert(reg.direct(n));
        assert(next.declared(n));
    }
    assert forall|a: Seq<char>, b: Seq<char>| #[trigger] next.graph.edge(a, b) implies next.direct(
        a,
    ) && next.direct(b) by {
        assert(reg.direct(a) && reg.direct(b));
        assert(next.declared(a) && next.declared(b));
    }
}

/// What the edges from one listened channel add to a graph.
pub proof fn lemma_stage_row(reg: Registry, g: Graph, l: Seq<char>, emits: Seq<Seq<char>>, n: nat)
    requires
        g.wf(),
        g.tidy(),
        n <= emits.len(),
    ensures
        reg.stage_row(g, l, emits, n).wf(),
        reg.stage_row(g, l, emits, n).tidy(),
        forall|k: Seq<char>| #[trigger]
            reg.stage_row(g, l, emits, n).keys.contains(k) <==> k == l || g.keys.contains(k),
        forall|a: Seq<char>, b: Seq<char>| #[trigger]
            reg.stage_row(g, l, emits, n).edge(a, b) <==> g.edge(a, b) || (a == l && reg.direct(b)
                && exists|j: int| 0 <= j < n && #[trigger] emits[j] == b),
    decreases n,
{
    let h = reg.stage_row(g, l, emits, n);
    if n == 0 {
        lemma_extended_empty(g, l);
    } else {
        let before = reg.stage_row(g, l, emits, (n - 1) as nat);
        lemma_stage_row(reg, g, l, emits, (n - 1) as nat);
        let e = emits[n - 1];
        if reg.direct(e) {
            lemma_linked_edges(before, l, e);
        }
        assert forall|a: Seq<char>, b: Seq<char>| #[trigger]
            h.edge(a, b) <==> g.edge(a, b) || (a == l && reg.direct(b) && exists|j: int|
                0 <= j < n && #[trigger] emits[j] == b) by {
            if before.edge(a, b) && !g.edge(a, b) {
                let j = choose|j: int| 0 <= j < n - 1 && #[trigger] emits[j] == b;
                assert(0 <= j < n && emits[j] == b);
            }
            if a == l && reg.direct(b) && exists|j: int| 0 <= j < n && #[trigger] emits[j] == b {
                let j = choose|j: int| 0 <= j < n && #[trigger] emits[j] == b;
                if j < n - 1 {
                    assert(before.edge(a, b));
                }
            }
        }
    }
}

/// What a subscription adds to a graph: an edge from each direct channel
/// that it listens on to each direct channel that it emits into.
pub proof fn lemma_stage(reg: Registry, g: Graph, listens: Seq<Seq<char>>, m: nat, emits: Seq<Seq<char>>)
    requires
        g.wf(),
        g.tidy(),
        m <= listens.len(),
    ensures
        reg.stage(g, listens, m, emits).wf(),
        reg.stage(g, listens, m, emits).tidy(),
        forall|k: Seq<char>| #[trigger]
            reg.stage(g, listens, m, emits).keys.contains(k) ==> g.keys.contains(k) || reg.direct(
                k,
            ),
        forall|a: Seq<char>, b: Seq<char>| #[trigger]
            reg.stage(g, listens, m, emits).edge(a, b) <==> g.edge(a, b) || reg.adds(
                listens,
                m as int,
                emits,
                a,
                b,
            ),
    decreases m,
{
    let h = reg.stage(g, listens, m, emits);
    if m > 0 {
        let before = reg.stage(g, listens, (m - 1) as nat, emits);
        lemma_stage(reg, g, listens, (m - 1) as nat, emits);
        let l = listens[m - 1];
        if reg.direct(l) {
            lemma_stage_row(reg, before, l, emits, emits.len());
        }
        assert forall|a: Seq<char>, b: Seq<char>| #[trigger]
            h.edge(a, b) <==> g.edge(a, b) || reg.adds(listens, m as int, emits, a, b) by {
            if reg.adds(listens, m - 1, emits, a, b) {
                let i = choose|i: int| 0 <= i < m - 1 && i < listens.len() && #[trigger] listens[i] == a;
                assert(0 <= i < m && listens[i] == a);
            }
            if reg.adds(listens, m as int, emits, a, b) {
                let i = choose|i: int| 0 <= i < m && i < listens.len() && #[trigger] listens[i] == a;
                if i < m - 1 {
                    assert(reg.adds(listens, m - 1, emits, a, b));
                } else {
                    assert(a == l);
                }
            }
            if h.edge(a, b) && !before.edge(a, b) {
                assert(a == l);
                assert(listens[m - 1] == a);
            }
        }
    }
}

/// A graph without parents has no edge and no cycle.
pub proof fn lemma_empty_graph(g: Graph)
    requires
        g.keys.len() == 0,
    ensures
        g.acyclic(),
        forall|a: Seq<char>, b: Seq<char>| !g.edge(a, b),
{
    assert forall|n: Seq<char>| !g.reaches(n, n) by {
        if g.reaches(n, n) {
            let p = choose|p: Seq<Seq<char>>|
                p.len() >= 2 && #[trigger] g.is_path(p) && p[0] == n && p.last() == n;
            assert(g.edge(p[0], p[1]));
        }
    }
}

} // verus!
