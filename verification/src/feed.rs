//! Poll-based backward channels.
//!
//! A feed carries items from a handler back to the handlers that called it,
//! which fetch them when they want. Each receiver has a queue of its own:
//! what the sender feeds is cloned into the queue of every receiver that is
//! enabled.

use vstd::prelude::*;
use std::collections::VecDeque;
use crate::mng::{ChannelType, Manager, Registry, SubscribeError};

verus! {

/// A feed as contracts see it.
pub struct Feeds<T> {
    /// How many items a queue can hold.
    pub max_size: usize,
    /// The queue of each receiver, the oldest item first.
    pub queues: Seq<Seq<T>>,
    /// The receivers that are enabled, in the order in which they are fed.
    pub enabled: Seq<usize>,
}

/// The indices of `s` without `id`, in their order.
pub open spec fn dropped(s: Seq<usize>, id: usize) -> Seq<usize>
    decreases s.len(),
{
    if s.len() == 0 {
        s
    } else if s.last() == id {
        dropped(s.drop_last(), id)
    } else {
        dropped(s.drop_last(), id).push(s.last())
    }
}

/// What is left without `id` holds what was there before, but `id`.
pub proof fn lemma_dropped_holds(s: Seq<usize>, id: usize, x: usize)
    ensures
        dropped(s, id).contains(x) <==> s.contains(x) && x != id,
    decreases s.len(),
{
    if s.len() > 0 {
        let front = s.drop_last();
        let last = s.last();
        let d = dropped(s, id);
        let df = dropped(front, id);
        lemma_dropped_holds(front, id, x);
        assert(s.contains(x) <==> front.contains(x) || last == x) by {
            if s.contains(x) {
                let j = choose|j: int| 0 <= j < s.len() && s[j] == x;
                if j < front.len() {
                    assert(front[j] == x);
                }
            }
            if front.contains(x) {
                let j = choose|j: int| 0 <= j < front.len() && front[j] == x;
                assert(s[j] == x);
            }
            if last == x {
                assert(s[s.len() - 1] == x);
            }
        }
        if last != id {
            assert(d.contains(x) <==> df.contains(x) || last == x) by {
                if d.contains(x) {
                    let j = choose|j: int| 0 <= j < d.len() && d[j] == x;
                    if j < df.len() {
                        assert(df[j] == x);
                    }
                }
                if df.contains(x) {
                    let j = choose|j: int| 0 <= j < df.len() && df[j] == x;
                    assert(d[j] == x);
                }
                if last == x {
                    assert(d[d.len() - 1] == x);
                }
            }
        }
    }
}

/// Where nothing stands twice, nothing stands twice in what is left, and
/// one entry or none is gone.
pub proof fn lemma_dropped(s: Seq<usize>, id: usize)
    requires
        s.no_duplicates(),
    ensures
        dropped(s, id).no_duplicates(),
        dropped(s, id).len() == if s.contains(id) {
            s.len() - 1
        } else {
            s.len() as int
        },
    decreases s.len(),
{
    if s.len() > 0 {
        let front = s.drop_last();
        let last = s.last();
        let d = dropped(s, id);
        let df = dropped(front, id);
        assert forall|i: int, j: int| 0 <= i < front.len() && 0 <= j < front.len() && i
            != j implies front[i] != front[j] by {
            assert(front[i] == s[i] && front[j] == s[j]);
        }
        lemma_dropped(front, id);
        lemma_dropped_holds(front, id, last);
        assert(!front.contains(last)) by {
            if front.contains(last) {
                let j = choose|j: int| 0 <= j < front.len() && front[j] == last;
                assert(s[j] == s[s.len() - 1]);
            }
        }
        assert(s.contains(id) <==> front.contains(id) || last == id) by {
            if s.contains(id) {
                let j = choose|j: int| 0 <= j < s.len() && s[j] == id;
                if j < front.len() {
                    assert(front[j] == id);
                }
            }
            if front.contains(id) {
                let j = choose|j: int| 0 <= j < front.len() && front[j] == id;
                assert(s[j] == id);
            }
            if last == id {
                assert(s[s.len() - 1] == id);
            }
        }
        if last != id {
            assert forall|i: int, j: int| 0 <= i < d.len() && 0 <= j < d.len() && i != j implies d[i]
                != d[j] by {
                if i < df.len() && j < df.len() {
                    assert(d[i] == df[i] && d[j] == df[j]);
                } else if i < df.len() {
                    assert(d[i] == df[i]);
                    assert(df.contains(df[i]));
                } else {
                    assert(d[j] == df[j]);
                    assert(df.contains(df[j]));
                }
            }
        }
    }
}

impl<T> Feeds<T> {
    /// Every enabled receiver has a queue, and none is enabled twice.
    pub open spec fn wf(self) -> bool {
        &&& self.enabled.no_duplicates()
        &&& forall|k: int| 0 <= k < self.enabled.len() ==> (#[trigger] self.enabled[k]) < self.queues.len()
    }

    /// The queue of every enabled receiver has room for one item more.
    pub open spec fn has_room(self) -> bool {
        forall|k: int|
            0 <= k < self.enabled.len() ==> self.queues[(#[trigger] self.enabled[k]) as int].len()
                < self.max_size
    }
}

/// Feedback mechanism to provide data to handlers higher up in the graph.
pub struct Feed<T> {
    max_size: usize,
    name: &'static str,
    queues: Vec<VecDeque<T>>,
    enabled: Vec<usize>,
}

impl<T> View for Feed<T> {
    type V = Feeds<T>;

    closed spec fn view(&self) -> Feeds<T> {
        Feeds {
            max_size: self.max_size,
            queues: self.queues@.map_values(|q: VecDeque<T>| q@),
            enabled: self.enabled@,
        }
    }
}

/// Sender part of [`Feed`].
pub struct Feeder {
    max_size: usize,
}

/// Receiver part of [`Feed`].
pub struct Feedee {
    id: usize,
}

impl View for Feedee {
    type V = usize;

    closed spec fn view(&self) -> usize {
        self.id
    }
}

/// A copy of some indices without `id`.
fn drop_id(v: &Vec<usize>, id: usize) -> (r: Vec<usize>)
    ensures
        r@ == dropped(v@, id),
{
    let mut out: Vec<usize> = Vec::new();
    let mut i: usize = 0;
    assert(v@.subrange(0, 0) =~= Seq::<usize>::empty());
    while i < v.len()
        invariant
            i <= v@.len(),
            out@ == dropped(v@.subrange(0, i as int), id),
        decreases v@.len() - i,
    {
        assert(v@.subrange(0, i + 1).drop_last() =~= v@.subrange(0, i as int));
        if v[i] != id {
            out.push(v[i]);
        }
        i += 1;
    }
    assert(v@.subrange(0, v@.len() as int) =~= v@);
    out
}

impl<T> Feed<T> {
    /// Every enabled receiver has a queue, and none is enabled twice.
    pub closed spec fn wf(&self) -> bool {
        self@.wf()
    }

    /// The name under which the feed is declared.
    pub closed spec fn name(&self) -> Seq<char> {
        self.name@
    }

    /// A feed that is in order shows so to contracts.
    pub proof fn lemma_wf(&self)
        requires
            self.wf(),
        ensures
            self@.wf(),
    {
    }

    /// Create a new feed, declared with the manager as a channel that is
    /// fetched from.
    pub fn new(name: &'static str, manager: &mut Manager, max_size: usize) -> (r: Result<
        Self,
        SubscribeError,
    >)
        requires
            old(manager).wf(),
        ensures
            final(manager).wf(),
            old(manager)@.declared(name@) ==> (r matches Err(SubscribeError::DuplicateChannelName)
                && final(manager)@ == old(manager)@),
            !old(manager)@.declared(name@) ==> (r matches Ok(feed) && feed.wf() && feed.name()
                == name@ && feed@ == (Feeds::<T> {
                max_size,
                queues: Seq::empty(),
                enabled: Seq::empty(),
            }) && final(manager)@ == old(manager)@.with_channel(name@, ChannelType::Feed)),
    {
        match manager.ensure_new(name, ChannelType::Feed) {
            Err(e) => Err(SubscribeError::DuplicateChannelName),
            Ok(()) => {
                let feed = Feed { max_size, name, queues: Vec::new(), enabled: Vec::new() };
                assert(feed@.queues =~= Seq::<Seq<T>>::empty());
                Ok(feed)
            },
        }
    }

    /// Create a feed sender, for the handler whose subscription is under
    /// way.
    pub fn feeder(&self, manager: &mut Manager) -> (r: Result<Feeder, SubscribeError>)
        requires
            old(manager).wf(),
            old(manager)@.active.len() > 0,
            old(manager)@.declared(self.name()),
        ensures
            final(manager).wf(),
            old(manager)@.active.last().emits.contains(self.name()) ==> (r matches Err(
                SubscribeError::DuplicateDeclaration,
            ) && final(manager)@ == old(manager)@),
            !old(manager)@.active.last().emits.contains(self.name()) ==> (r is Ok && final(manager)@ == old(manager)@.with_top(
                crate::mng::Frame {
                    emits: old(manager)@.active.last().emits.push(self.name()),
                    ..old(manager)@.active.last()
                },
            )),
    {
        match manager.register_emit(self.name) {
            Err(e) => Err(SubscribeError::DuplicateDeclaration),
            Ok(()) => Ok(Feeder { max_size: self.max_size }),
        }
    }

    /// Create a feed receiver, for the handler whose subscription is under
    /// way.
    ///
    /// Each receiver has its own queue, empty at first, and is enabled.
    pub fn feedee(&mut self, manager: &mut Manager) -> (r: Result<Feedee, SubscribeError>)
        requires
            old(self).wf(),
            old(manager).wf(),
            old(manager)@.active.len() > 0,
            old(manager)@.declared(old(self).name()),
        ensures
            final(self).wf(),
            final(self).name() == old(self).name(),
            final(manager).wf(),
            old(manager)@.active.last().listens.contains(old(self).name()) ==> (r matches Err(
                SubscribeError::DuplicateDeclaration,
            ) && final(manager)@ == old(manager)@ && final(self)@ == old(self)@),
            !old(manager)@.active.last().listens.contains(old(self).name()) ==> (r matches Ok(
                feedee,
            ) && feedee@ == old(self)@.queues.len() && final(self)@ == (Feeds {
                max_size: old(self)@.max_size,
                queues: old(self)@.queues.push(Seq::empty()),
                enabled: old(self)@.enabled.push(feedee@),
            }) && final(manager)@ == old(manager)@.with_top(
                crate::mng::Frame {
                    listens: old(manager)@.active.last().listens.push(old(self).name()),
                    ..old(manager)@.active.last()
                },
            )),
    {
        let ghost before = self@;
        match manager.register_listen(self.name) {
            Err(e) => Err(SubscribeError::DuplicateDeclaration),
            Ok(()) => {
                let id = self.queues.len();
                self.queues.push(VecDeque::new());
                self.enabled.push(id);
                proof {
                    assert(self@.queues =~= before.queues.push(Seq::empty()));
                    assert forall|i: int, j: int|
                        0 <= i < self@.enabled.len() && 0 <= j < self@.enabled.len() && i
                            != j implies self@.enabled[i] != self@.enabled[j] by {
                        if i < before.enabled.len() {
                            assert(self@.enabled[i] == before.enabled[i]);
                        }
                        if j < before.enabled.len() {
                            assert(self@.enabled[j] == before.enabled[j]);
                        }
                    }
                    assert forall|k: int| 0 <= k < self@.enabled.len() implies (
                    #[trigger] self@.enabled[k]) < self@.queues.len() by {
                        if k < before.enabled.len() {
                            assert(self@.enabled[k] == before.enabled[k]);
                        }
                    }
                }
                Ok(Feedee { id })
            },
        }
    }

    /// Puts an item at the end of one queue.
    fn push_to(&mut self, id: usize, item: T)
        requires
            id < old(self)@.queues.len(),
        ensures
            final(self).name() == old(self).name(),
            final(self)@ == (Feeds {
                queues: old(self)@.queues.update(
                    id as int,
                    old(self)@.queues[id as int].push(item),
                ),
                ..old(self)@
            }),
    {
        let queue = &mut self.queues[id];
        queue.push_back(item);
        proof {
            assert(self@.queues =~= old(self)@.queues.update(
                id as int,
                old(self)@.queues[id as int].push(item),
            ));
        }
    }
}

impl Feeder {
    /// Push an item to the feed.
    ///
    /// All enabled [`Feedee`]s of the feed have a clone of the item pushed
    /// onto their queues, the last of them the item itself.
    pub fn feed<T: Clone>(&self, feed: &mut Feed<T>, item: T)
        requires
            old(feed).wf(),
            old(feed)@.has_room(),
        ensures
            final(feed).wf(),
            final(feed).name() == old(feed).name(),
            final(feed)@.max_size == old(feed)@.max_size,
            final(feed)@.enabled == old(feed)@.enabled,
            final(feed)@.queues.len() == old(feed)@.queues.len(),
            forall|q: usize|
                q < old(feed)@.queues.len() && !old(feed)@.enabled.contains(q)
                    ==> #[trigger] final(feed)@.queues[q as int] == old(feed)@.queues[q as int],
            forall|k: int|
                0 <= k < old(feed)@.enabled.len() ==> {
                    let q = (#[trigger] old(feed)@.enabled[k]) as int;
                    &&& final(feed)@.queues[q].len() == old(feed)@.queues[q].len() + 1
                    &&& final(feed)@.queues[q].drop_last() == old(feed)@.queues[q]
                    &&& if k == old(feed)@.enabled.len() - 1 {
                        final(feed)@.queues[q].last() == item
                    } else {
                        cloned(item, final(feed)@.queues[q].last())
                    }
                },
    {
        let ghost before = feed@;
        let n = feed.enabled.len();
        if n == 0 {
            return;
        }
        let mut k: usize = 0;
        while k < n - 1
            invariant
                k <= n - 1,
                n == before.enabled.len(),
                before == old(feed)@,
                before.wf(),
                feed.name() == old(feed).name(),
                feed@.max_size == before.max_size,
                feed@.enabled == before.enabled,
                feed@.queues.len() == before.queues.len(),
                forall|q: usize|
                    q < before.queues.len() && !before.enabled.subrange(0, k as int).contains(q)
                        ==> #[trigger] feed@.queues[q as int] == before.queues[q as int],
                forall|j: int|
                    0 <= j < k ==> {
                        let q = (#[trigger] before.enabled[j]) as int;
                        &&& feed@.queues[q].len() == before.queues[q].len() + 1
                        &&& feed@.queues[q].drop_last() == before.queues[q]
                        &&& cloned(item, feed@.queues[q].last())
                    },
            decreases n - 1 - k,
        {
            let id = feed.enabled[k];
            let ghost was = feed@;
            let copy = item.clone();
            feed.push_to(id, copy);
            proof {
                lemma_fed(before, was, feed@, k as int, copy);
            }
            k += 1;
        }
        let id = feed.enabled[n - 1];
        let ghost was = feed@;
        feed.push_to(id, item);
        proof {
            lemma_fed(before, was, feed@, n - 1, item);
            assert(before.enabled.subrange(0, n as int) =~= before.enabled);
        }
    }
}

/// One more queue fed leaves the others as they were.
proof fn lemma_fed<T>(before: Feeds<T>, was: Feeds<T>, now: Feeds<T>, k: int, item: T)
    requires
        before.wf(),
        0 <= k < before.enabled.len(),
        was.queues.len() == before.queues.len(),
        now.queues == was.queues.update(
            before.enabled[k] as int,
            was.queues[before.enabled[k] as int].push(item),
        ),
        forall|q: usize|
            q < before.queues.len() && !before.enabled.subrange(0, k).contains(q)
                ==> #[trigger] was.queues[q as int] == before.queues[q as int],
    ensures
        forall|q: usize|
            q < before.queues.len() && !before.enabled.subrange(0, k + 1).contains(q)
                ==> #[trigger] now.queues[q as int] == before.queues[q as int],
        forall|j: int|
            0 <= j < k ==> now.queues[(#[trigger] before.enabled[j]) as int] == was.queues[before.enabled[j] as int],
        now.queues[before.enabled[k] as int].len() == before.queues[before.enabled[k] as int].len()
            + 1,
        now.queues[before.enabled[k] as int].drop_last() == before.queues[before.enabled[k] as int],
        now.queues[before.enabled[k] as int].last() == item,
{
    let id = before.enabled[k];
    let seen = before.enabled.subrange(0, k);
    let more = before.enabled.subrange(0, k + 1);
    assert(!seen.contains(id)) by {
        if seen.contains(id) {
            let j = seen.index_of(id);
            assert(before.enabled[j] == id);
        }
    }
    assert(was.queues[id as int] == before.queues[id as int]);
    assert(now.queues[id as int].drop_last() =~= before.queues[id as int]);
    assert forall|q: usize| q < before.queues.len() && !more.contains(q) implies #[trigger] now.queues[q as int]
        == before.queues[q as int] by {
        assert(more[k] == id);
        if seen.contains(q) {
            let j = seen.index_of(q);
            assert(more[j] == q);
        }
    }
    assert forall|j: int| 0 <= j < k implies now.queues[(#[trigger] before.enabled[j]) as int]
        == was.queues[before.enabled[j] as int] by {
        assert(before.enabled[j] != id);
    }
}

impl Feedee {
    /// Get an item from the front of the queue.
    pub fn pop<T>(&mut self, feed: &mut Feed<T>) -> (r: Option<T>)
        requires
            old(feed).wf(),
            old(self)@ < old(feed)@.queues.len(),
        ensures
            final(self)@ == old(self)@,
            final(feed).wf(),
            final(feed).name() == old(feed).name(),
            old(feed)@.queues[old(self)@ as int].len() == 0 ==> r is None && final(feed)@ == old(feed)@,
            old(feed)@.queues[old(self)@ as int].len() > 0 ==> r == Some(
                old(feed)@.queues[old(self)@ as int][0],
            ) && final(feed)@ == (Feeds {
                queues: old(feed)@.queues.update(
                    old(self)@ as int,
                    old(feed)@.queues[old(self)@ as int].drop_first(),
                ),
                ..old(feed)@
            }),
    {
        let ghost before = feed@;
        let queue = &mut feed.queues[self.id];
        let r = queue.pop_front();
        proof {
            if before.queues[self.id as int].len() == 0 {
                assert(feed@.queues =~= before.queues);
            } else {
                assert(feed@.queues =~= before.queues.update(
                    self.id as int,
                    before.queues[self.id as int].drop_first(),
                ));
            }
        }
        r
    }

    /// Enable this receiver: it is fed after all that are enabled.
    ///
    /// Feedees are enabled by default.
    ///
    /// Returns true if the state changed from disabled to enabled.
    pub fn enable<T>(&mut self, feed: &mut Feed<T>) -> (r: bool)
        requires
            old(feed).wf(),
            old(self)@ < old(feed)@.queues.len(),
        ensures
            final(self)@ == old(self)@,
            final(feed).wf(),
            final(feed).name() == old(feed).name(),
            r == !old(feed)@.enabled.contains(old(self)@),
            final(feed)@ == (Feeds {
                enabled: dropped(old(feed)@.enabled, old(self)@).push(old(self)@),
                ..old(feed)@
            }),
    {
        let ghost before = feed@;
        let len_before = feed.enabled.len();
        let mut others = drop_id(&feed.enabled, self.id);
        proof {
            lemma_dropped(before.enabled, self.id);
        }
        others.push(self.id);
        let len_after = others.len();
        proof {
            let d = dropped(before.enabled, self.id);
            assert forall|i: int, j: int|
                0 <= i < others@.len() && 0 <= j < others@.len() && i != j implies others@[i]
                != others@[j] by {
                if i < d.len() {
                    assert(d[i] == others@[i]);
                    lemma_dropped_holds(before.enabled, self.id, d[i]);
                }
                if j < d.len() {
                    assert(d[j] == others@[j]);
                    lemma_dropped_holds(before.enabled, self.id, d[j]);
                }
            }
            assert forall|k: int| 0 <= k < others@.len() implies (#[trigger] others@[k])
                < before.queues.len() by {
                if k < d.len() {
                    assert(d[k] == others@[k]);
                    lemma_dropped_holds(before.enabled, self.id, d[k]);
                    let m = before.enabled.index_of(d[k]);
                    assert(before.enabled[m] < before.queues.len());
                }
            }
        }
        feed.enabled = others;
        len_before != len_after
    }

    /// Disable this receiver. The [`Feeder`] will not push data to its
    /// queue.
    ///
    /// Returns true if the state changed from enabled to disabled.
    pub fn disable<T>(&mut self, feed: &mut Feed<T>) -> (r: bool)
        requires
            old(feed).wf(),
        ensures
            final(self)@ == old(self)@,
            final(feed).wf(),
            final(feed).name() == old(feed).name(),
            r == old(feed)@.enabled.contains(old(self)@),
            final(feed)@ == (Feeds {
                enabled: dropped(old(feed)@.enabled, old(self)@),
                ..old(feed)@
            }),
    {
        let ghost before = feed@;
        let len_before = feed.enabled.len();
        let others = drop_id(&feed.enabled, self.id);
        let len_after = others.len();
        proof {
            lemma_dropped(before.enabled, self.id);
            let d = dropped(before.enabled, self.id);
            assert forall|k: int| 0 <= k < d.len() implies (#[trigger] d[k]) < before.queues.len() by {
                lemma_dropped_holds(before.enabled, self.id, d[k]);
                let m = before.enabled.index_of(d[k]);
                assert(before.enabled[m] < before.queues.len());
            }
        }
        feed.enabled = others;
        len_before != len_after
    }
}

} // verus!
