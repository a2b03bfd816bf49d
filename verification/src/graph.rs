//! A description of which handler calls which, for a tool that draws graphs.

use vstd::prelude::*;
use vstd::string::StringExecFns;
use crate::mng::{common, intersect, names_each, ChannelType, Manager};
use crate::rec::{Graph, Recursion};
use crate::text::{join, joined, names, position, quote, quoted};

verus! {

/// One decimal digit as text.
pub open spec fn digit_text(d: int) -> Seq<char> {
    if d == 0 {
        "0"@
    } else if d == 1 {
        "1"@
    } else if d == 2 {
        "2"@
    } else if d == 3 {
        "3"@
    } else if d == 4 {
        "4"@
    } else if d == 5 {
        "5"@
    } else if d == 6 {
        "6"@
    } else if d == 7 {
        "7"@
    } else if d == 8 {
        "8"@
    } else {
        "9"@
    }
}

/// A number in decimal digits.
pub open spec fn decimal(n: nat) -> Seq<char>
    decreases n,
{
    if n < 10 {
        digit_text(n as int)
    } else {
        decimal(n / 10) + digit_text((n % 10) as int)
    }
}

/// The name of the `n`-th stand-in for a caller that is no handler.
pub open spec fn anchor_name(n: usize) -> Seq<char> {
    "Anchor#"@ + decimal(n as nat)
}

/// The colour of the `k`-th arrow: six colours in turn.
pub open spec fn color_at(k: int) -> Seq<char> {
    let c = k % 6;
    if c == 0 {
        "#3D9970"@
    } else if c == 1 {
        "#85144B"@
    } else if c == 2 {
        "#0074D9"@
    } else if c == 3 {
        "#2ECC40"@
    } else if c == 4 {
        "#FF4136"@
    } else {
        "#111111"@
    }
}

/// The names of `a` that `b` does not hold, in the order of `a`.
pub open spec fn minus(a: Seq<Seq<char>>, b: Seq<Seq<char>>) -> Seq<Seq<char>>
    decreases a.len(),
{
    if a.len() == 0 {
        Seq::empty()
    } else if b.contains(a.last()) {
        minus(a.drop_last(), b)
    } else {
        minus(a.drop_last(), b).push(a.last())
    }
}

/// The channels of `s` that are direct, or those that are not.
pub open spec fn of_kind(chart: Chart, s: Seq<Seq<char>>, direct: bool) -> Seq<Seq<char>>
    decreases s.len(),
{
    if s.len() == 0 {
        Seq::empty()
    } else if chart.direct(s.last()) == direct {
        of_kind(chart, s.drop_last(), direct).push(s.last())
    } else {
        of_kind(chart, s.drop_last(), direct)
    }
}

/// An arrow from one handler to another, labelled with the channels that
/// carry the calls; dashed where they are fetched later.
pub open spec fn arrow_text(
    from: Seq<char>,
    to: Seq<char>,
    color: Seq<char>,
    items: Seq<Seq<char>>,
    dashed: bool,
) -> Seq<char> {
    "\t"@ + quoted(from) + " -> "@ + quoted(to) + "[color="@ + quoted(color) + ",fontcolor="@
        + quoted(color) + ",label=<<FONT POINT-SIZE=\"10\">"@ + joined(items, "<BR/>"@) + if dashed {
        "</FONT>>,style=\"dashed\"];\n"@
    } else {
        "</FONT>>];\n"@
    }
}

/// An unseen stand-in and an arrow from it to a handler, for the channels
/// that the handler listens on and no handler emits into.
pub open spec fn anchor_text(
    anchor: Seq<char>,
    to: Seq<char>,
    color: Seq<char>,
    items: Seq<Seq<char>>,
) -> Seq<char> {
    "\t"@ + quoted(anchor) + "[style=\"invis\"];"@ + "\t"@ + quoted(anchor) + " -> "@ + quoted(to)
        + "[arrowhead=\"diamond\",color="@ + quoted(color) + ",fontcolor="@ + quoted(color)
        + ",label=<<FONT POINT-SIZE=\"10\">"@ + joined(items, "<BR/>"@) + "</FONT>>];\n"@
}

/// The text so far, the number of arrows drawn and the next anchor number.
pub struct Pen {
    pub text: Seq<char>,
    pub arrows: int,
    pub anchor: usize,
}

/// What a grapher draws from, as contracts see it.
pub struct Chart {
    /// The channels, in the order of their declaration.
    pub channels: Seq<Seq<char>>,
    /// The type of each channel.
    pub kinds: Seq<ChannelType>,
    /// For each handler, ascending, the channels that it listens on.
    pub listens: Graph,
    /// For each handler, ascending, the channels that it emits into.
    pub emits: Graph,
}

impl Pen {
    /// The pen after an arrow with `items`, if there are any.
    pub open spec fn arrow(
        self,
        from: Seq<char>,
        to: Seq<char>,
        items: Seq<Seq<char>>,
        dashed: bool,
    ) -> Pen {
        if items.len() == 0 {
            self
        } else {
            Pen {
                text: self.text + arrow_text(from, to, color_at(self.arrows), items, dashed),
                arrows: self.arrows + 1,
                anchor: self.anchor,
            }
        }
    }
}

/// Two more, up to the limit.
pub open spec fn two_more(n: usize) -> usize {
    if n <= usize::MAX - 2 {
        (n + 2) as usize
    } else {
        usize::MAX
    }
}

impl Chart {
    /// `name` is a channel of the direct type.
    pub open spec fn direct(self, name: Seq<char>) -> bool {
        self.channels.contains(name) && self.channels.index_of(name) < self.kinds.len()
            && self.kinds[self.channels.index_of(name)] is Direct
    }

    /// `name` is a handler.
    pub open spec fn taken(self, name: Seq<char>) -> bool {
        self.listens.keys.contains(name) || self.emits.keys.contains(name)
    }

    /// The first anchor number from `start` on whose name no handler has;
    /// the limit if all are taken.
    pub open spec fn free_anchor(self, start: usize) -> usize
        decreases usize::MAX - start,
    {
        if start == usize::MAX || !self.taken(anchor_name(start)) {
            start
        } else {
            self.free_anchor((start + 1) as usize)
        }
    }

    /// The pen after the arrows to the `t`-th listener from the first `f`
    /// emitters: for each emitter one for the direct channels that both
    /// use, then one for the others.
    pub open spec fn arrows_to(self, pen: Pen, t: int, f: nat) -> Pen
        decreases f,
    {
        if f == 0 {
            pen
        } else {
            let before = self.arrows_to(pen, t, (f - 1) as nat);
            let shared = common(self.listens.kids[t], self.emits.kids[f - 1]);
            before.arrow(
                self.emits.keys[f - 1],
                self.listens.keys[t],
                of_kind(self, shared, true),
                false,
            ).arrow(
                self.emits.keys[f - 1],
                self.listens.keys[t],
                of_kind(self, shared, false),
                true,
            )
        }
    }

    /// The channels that the `t`-th listener listens on and none of the
    /// first `f` emitters emits into.
    pub open spec fn leftover(self, t: int, f: nat) -> Seq<Seq<char>>
        decreases f,
    {
        if f == 0 {
            self.listens.kids[t]
        } else {
            minus(self.leftover(t, (f - 1) as nat), self.emits.kids[f - 1])
        }
    }

    /// The pen after the `t`-th listener: its arrows from the emitters, and
    /// one from a stand-in if channels are left over.
    pub open spec fn listener(self, pen: Pen, t: int) -> Pen {
        let drawn = self.arrows_to(pen, t, self.emits.keys.len());
        let left = self.leftover(t, self.emits.keys.len());
        if left.len() == 0 {
            drawn
        } else {
            let number = self.free_anchor(drawn.anchor);
            Pen {
                text: drawn.text + anchor_text(
                    anchor_name(number),
                    self.listens.keys[t],
                    color_at(drawn.arrows),
                    left,
                ),
                arrows: drawn.arrows + 1,
                anchor: two_more(number),
            }
        }
    }

    /// The pen after the first `n` listeners.
    pub open spec fn listeners(self, pen: Pen, n: nat) -> Pen
        decreases n,
    {
        if n == 0 {
            pen
        } else {
            self.listener(self.listeners(pen, (n - 1) as nat), n - 1)
        }
    }

    /// The whole description.
    pub open spec fn text(self) -> Seq<char> {
        "strict digraph {\n"@ + self.listeners(
            Pen { text: Seq::empty(), arrows: 0, anchor: 0 },
            self.listens.keys.len(),
        ).text + "\n}"@
    }
}

/// The graph `g` with an edge from each of the first `n` of `handlers` to
/// `channel`.
pub open spec fn inverted_row(g: Graph, channel: Seq<char>, handlers: Seq<Seq<char>>, n: nat) -> Graph
    decreases n,
{
    if n == 0 {
        g
    } else {
        inverted_row(g, channel, handlers, (n - 1) as nat).linked(handlers[n - 1], channel)
    }
}

/// For each handler the channels in whose lists it stands, over the first
/// `m` channels: the lists turned round.
pub open spec fn inverted(channels: Seq<Seq<char>>, lists: Seq<Seq<Seq<char>>>, m: nat) -> Graph
    decreases m,
{
    if m == 0 {
        Graph { keys: Seq::empty(), kids: Seq::empty() }
    } else {
        inverted_row(
            inverted(channels, lists, (m - 1) as nat),
            channels[m - 1],
            lists[m - 1],
            lists[m - 1].len(),
        )
    }
}

/// One decimal digit as text.
fn digit(d: usize) -> (r: &'static str)
    requires
        d < 10,
    ensures
        r@ == digit_text(d as int),
{
    if d == 0 {
        "0"
    } else if d == 1 {
        "1"
    } else if d == 2 {
        "2"
    } else if d == 3 {
        "3"
    } else if d == 4 {
        "4"
    } else if d == 5 {
        "5"
    } else if d == 6 {
        "6"
    } else if d == 7 {
        "7"
    } else if d == 8 {
        "8"
    } else {
        "9"
    }
}

/// A number in decimal digits.
fn decimal_of(n: usize) -> (r: String)
    ensures
        r@ == decimal(n as nat),
    decreases n,
{
    let mut out = String::new();
    if n < 10 {
        out.append(digit(n));
        assert(out@ =~= digit_text(n as int));
    } else {
        let front = decimal_of(n / 10);
        out.append(front.as_str());
        out.append(digit(n % 10));
        assert(out@ =~= decimal((n / 10) as nat) + digit_text((n % 10) as int));
    }
    out
}

/// One of the six colours.
fn color(k: usize) -> (r: &'static str)
    requires
        k < 6,
    ensures
        r@ == color_at(k as int),
{
    if k == 0 {
        "#3D9970"
    } else if k == 1 {
        "#85144B"
    } else if k == 2 {
        "#0074D9"
    } else if k == 3 {
        "#2ECC40"
    } else if k == 4 {
        "#FF4136"
    } else {
        "#111111"
    }
}

/// The names of `a` that `b` does not hold, in the order of `a`.
fn subtract(a: &Vec<&'static str>, b: &Vec<&'static str>) -> (r: Vec<&'static str>)
    ensures
        names(r@) == minus(names(a@), names(b@)),
{
    let mut out: Vec<&'static str> = Vec::new();
    let mut i: usize = 0;
    assert(names(a@.subrange(0, 0)) =~= Seq::<Seq<char>>::empty());
    assert(names(out@) =~= Seq::<Seq<char>>::empty());
    while i < a.len()
        invariant
            i <= a@.len(),
            names(out@) == minus(names(a@.subrange(0, i as int)), names(b@)),
        decreases a@.len() - i,
    {
        let ghost seen = names(a@.subrange(0, i as int));
        let ghost more = names(a@.subrange(0, i + 1));
        proof {
            assert(more.drop_last() =~= seen);
            assert(more.last() == a@[i as int]@);
        }
        if position(b, a[i]).is_none() {
            let ghost was = out@;
            out.push(a[i]);
            assert(names(out@) =~= names(was).push(a@[i as int]@));
        }
        i += 1;
    }
    assert(a@.subrange(0, a@.len() as int) =~= a@);
    out
}

/// Wrapper structure that describes the graph of a [`Manager`].
pub struct Grapher {
    invemits: Recursion,
    invlistens: Recursion,
    channels: Vec<&'static str>,
    kinds: Vec<ChannelType>,
}

impl View for Grapher {
    type V = Chart;

    closed spec fn view(&self) -> Chart {
        Chart {
            channels: names(self.channels@),
            kinds: self.kinds@,
            listens: self.invlistens@,
            emits: self.invemits@,
        }
    }
}

impl Grapher {
    /// The handlers ascend, and each has its channels in order.
    pub closed spec fn wf(&self) -> bool {
        &&& self.invemits.wf()
        &&& self.invlistens.wf()
        &&& names(self.channels@).no_duplicates()
    }

    /// Create a new grapher.
    pub fn new(manager: &Manager) -> (r: Self)
        requires
            manager.wf(),
        ensures
            r.wf(),
            r@ == (Chart {
                channels: manager@.channels,
                kinds: manager@.kinds,
                listens: inverted(manager@.channels, manager@.listens, manager@.channels.len()),
                emits: inverted(manager@.channels, manager@.emits, manager@.channels.len()),
            }),
    {
        proof {
            manager.lemma_wf();
        }
        let declared = manager.channel_names();
        let channels = crate::text::tail(declared, 0);
        assert(channels@ =~= declared@);
        let types = manager.channel_kinds();
        let mut kinds: Vec<ChannelType> = Vec::new();
        let mut i: usize = 0;
        while i < types.len()
            invariant
                i <= types@.len(),
                kinds@ == types@.subrange(0, i as int),
            decreases types@.len() - i,
        {
            kinds.push(types[i]);
            assert(kinds@ =~= types@.subrange(0, i + 1));
            i += 1;
        }
        assert(kinds@ =~= manager@.kinds);
        Grapher {
            invemits: Self::invert(manager.channel_names(), manager.emitters()),
            invlistens: Self::invert(manager.channel_names(), manager.listeners()),
            channels,
            kinds,
        }
    }

    /// Turns the lists of handlers, one for each channel, into the lists of
    /// channels, one for each handler.
    fn invert(channels: &Vec<&'static str>, lists: &Vec<Vec<&'static str>>) -> (r: Recursion)
        requires
            channels@.len() == lists@.len(),
        ensures
            r.wf(),
            r@.tidy(),
            r@ == inverted(names(channels@), names_each(lists@), channels@.len() as nat),
    {
        let mut inverse = Recursion::default();
        let ghost cs = names(channels@);
        let ghost ls = names_each(lists@);
        proof {
            assert(inverse@ == Graph { keys: Seq::empty(), kids: Seq::empty() }) by {
                assert(inverse@.keys =~= Seq::<Seq<char>>::empty());
                assert(inverse@.kids =~= Seq::<Seq<Seq<char>>>::empty());
            }
        }
        let mut c: usize = 0;
        while c < channels.len()
            invariant
                c <= channels@.len(),
                channels@.len() == lists@.len(),
                cs == names(channels@),
                ls == names_each(lists@),
                inverse.wf(),
                inverse@.tidy(),
                inverse@ == inverted(cs, ls, c as nat),
            decreases channels@.len() - c,
        {
            let ghost base = inverse@;
            let channel = channels[c];
            let handlers = &lists[c];
            assert(ls[c as int] == names(handlers@));
            assert(cs[c as int] == channel@);
            let mut h: usize = 0;
            while h < handlers.len()
                invariant
                    h <= handlers@.len(),
                    inverse.wf(),
                    inverse@.tidy(),
                    inverse@ == inverted_row(base, channel@, names(handlers@), h as nat),
                decreases handlers@.len() - h,
            {
                assert(names(handlers@)[h as int] == handlers@[h as int]@);
                inverse.link(handlers[h], channel);
                h += 1;
            }
            c += 1;
        }
        inverse
    }

    /// Whether a channel is of the direct type.
    fn is_direct(&self, name: &'static str) -> (r: bool)
        requires
            self.wf(),
        ensures
            r == self@.direct(name@),
    {
        match position(&self.channels, name) {
            Some(at) => {
                assert(names(self.channels@).index_of(name@) == at);
                if at < self.kinds.len() {
                    self.kinds[at].is_direct()
                } else {
                    false
                }
            },
            None => false,
        }
    }

    /// The channels of `s` that are direct, or those that are not.
    fn pick(&self, s: &Vec<&'static str>, direct: bool) -> (r: Vec<&'static str>)
        requires
            self.wf(),
        ensures
            names(r@) == of_kind(self@, names(s@), direct),
    {
        let mut out: Vec<&'static str> = Vec::new();
        let mut i: usize = 0;
        assert(names(s@.subrange(0, 0)) =~= Seq::<Seq<char>>::empty());
        assert(names(out@) =~= Seq::<Seq<char>>::empty());
        while i < s.len()
            invariant
                i <= s@.len(),
                self.wf(),
                names(out@) == of_kind(self@, names(s@.subrange(0, i as int)), direct),
            decreases s@.len() - i,
        {
            let ghost seen = names(s@.subrange(0, i as int));
            let ghost more = names(s@.subrange(0, i + 1));
            proof {
                assert(more.drop_last() =~= seen);
                assert(more.last() == s@[i as int]@);
            }
            if self.is_direct(s[i]) == direct {
                let ghost was = out@;
                out.push(s[i]);
                assert(names(out@) =~= names(was).push(s@[i as int]@));
            }
            i += 1;
        }
        assert(s@.subrange(0, s@.len() as int) =~= s@);
        out
    }

    /// The first anchor number from `count_start` on whose name no handler
    /// has, and that name.
    fn find_available_anchor_id(&self, count_start: usize) -> (r: (String, usize))
        requires
            self.wf(),
        ensures
            r.1 == self@.free_anchor(count_start),
            r.0@ == anchor_name(r.1),
    {
        let mut count = count_start;
        let mut current = Self::anchor(count);
        while count < usize::MAX && (self.invlistens.has_parent(current.as_str())
            || self.invemits.has_parent(current.as_str()))
            invariant
                self.wf(),
                current@ == anchor_name(count),
                self@.free_anchor(count_start) == self@.free_anchor(count),
            decreases usize::MAX - count,
        {
            count += 1;
            current = Self::anchor(count);
        }
        (current, count)
    }

    /// The name of the stand-in with number `n`.
    fn anchor(n: usize) -> (r: String)
        ensures
            r@ == anchor_name(n),
    {
        let mut out = String::new();
        out.append("Anchor#");
        let number = decimal_of(n);
        out.append(number.as_str());
        assert(out@ =~= anchor_name(n));
        out
    }

    /// Writes an arrow, if there are channels for it.
    fn arrow(
        out: &mut String,
        arrows: &mut usize,
        from: &'static str,
        to: &'static str,
        items: &Vec<&'static str>,
        dashed: bool,
        Ghost(pen): Ghost<Pen>,
    ) -> (next: Ghost<Pen>)
        requires
            pen.text == old(out)@,
            pen.arrows >= 0,
            *old(arrows) == pen.arrows % 6,
        ensures
            next@ == pen.arrow(from@, to@, names(items@), dashed),
            next@.text == final(out)@,
            next@.arrows >= 0,
            *final(arrows) == next@.arrows % 6,
    {
        if items.len() == 0 {
            return Ghost(pen);
        }
        let shade = quote(color(*arrows));
        let mut line = String::new();
        line.append("\t");
        line.append(quote(from).as_str());
        line.append(" -> ");
        line.append(quote(to).as_str());
        line.append("[color=");
        line.append(shade.as_str());
        line.append(",fontcolor=");
        line.append(shade.as_str());
        line.append(",label=<<FONT POINT-SIZE=\"10\">");
        line.append(join(items, "<BR/>").as_str());
        if dashed {
            line.append("</FONT>>,style=\"dashed\"];\n");
        } else {
            line.append("</FONT>>];\n");
        }
        proof {
            assert(line@ =~= arrow_text(
                from@,
                to@,
                color_at(pen.arrows),
                names(items@),
                dashed,
            ));
        }
        out.append(line.as_str());
        *arrows = if *arrows == 5 {
            0
        } else {
            *arrows + 1
        };
        Ghost(pen.arrow(from@, to@, names(items@), dashed))
    }

    /// Writes the arrows to the `t`-th listener from all emitters, and
    /// hands back the channels that no emitter emits into.
    fn draw_arrows(
        &self,
        out: &mut String,
        arrows: &mut usize,
        t: usize,
        Ghost(start): Ghost<Pen>,
    ) -> (r: (Vec<&'static str>, Ghost<Pen>))
        requires
            self.wf(),
            t < self@.listens.keys.len(),
            start.text == old(out)@,
            start.arrows >= 0,
            *old(arrows) == start.arrows % 6,
        ensures
            r.1@ == self@.arrows_to(start, t as int, self@.emits.keys.len()),
            names(r.0@) == self@.leftover(t as int, self@.emits.keys.len()),
            r.1@.text == final(out)@,
            r.1@.arrows >= 0,
            *final(arrows) == r.1@.arrows % 6,
            r.1@.anchor == start.anchor,
    {
        let ghost chart = self@;
        let ghost mut pen = start;
        let to = self.invlistens.parent(t);
        let listen_channels = self.invlistens.children_at(t);
        let emitters = self.invemits.len();
        let mut leftover = crate::text::tail(listen_channels, 0);
        assert(leftover@ =~= listen_channels@);
        let mut f: usize = 0;
        while f < emitters
            invariant
                f <= emitters,
                self.wf(),
                chart == self@,
                emitters == chart.emits.keys.len(),
                to@ == chart.listens.keys[t as int],
                names(listen_channels@) == chart.listens.kids[t as int],
                pen == chart.arrows_to(start, t as int, f as nat),
                names(leftover@) == chart.leftover(t as int, f as nat),
                pen.text == out@,
                pen.arrows >= 0,
                *arrows == pen.arrows % 6,
                pen.anchor == start.anchor,
            decreases emitters - f,
        {
            let from = self.invemits.parent(f);
            let emit_channels = self.invemits.children_at(f);
            let merged = intersect(listen_channels, emit_channels);
            leftover = subtract(&leftover, emit_channels);
            let direct = self.pick(&merged, true);
            let fed = self.pick(&merged, false);
            let drawn = Self::arrow(out, arrows, from, to, &direct, false, Ghost(pen));
            let drawn = Self::arrow(out, arrows, from, to, &fed, true, drawn);
            proof {
                pen = drawn@;
            }
            f += 1;
        }
        (leftover, Ghost(pen))
    }

    /// Writes a stand-in and the arrow from it to a listener, for the
    /// channels that are left over, if there are any.
    fn draw_anchor(
        &self,
        out: &mut String,
        arrows: &mut usize,
        anchor_count: &mut usize,
        to: &'static str,
        leftover: &Vec<&'static str>,
        Ghost(drawn): Ghost<Pen>,
    ) -> (next: Ghost<Pen>)
        requires
            self.wf(),
            drawn.text == old(out)@,
            drawn.arrows >= 0,
            *old(arrows) == drawn.arrows % 6,
            *old(anchor_count) == drawn.anchor,
        ensures
            next@ == if names(leftover@).len() == 0 {
                drawn
            } else {
                Pen {
                    text: drawn.text + anchor_text(
                        anchor_name(self@.free_anchor(drawn.anchor)),
                        to@,
                        color_at(drawn.arrows),
                        names(leftover@),
                    ),
                    arrows: drawn.arrows + 1,
                    anchor: two_more(self@.free_anchor(drawn.anchor)),
                }
            },
            next@.text == final(out)@,
            next@.arrows >= 0,
            *final(arrows) == next@.arrows % 6,
            *final(anchor_count) == next@.anchor,
    {
        if leftover.len() == 0 {
            return Ghost(drawn);
        }
        let shade = quote(color(*arrows));
        let (anchor_name_text, new_count) = self.find_available_anchor_id(*anchor_count);
        let label = quote(anchor_name_text.as_str());
        let mut line = String::new();
        line.append("\t");
        line.append(label.as_str());
        line.append("[style=\"invis\"];");
        line.append("\t");
        line.append(label.as_str());
        line.append(" -> ");
        line.append(quote(to).as_str());
        line.append("[arrowhead=\"diamond\",color=");
        line.append(shade.as_str());
        line.append(",fontcolor=");
        line.append(shade.as_str());
        line.append(",label=<<FONT POINT-SIZE=\"10\">");
        line.append(join(leftover, "<BR/>").as_str());
        line.append("</FONT>>];\n");
        proof {
            assert(line@ =~= anchor_text(
                anchor_name(new_count),
                to@,
                color_at(drawn.arrows),
                names(leftover@),
            ));
        }
        out.append(line.as_str());
        *arrows = if *arrows == 5 {
            0
        } else {
            *arrows + 1
        };
        *anchor_count = if new_count <= usize::MAX - 2 {
            new_count + 2
        } else {
            usize::MAX
        };
        Ghost(
            Pen {
                text: drawn.text + anchor_text(
                    anchor_name(new_count),
                    to@,
                    color_at(drawn.arrows),
                    names(leftover@),
                ),
                arrows: drawn.arrows + 1,
                anchor: two_more(new_count),
            },
        )
    }

    /// The description of the graph, in the language of `dot`.
    pub fn to_string(&self) -> (r: String)
        requires
            self.wf(),
        ensures
            r@ == self@.text(),
    {
        let ghost chart = self@;
        let mut body = String::new();
        let mut arrows: usize = 0;
        let mut anchor_count: usize = 0;
        let ghost mut pen = Pen { text: Seq::empty(), arrows: 0, anchor: 0 };
        let ghost pen0 = pen;
        let listeners = self.invlistens.len();
        let mut t: usize = 0;
        while t < listeners
            invariant
                t <= listeners,
                self.wf(),
                chart == self@,
                listeners == chart.listens.keys.len(),
                pen == chart.listeners(pen0, t as nat),
                pen.text == body@,
                pen.arrows >= 0,
                arrows == pen.arrows % 6,
                anchor_count == pen.anchor,
            decreases listeners - t,
        {
            let to = self.invlistens.parent(t);
            let (leftover, drawn) = self.draw_arrows(&mut body, &mut arrows, t, Ghost(pen));
            let next = self.draw_anchor(
                &mut body,
                &mut arrows,
                &mut anchor_count,
                to,
                &leftover,
                drawn,
            );
            proof {
                pen = next@;
            }
            t += 1;
        }
        let mut out = String::new();
        out.append("strict digraph {\n");
        out.append(body.as_str());
        out.append("\n}");
        assert(out@ =~= chart.text());
        out
    }
}

} // verus!
