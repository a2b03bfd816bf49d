//! Sorting the nodes of a container by a comparison of their payloads.

use vstd::prelude::*;
use std::cmp::Ordering;
use crate::channel::among;
use crate::context::{Context, Scene};

verus! {

/// The payload of a cell.
pub open spec fn payload<T>(s: Scene<T>, cell: usize) -> T {
    s.items[cell as int]
}

/// The `i`-th of some cells.
pub open spec fn member(s: Seq<usize>, i: usize) -> usize {
    s[i as int]
}

/// The cells with the `from`-th moved to the place `to`.
pub open spec fn moved(s: Seq<usize>, from: usize, to: usize) -> Seq<usize> {
    s.remove(from as int).insert(to as int, s[from as int])
}

/// `cell` is a cell of the context and is not held exclusively.
pub open spec fn usable<T>(s: Scene<T>, cell: usize) -> bool {
    s.has(cell as int) && !(s.states[cell as int] is Exclusive)
}

/// Every cell is a cell of the context, and none is held exclusively.
pub open spec fn readable<T>(s: Scene<T>, cells: Seq<usize>) -> bool {
    forall|i: int| 0 <= i < cells.len() ==> usable(s, #[trigger] cells[i])
}

/// The cell before the `i`-th.
pub open spec fn left_of(s: Seq<usize>, i: usize) -> usize {
    s[i - 1]
}

/// The comparison has put `x` before `y`, or at least not after it: asked
/// for `x` and `y` it did not answer greater, or asked for `y` and `x` it
/// did.
pub open spec fn in_order<T, F: FnMut(&T, &T) -> Ordering>(compare: F, x: T, y: T) -> bool {
    answered(compare, x, y, false) || answered(compare, y, x, true)
}

/// Asked for `x` and `y`, the comparison answered greater, or answered
/// something else.
pub open spec fn answered<T, F: FnMut(&T, &T) -> Ordering>(
    compare: F,
    x: T,
    y: T,
    greater: bool,
) -> bool {
    exists|r: Ordering| #[trigger] call_ensures(compare, (&x, &y), r) && (r is Greater) == greater
}

/// `k` is an index from `lo` on and below `hi`.
pub open spec fn span(lo: usize, k: int, hi: usize) -> bool {
    lo <= k < hi
}

/// Moving one cell leaves the same cells, each as often as before.
pub proof fn lemma_moved(s: Seq<usize>, from: usize, to: usize)
    requires
        from < s.len(),
        to <= from,
    ensures
        moved(s, from, to).to_multiset() == s.to_multiset(),
        moved(s, from, to).len() == s.len(),
        forall|k: int| 0 <= k < to ==> moved(s, from, to)[k] == s[k],
        moved(s, from, to)[to as int] == s[from as int],
        forall|k: int| to < k <= from ==> moved(s, from, to)[k] == s[k - 1],
        forall|k: int| from < k < s.len() ==> moved(s, from, to)[k] == s[k],
{
    vstd::seq_lib::to_multiset_remove(s, from as int);
    vstd::seq_lib::to_multiset_insert(s.remove(from as int), to as int, s[from as int]);
    s.to_multiset_ensures();
    assert(s.to_multiset().count(s[from as int]) > 0);
    assert(s.to_multiset().remove(s[from as int]).insert(s[from as int]) =~= s.to_multiset());
}

/// Sorts cells by a comparison of their payloads: each cell is put before
/// the cells after which the comparison did not want it, from the right.
/// Cells that compare as equal stay in their order.
pub fn sort_cells<T, F: FnMut(&T, &T) -> Ordering>(v: &mut Vec<usize>, ctx: &Context<T>, compare: &mut F)
    requires
        ctx.wf(),
        readable(ctx@, old(v)@),
        forall|a: &T, b: &T| call_requires(*old(compare), (a, b)),
    ensures
        *final(compare) == *old(compare),
        final(v)@.to_multiset() == old(v)@.to_multiset(),
        final(v)@.len() == old(v)@.len(),
        forall|k: int| #[trigger]
            among(k, final(v)@.len() - 1) ==> in_order(
                *old(compare),
                payload(ctx@, final(v)@[k]),
                payload(ctx@, final(v)@[k + 1]),
            ),
{
    let ghost f = *compare;
    let ghost scene = ctx@;
    let ghost start = v@;
    proof {
        ctx.lemma_wf();
    }
    let n = v.len();
    let mut i: usize = 1;
    while i < n
        invariant
            1 <= i,
            n == v@.len(),
            n == start.len(),
            *compare == f,
            scene == ctx@,
            scene.wf(),
            readable(scene, v@),
            forall|a: &T, b: &T| call_requires(f, (a, b)),
            v@.to_multiset() == start.to_multiset(),
            forall|k: int| #[trigger]
                among(k, i - 1) ==> in_order(f, payload(scene, v@[k]), payload(scene, v@[k + 1])),
        decreases n - i,
    {
        let ghost row = v@;
        let moving = v[i];
        assert(usable(scene, member(row, i)));
        let mut p: usize = i;
        let mut settled = false;
        while p > 0 && !settled
            invariant
                p <= i,
                i < n,
                n == v@.len(),
                v@ == row,
                moving == member(row, i),
                usable(scene, moving),
                *compare == f,
                scene == ctx@,
                scene.wf(),
                readable(scene, row),
                forall|a: &T, b: &T| call_requires(f, (a, b)),
                forall|k: int| #[trigger]
                    span(p, k, i) ==> answered(
                        f,
                        payload(scene, row[k]),
                        payload(scene, moving),
                        true,
                    ),
                settled ==> p > 0 && answered(
                    f,
                    payload(scene, left_of(row, p)),
                    payload(scene, moving),
                    false,
                ),
            decreases p + if settled {
                0int
            } else {
                1int
            },
        {
            let left = v[p - 1];
            assert(left == left_of(row, p));
            assert(usable(scene, row[p - 1]));
            let ghost was = p;
            let answer = compare(ctx.peek(left), ctx.peek(moving));
            match answer {
                Ordering::Greater => {
                    p -= 1;
                    proof {
                        assert(answered(
                            f,
                            payload(scene, left_of(row, was)),
                            payload(scene, moving),
                            true,
                        ));
                        assert forall|k: int| #[trigger] span(p, k, i) implies answered(
                            f,
                            payload(scene, row[k]),
                            payload(scene, moving),
                            true,
                        ) by {
                            if k > p {
                                assert(span(was, k, i));
                            }
                        }
                    }
                },
                _ => {
                    settled = true;
                    assert(answered(
                        f,
                        payload(scene, left_of(row, p)),
                        payload(scene, moving),
                        false,
                    ));
                },
            }
        }
        if p < i {
            let cell = v.remove(i);
            v.insert(p, cell);
            proof {
                lemma_moved(row, i, p);
                assert(v@ == moved(row, i, p));
                assert forall|k: int| 0 <= k < v@.len() implies usable(scene, #[trigger] v@[k]) by {
                    if k < p {
                        assert(v@[k] == row[k]);
                    } else if k == p {
                        assert(v@[k] == member(row, i));
                    } else if k <= i {
                        assert(v@[k] == row[k - 1]);
                    } else {
                        assert(v@[k] == row[k]);
                    }
                }
                assert forall|k: int| #[trigger] among(k, i + 0) implies in_order(
                    f,
                    payload(scene, v@[k]),
                    payload(scene, v@[k + 1]),
                ) by {
                    if k + 1 < p {
                        assert(among(k, i - 1));
                    } else if k + 1 == p {
                        assert(v@[k] == left_of(row, p));
                        assert(v@[k + 1] == moving);
                    } else if k == p {
                        assert(v@[k] == moving);
                        assert(v@[k + 1] == row[k]);
                        assert(span(p, k, i));
                    } else {
                        assert(among(k - 1, i - 1));
                        assert(v@[k] == row[k - 1]);
                        assert(v@[k + 1] == row[k]);
                    }
                }
            }
        } else {
            proof {
                assert forall|k: int| #[trigger] among(k, i + 0) implies in_order(
                    f,
                    payload(scene, v@[k]),
                    payload(scene, v@[k + 1]),
                ) by {
                    if k < i - 1 {
                        assert(among(k, i - 1));
                    } else {
                        assert(v@[k] == left_of(row, p));
                        assert(v@[k + 1] == moving);
                    }
                }
            }
        }
        i += 1;
    }
    proof {
        assert forall|k: int| #[trigger] among(k, v@.len() - 1) implies in_order(
            f,
            payload(scene, v@[k]),
            payload(scene, v@[k + 1]),
        ) by {
            if n > 0 {
                assert(among(k, i - 1));
            }
        }
    }
}

} // verus!
