//! Reachability inside a grid: unit-step walks through traversable cells,
//! and the lemmas the generator uses to maintain them while it carves.

use vstd::prelude::*;

use crate::maze_base::{in_grid, MazeCell};

verus! {

/// Whether `p` and `q` are one unit step apart along exactly one axis.
pub open spec fn adjacent(p: (int, int, int), q: (int, int, int)) -> bool {
    ||| (p.0 == q.0 && p.1 == q.1 && (p.2 - q.2 == 1 || q.2 - p.2 == 1))
    ||| (p.0 == q.0 && p.2 == q.2 && (p.1 - q.1 == 1 || q.1 - p.1 == 1))
    ||| (p.1 == q.1 && p.2 == q.2 && (p.0 - q.0 == 1 || q.0 - p.0 == 1))
}

/// Whether `path` is a walk from `src` to `dst` through traversable
/// in-range cells of `m`, stepping one unit at a time.
pub open spec fn is_path(
    m: Map<(int, int, int), MazeCell>,
    n: int,
    path: Seq<(int, int, int)>,
    src: (int, int, int),
    dst: (int, int, int),
) -> bool {
    &&& path.len() >= 1
    &&& path[0] == src
    &&& path[path.len() - 1] == dst
    &&& forall|i: int|
        0 <= i < path.len() ==> in_grid(n, #[trigger] path[i]) && m[path[i]].traversable()
    &&& forall|i: int| 0 <= i < path.len() - 1 ==> adjacent(#[trigger] path[i], path[i + 1])
}

/// Whether some unit-step walk through traversable cells of `m` leads from
/// `src` to `dst`.
pub open spec fn reachable(
    m: Map<(int, int, int), MazeCell>,
    n: int,
    src: (int, int, int),
    dst: (int, int, int),
) -> bool {
    exists|path: Seq<(int, int, int)>| is_path(m, n, path, src, dst)
}

/// A traversable cell reaches itself.
pub proof fn lemma_reachable_self(m: Map<(int, int, int), MazeCell>, n: int, p: (int, int, int))
    requires
        in_grid(n, p),
        m[p].traversable(),
    ensures
        reachable(m, n, p, p),
{
    let path: Seq<(int, int, int)> = seq![p];
    assert(is_path(m, n, path, p, p));
}

/// Reachability extends across one step onto a traversable neighbour.
pub proof fn lemma_reachable_step(
    m: Map<(int, int, int), MazeCell>,
    n: int,
    src: (int, int, int),
    p: (int, int, int),
    q: (int, int, int),
)
    requires
        reachable(m, n, src, p),
        adjacent(p, q),
        in_grid(n, q),
        m[q].traversable(),
    ensures
        reachable(m, n, src, q),
{
    let path = choose|path: Seq<(int, int, int)>| is_path(m, n, path, src, p);
    let longer = path.push(q);
    assert forall|i: int| 0 <= i < longer.len() implies in_grid(n, #[trigger] longer[i])
        && m[longer[i]].traversable() by {
        if i < path.len() {
            assert(longer[i] == path[i]);
        }
    }
    assert forall|i: int| 0 <= i < longer.len() - 1 implies adjacent(
        #[trigger] longer[i],
        longer[i + 1],
    ) by {
        if i < path.len() - 1 {
            assert(longer[i] == path[i] && longer[i + 1] == path[i + 1]);
        } else {
            assert(longer[i] == path[path.len() - 1] && longer[i + 1] == q);
        }
    }
    assert(is_path(m, n, longer, src, q));
}

/// A walk stays a walk when cells only become more traversable.
pub proof fn lemma_reachable_mono(
    m1: Map<(int, int, int), MazeCell>,
    m2: Map<(int, int, int), MazeCell>,
    n: int,
    src: (int, int, int),
    dst: (int, int, int),
)
    requires
        reachable(m1, n, src, dst),
        forall|p: (int, int, int)|
            in_grid(n, p) && (#[trigger] m1[p]).traversable() ==> m2[p].traversable(),
    ensures
        reachable(m2, n, src, dst),
{
    let path = choose|path: Seq<(int, int, int)>| is_path(m1, n, path, src, dst);
    assert forall|i: int| 0 <= i < path.len() implies in_grid(n, #[trigger] path[i])
        && m2[path[i]].traversable() by {
        assert(in_grid(n, path[i]) && m1[path[i]].traversable());
    }
    assert(is_path(m2, n, path, src, dst));
}

} // verus!
