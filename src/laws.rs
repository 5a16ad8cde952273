//! Properties of every maze the generator returns, stated over the map view.
use vstd::prelude::*;
use crate::cell::{Cell, Coord, interior, neighbor, opposite, lemma_neighbor_back};
use crate::maze::{closed_under, excluded, grown, in_rect, is_tree, perfect, rect_maze, tree_link, well_keyed};

verus! {

/// `path` visits cells of `m` only, and each step `dirs[i]` leads from
/// `path[i]` to `path[i + 1]` through an open wall.
pub open spec fn walk(m: Map<Coord, Cell>, path: Seq<Coord>, dirs: Seq<int>) -> bool {
    &&& path.len() == dirs.len() + 1
    &&& forall|i: int| 0 <= i < path.len() ==> m.contains_key(#[trigger] path[i])
    &&& forall|i: int|
        0 <= i < dirs.len() ==> {
            &&& 0 <= #[trigger] dirs[i] < 4
            &&& path[i + 1] == neighbor(path[i], dirs[i])
            &&& !m[path[i]].walls@[dirs[i]]
        }
}

/// An open wall of a cell in a perfect maze leads to another cell of the maze.
proof fn lemma_open_leads_inside(m: Map<Coord, Cell>, root: Coord, c: Coord, d: int)
    requires
        perfect(m, root),
        m.contains_key(c),
        0 <= d < 4,
        !m[c].walls@[d],
    ensures
        m.contains_key(neighbor(c, d)),
{
    let (up, depth) = choose|up: Map<Coord, int>, depth: Map<Coord, nat>|
        is_tree(m, root, up, depth);
    assert(tree_link(m, root, up, c, d));
}

/// Wall symmetry: two adjacent cells of a perfect maze agree on the wall
/// between them, open on both sides or closed on both.
pub proof fn lemma_wall_symmetry(m: Map<Coord, Cell>, root: Coord, c: Coord, d: int)
    requires
        perfect(m, root),
        m.contains_key(c),
        0 <= d < 4,
        m.contains_key(neighbor(c, d)),
    ensures
        m[c].walls@[d] == m[neighbor(c, d)].walls@[opposite(d)],
{
    let (up, depth) = choose|up: Map<Coord, int>, depth: Map<Coord, nat>|
        is_tree(m, root, up, depth);
    assert(interior(c));
    lemma_neighbor_back(c, d);
    let n = neighbor(c, d);
    assert(!m[c].walls@[d] <==> tree_link(m, root, up, c, d));
    assert(!m[n].walls@[opposite(d)] <==> tree_link(m, root, up, n, opposite(d)));
}

/// Boundary walls: in a maze on a rectangle, the walls facing out of the
/// rectangle are closed on all four sides.
pub proof fn lemma_rect_boundary(m: Map<Coord, Cell>, rows: int, cols: int, c: Coord)
    requires
        rect_maze(m, rows, cols),
        rows > 0,
        cols > 0,
        m.contains_key(c),
    ensures
        c.0 == 0 ==> m[c].walls@[0],
        c.1 == cols - 1 ==> m[c].walls@[1],
        c.0 == rows - 1 ==> m[c].walls@[2],
        c.1 == 0 ==> m[c].walls@[3],
{
    assert(interior(c));
    assert forall|d: int| 0 <= d < 4 && !m[c].walls@[d] implies in_rect(
        rows,
        cols,
        neighbor(c, d),
    ) by {
        lemma_open_leads_inside(m, (0, 0), c, d);
    }
}

proof fn walk_to_root(
    m: Map<Coord, Cell>,
    root: Coord,
    up: Map<Coord, int>,
    depth: Map<Coord, nat>,
    c: Coord,
) -> (w: (Seq<Coord>, Seq<int>))
    requires
        is_tree(m, root, up, depth),
        well_keyed(m),
        m.contains_key(c),
    ensures
        walk(m, w.0, w.1),
        w.0[0] == c,
        w.0.last() == root,
    decreases depth[c],
{
    if c == root {
        (seq![c], Seq::empty())
    } else {
        let d = up[c];
        let n = neighbor(c, d);
        assert(tree_link(m, root, up, c, d));
        let rest = walk_to_root(m, root, up, depth, n);
        let path = seq![c] + rest.0;
        let dirs = seq![d] + rest.1;
        assert forall|i: int| 0 <= i < path.len() implies m.contains_key(#[trigger] path[i]) by {
            if i > 0 {
                assert(path[i] == rest.0[i - 1]);
            }
        }
        assert forall|i: int| 0 <= i < dirs.len() implies {
            &&& 0 <= #[trigger] dirs[i] < 4
            &&& path[i + 1] == neighbor(path[i], dirs[i])
            &&& !m[path[i]].walls@[dirs[i]]
        } by {
            if i > 0 {
                assert(dirs[i] == rest.1[i - 1]);
                assert(path[i] == rest.0[i - 1]);
                assert(path[i + 1] == rest.0[i]);
            }
        }
        (path, dirs)
    }
}

/// Connectivity: from every cell of a perfect maze a walk through open walls
/// reaches the root; together with the tree shape of `is_tree` (a wall is
/// open only where it links a cell to its parent) the passages form a
/// spanning tree.
pub proof fn lemma_connected(m: Map<Coord, Cell>, root: Coord, c: Coord) -> (w: (
    Seq<Coord>,
    Seq<int>,
))
    requires
        perfect(m, root),
        m.contains_key(c),
    ensures
        walk(m, w.0, w.1),
        w.0[0] == c,
        w.0.last() == root,
{
    let (up, depth) = choose|up: Map<Coord, int>, depth: Map<Coord, nat>|
        is_tree(m, root, up, depth);
    walk_to_root(m, root, up, depth, c)
}

/// The open passages of `m`, each counted once: a horizontal passage by the
/// east wall of its western cell, a vertical one by the south wall of its
/// northern cell.
pub open spec fn passages(m: Map<Coord, Cell>) -> Set<(Coord, int)> {
    Set::new(
        |s: (Coord, int)| m.contains_key(s.0) && (s.1 == 1 || s.1 == 2) && !m[s.0].walls@[s.1],
    )
}

/// The passage, counted as in `passages`, that leaves `c` in direction `d`.
spec fn passage_of(c: Coord, d: int) -> (Coord, int) {
    if d == 1 || d == 2 {
        (c, d)
    } else {
        (neighbor(c, d), opposite(d))
    }
}

/// Spanning tree: a perfect maze of `n` cells has exactly `n - 1` open
/// passages, one per cell but the root.
pub proof fn lemma_passage_count(m: Map<Coord, Cell>, root: Coord)
    requires
        perfect(m, root),
        m.dom().finite(),
    ensures
        passages(m).finite(),
        passages(m).len() == m.dom().len() - 1,
{
    let (up, depth) = choose|up: Map<Coord, int>, depth: Map<Coord, nat>|
        is_tree(m, root, up, depth);
    let f = |x: Coord| passage_of(x, up[x]);
    let x = m.dom().remove(root);
    assert forall|c1: Coord, c2: Coord|
        x.contains(c1) && x.contains(c2) && #[trigger] f(c1) == #[trigger] f(c2) implies c1 == c2 by {
        let u1 = up[c1];
        let u2 = up[c2];
        assert(m.contains_key(c1) && m.contains_key(c2));
        lemma_neighbor_back(c1, u1);
        lemma_neighbor_back(c2, u2);
        if (u1 == 1 || u1 == 2) && !(u2 == 1 || u2 == 2) {
            assert(neighbor(c1, u1) == c2);
            assert(m.contains_key(neighbor(c2, up[c2])));
        } else if !(u1 == 1 || u1 == 2) && (u2 == 1 || u2 == 2) {
            assert(neighbor(c2, u2) == c1);
            assert(m.contains_key(neighbor(c1, up[c1])));
        } else if !(u1 == 1 || u1 == 2) {
            assert(u1 == u2);
            assert(neighbor(neighbor(c1, u1), opposite(u1)) == c1);
        }
    }
    assert forall|s: (Coord, int)| #[trigger] passages(m).contains(s) implies x.map(f).contains(s) by {
        let (c, d) = s;
        assert(tree_link(m, root, up, c, d));
        lemma_neighbor_back(c, d);
        if c != root && up[c] == d {
            assert(x.contains(c) && f(c) == s);
        } else {
            let n = neighbor(c, d);
            assert(m.contains_key(n));
            lemma_neighbor_back(n, opposite(d));
            assert(x.contains(n) && f(n) == s);
        }
    }
    assert forall|s: (Coord, int)| #[trigger] x.map(f).contains(s) implies passages(m).contains(s) by {
        let c = choose|c: Coord| x.contains(c) && f(c) == s;
        let u = up[c];
        assert(m.contains_key(c));
        lemma_neighbor_back(c, u);
        if u == 1 || u == 2 {
            assert(tree_link(m, root, up, c, u));
        } else {
            let p = neighbor(c, u);
            assert(m.contains_key(p));
            lemma_neighbor_back(p, opposite(u));
            assert(tree_link(m, root, up, p, opposite(u)));
        }
    }
    assert(x.map(f) =~= passages(m));
    vstd::set_lib::lemma_map_size(x, passages(m), f);
}

proof fn lemma_prefix_present<F: Fn(Coord) -> bool>(
    m: Map<Coord, Cell>,
    start: Coord,
    f: F,
    path: Seq<Coord>,
    dirs: Seq<int>,
    i: int,
)
    requires
        closed_under(m, f),
        m.contains_key(start),
        path.len() == dirs.len() + 1,
        path[0] == start,
        forall|k: int|
            0 <= k < dirs.len() ==> {
                &&& 0 <= #[trigger] dirs[k] < 4
                &&& path[k + 1] == neighbor(path[k], dirs[k])
                &&& !excluded(f, path[k + 1])
            },
        0 <= i < path.len(),
    ensures
        m.contains_key(path[i]),
    decreases i,
{
    if i > 0 {
        lemma_prefix_present(m, start, f, path, dirs, i - 1);
        let d = dirs[i - 1];
        assert(path[i] == neighbor(path[i - 1], d));
        assert(!excluded(f, neighbor(path[i - 1], d)));
    }
}

/// Domain fidelity: every coordinate reached from the start by lattice steps
/// through coordinates the region test does not clip is a cell of the maze.
/// (That every cell but the start was admitted by the test is part of `grown`.)
pub proof fn lemma_reachable_present<F: Fn(Coord) -> bool>(
    m: Map<Coord, Cell>,
    start: Coord,
    f: F,
    path: Seq<Coord>,
    dirs: Seq<int>,
)
    requires
        grown(m, start, f),
        path.len() == dirs.len() + 1,
        path[0] == start,
        forall|k: int|
            0 <= k < dirs.len() ==> {
                &&& 0 <= #[trigger] dirs[k] < 4
                &&& path[k + 1] == neighbor(path[k], dirs[k])
                &&& !excluded(f, path[k + 1])
            },
    ensures
        m.contains_key(path.last()),
{
    lemma_prefix_present(m, start, f, path, dirs, path.len() - 1);
}

} // verus!
