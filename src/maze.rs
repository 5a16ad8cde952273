//! The maze: walled cells keyed by coordinate, grown by a randomized
//! growing-tree construction, and its bounding box.
use vstd::prelude::*;
use std::collections::HashMap;
use rand::rngs::StdRng;
use crate::cell::{Cell, Coord, interior, neighbor, opposite, step, lemma_neighbor_back};
use crate::random::{entropy_rng, index_below, shuffle_dirs, choose_one};

verus! {

broadcast use vstd::std_specs::hash::group_hash_axioms;

/// The single integer under which a coordinate is indexed: the row in the
/// high 64 bits, the column shifted to be non-negative in the low 64 bits.
pub open spec fn key(c: Coord) -> int {
    c.0 * 0x1_0000_0000_0000_0000 + c.1 + 0x8000_0000_0000_0000
}

proof fn lemma_key(a: Coord, b: Coord)
    ensures
        i128::MIN <= key(a) <= i128::MAX,
        key(a) == key(b) ==> a == b,
{
}

fn coord_key(c: Coord) -> (k: i128)
    ensures
        k == key(c),
{
    proof {
        lemma_key(c, c);
    }
    (c.0 as i128) * 0x1_0000_0000_0000_0000 + ((c.1 as i128) + 0x8000_0000_0000_0000)
}

/// Every entry sits under its own coordinate, and that coordinate has four
/// representable neighbors.
pub open spec fn well_keyed(m: Map<Coord, Cell>) -> bool {
    forall|c: Coord| #[trigger] m.contains_key(c) ==> m[c].coord == c && interior(c)
}

/// The region test `f` returned "clipped" for `c`.
pub open spec fn excluded<F: Fn(Coord) -> bool>(f: F, c: Coord) -> bool {
    call_ensures(f, (c,), true)
}

/// The region test `f` returned "inside" for `c`.
pub open spec fn admitted<F: Fn(Coord) -> bool>(f: F, c: Coord) -> bool {
    call_ensures(f, (c,), false)
}

/// What the generator asks of a region test: it accepts every coordinate, and
/// every coordinate it admits has four representable neighbors.
pub open spec fn region<F: Fn(Coord) -> bool>(f: F) -> bool {
    &&& forall|c: Coord| #[trigger] call_requires(f, (c,))
    &&& forall|c: Coord| #[trigger] admitted(f, c) ==> interior(c)
}

/// The open passage leaving `c` in direction `d` is a link of the tree given
/// by `up`: either `c`'s own link to its parent, or a child's link to `c`.
pub open spec fn tree_link(
    m: Map<Coord, Cell>,
    root: Coord,
    up: Map<Coord, int>,
    c: Coord,
    d: int,
) -> bool {
    ||| c != root && up[c] == d
    ||| {
        let n = neighbor(c, d);
        m.contains_key(n) && n != root && up[n] == opposite(d)
    }
}

/// The open passages of `m` form a spanning tree rooted at `root`: every other
/// cell has a parent direction `up` leading to a present cell of smaller
/// `depth` (so every cell reaches the root), and a wall is open exactly where
/// it carries one of these parent links (so there are no other passages).
pub open spec fn is_tree(
    m: Map<Coord, Cell>,
    root: Coord,
    up: Map<Coord, int>,
    depth: Map<Coord, nat>,
) -> bool {
    &&& m.contains_key(root)
    &&& forall|c: Coord| #[trigger] m.contains_key(c) ==> depth.contains_key(c)
    &&& forall|c: Coord|
        #[trigger] m.contains_key(c) && c != root ==> {
            &&& up.contains_key(c)
            &&& 0 <= up[c] < 4
            &&& m.contains_key(neighbor(c, up[c]))
            &&& depth[neighbor(c, up[c])] < depth[c]
        }
    &&& forall|c: Coord, d: int|
        m.contains_key(c) && 0 <= d < 4 ==> (!#[trigger] m[c].walls@[d] <==> tree_link(
            m,
            root,
            up,
            c,
            d,
        ))
}

/// Every present cell's neighbors that the region test did not clip are present.
pub open spec fn closed_under<F: Fn(Coord) -> bool>(m: Map<Coord, Cell>, f: F) -> bool {
    forall|c: Coord, d: int|
        #![trigger m.contains_key(c), excluded(f, neighbor(c, d))]
        m.contains_key(c) && 0 <= d < 4 && !excluded(f, neighbor(c, d)) ==> m.contains_key(
            neighbor(c, d),
        )
}

/// `m` is a perfect maze grown from `start` over the region of `f`: it holds
/// the start and otherwise only admitted coordinates, it holds every
/// non-clipped neighbor of each of its cells, and its passages form a
/// spanning tree.
pub open spec fn grown<F: Fn(Coord) -> bool>(m: Map<Coord, Cell>, start: Coord, f: F) -> bool {
    &&& well_keyed(m)
    &&& m.contains_key(start)
    &&& forall|c: Coord| #[trigger] m.contains_key(c) ==> c == start || admitted(f, c)
    &&& closed_under(m, f)
    &&& exists|up: Map<Coord, int>, depth: Map<Coord, nat>| is_tree(m, start, up, depth)
}

/// The walls of a fresh cell reached by a step in direction `d`: all closed
/// but the one facing back.
pub open spec fn entered_walls(w: Seq<bool>, d: int) -> bool {
    &&& w.len() == 4
    &&& forall|e: int| 0 <= e < 4 ==> (#[trigger] w[e] <==> e != opposite(d))
}

/// Carving from a tree cell `p` into a fresh neighbor keeps a spanning tree.
proof fn lemma_carve(
    m0: Map<Coord, Cell>,
    m2: Map<Coord, Cell>,
    root: Coord,
    up: Map<Coord, int>,
    depth: Map<Coord, nat>,
    p: Coord,
    d: int,
)
    requires
        is_tree(m0, root, up, depth),
        well_keyed(m0),
        m0.contains_key(p),
        0 <= d < 4,
        !m0.contains_key(neighbor(p, d)),
        interior(neighbor(p, d)),
        m2.dom() == m0.dom().insert(neighbor(p, d)),
        forall|c: Coord| #[trigger] m0.contains_key(c) && c != p ==> m2[c] == m0[c],
        m2[p].walls@ == m0[p].walls@.update(d, false),
        entered_walls(m2[neighbor(p, d)].walls@, d),
    ensures
        is_tree(
            m2,
            root,
            up.insert(neighbor(p, d), opposite(d)),
            depth.insert(neighbor(p, d), depth[p] + 1),
        ),
{
    let q = neighbor(p, d);
    let up2 = up.insert(q, opposite(d));
    let depth2 = depth.insert(q, depth[p] + 1);
    lemma_neighbor_back(p, d);
    assert(m2.contains_key(p));
    assert forall|c: Coord| #[trigger] m2.contains_key(c) && c != root implies {
        &&& up2.contains_key(c)
        &&& 0 <= up2[c] < 4
        &&& m2.contains_key(neighbor(c, up2[c]))
        &&& depth2[neighbor(c, up2[c])] < depth2[c]
    } by {
        if c != q {
            assert(m0.contains_key(c));
            assert(m0.contains_key(neighbor(c, up[c])));
        }
    }
    assert forall|c: Coord, e: int| m2.contains_key(c) && 0 <= e < 4 implies (!#[trigger] m2[c].walls@[e]
        <==> tree_link(m2, root, up2, c, e)) by {
        let n = neighbor(c, e);
        if c == q {
            lemma_neighbor_back(q, e);
            if m2.contains_key(n) && n != q && n != root && up2[n] == opposite(e) {
                assert(m0.contains_key(n));
                lemma_neighbor_back(n, opposite(e));
                assert(neighbor(n, up[n]) == q);
                assert(m0.contains_key(neighbor(n, up[n])));
            }
        } else {
            assert(m0.contains_key(c));
            assert(interior(c));
            if n == q {
                lemma_neighbor_back(c, e);
                if c != p {
                    // `c` meets `q` from another side than `p`, so the new
                    // parent link of `q` does not point at `c`
                    assert(neighbor(q, opposite(e)) == c);
                    if opposite(e) == opposite(d) {
                        assert(e == d);
                    }
                    assert(!m0[c].walls@[e] <==> tree_link(m0, root, up, c, e));
                }
            } else {
                assert(!m0[c].walls@[e] <==> tree_link(m0, root, up, c, e));
            }
        }
    }
}

/// `c` lies in the rectangle of `rows` rows and `cols` columns at the origin.
pub open spec fn in_rect(rows: int, cols: int, c: Coord) -> bool {
    0 <= c.0 < rows && 0 <= c.1 < cols
}

/// The passages of `m` form a spanning tree rooted at `root`.
pub open spec fn perfect(m: Map<Coord, Cell>, root: Coord) -> bool {
    &&& well_keyed(m)
    &&& exists|up: Map<Coord, int>, depth: Map<Coord, nat>| is_tree(m, root, up, depth)
}

/// `m` is a perfect maze on the `rows` by `cols` rectangle grown from the
/// origin; a rectangle without rows or columns still holds the origin cell.
pub open spec fn rect_maze(m: Map<Coord, Cell>, rows: int, cols: int) -> bool {
    &&& perfect(m, (0, 0))
    &&& m.contains_key((0, 0))
    &&& rows > 0 && cols > 0 ==> forall|c: Coord| #[trigger]
        m.contains_key(c) <==> in_rect(rows, cols, c)
    &&& rows <= 0 || cols <= 0 ==> forall|c: Coord| #[trigger] m.contains_key(c) <==> c == (
        0isize,
        0isize,
    )
}

/// `(origin, extent)` is the least axis-aligned rectangle covering the keys of `m`.
pub open spec fn bounding(m: Map<Coord, Cell>, origin: Coord, extent: (usize, usize)) -> bool {
    &&& forall|c: Coord| #[trigger]
        m.contains_key(c) ==> origin.0 <= c.0 < origin.0 + extent.0 && origin.1 <= c.1 < origin.1
            + extent.1
    &&& exists|c: Coord| #[trigger] m.contains_key(c) && c.0 == origin.0
    &&& exists|c: Coord| #[trigger] m.contains_key(c) && c.0 == origin.0 + extent.0 - 1
    &&& exists|c: Coord| #[trigger] m.contains_key(c) && c.1 == origin.1
    &&& exists|c: Coord| #[trigger] m.contains_key(c) && c.1 == origin.1 + extent.1 - 1
}

/// A maze closed under unclipped steps and holding the origin holds every
/// cell of a rectangle that the region test never clips.
proof fn lemma_rect_fill<F: Fn(Coord) -> bool>(
    m: Map<Coord, Cell>,
    f: F,
    rows: int,
    cols: int,
    c: Coord,
)
    requires
        closed_under(m, f),
        m.contains_key((0, 0)),
        forall|e: Coord| #[trigger] excluded(f, e) ==> !in_rect(rows, cols, e),
        in_rect(rows, cols, c),
    ensures
        m.contains_key(c),
    decreases c.0 + c.1,
{
    if c.1 > 0 {
        let prev: Coord = (c.0, (c.1 - 1) as isize);
        lemma_rect_fill(m, f, rows, cols, prev);
        assert(neighbor(prev, 1) == c);
        assert(!excluded(f, neighbor(prev, 1)));
    } else if c.0 > 0 {
        let prev: Coord = ((c.0 - 1) as isize, c.1);
        lemma_rect_fill(m, f, rows, cols, prev);
        assert(neighbor(prev, 2) == c);
        assert(!excluded(f, neighbor(prev, 2)));
    }
}

/// A perfect maze: a set of walled cells, one per coordinate.
pub struct Maze {
    cells: Vec<Cell>,
    index: HashMap<i128, usize>,
}

impl Maze {
    /// The cell vector and the coordinate index agree, one entry per cell.
    pub closed spec fn wf(&self) -> bool {
        &&& self.cells@.len() <= usize::MAX
        &&& forall|i: int|
            0 <= i < self.cells@.len() ==> {
                &&& #[trigger] self.index@.contains_key(key(self.cells@[i].coord) as i128)
                &&& self.index@[key(self.cells@[i].coord) as i128] == i
                &&& interior(self.cells@[i].coord)
            }
        &&& forall|k: i128| #[trigger]
            self.index@.contains_key(k) ==> {
                &&& (self.index@[k] as int) < self.cells@.len()
                &&& key(self.cells@[self.index@[k] as int].coord) == k
            }
    }

    /// The maze as a map from coordinate to cell.
    pub closed spec fn view(&self) -> Map<Coord, Cell> {
        Map::new(
            |c: Coord| self.index@.contains_key(key(c) as i128),
            |c: Coord| self.cells@[self.index@[key(c) as i128] as int],
        )
    }

    proof fn lemma_keyed(&self)
        requires
            self.wf(),
        ensures
            well_keyed(self@),
    {
        assert forall|c: Coord| #[trigger] self@.contains_key(c) implies self@[c].coord == c
            && interior(c) by {
            let i = self.index@[key(c) as i128] as int;
            lemma_key(c, self.cells@[i].coord);
        }
    }

    /// The maze has finitely many cells.
    pub proof fn lemma_finite(&self)
        requires
            self.wf(),
        ensures
            self@.dom().finite(),
    {
        let coords = self.cells@.map_values(|x: Cell| x.coord);
        vstd::seq_lib::seq_to_set_is_finite(coords);
        assert forall|c: Coord| #[trigger] self@.dom().contains(c) implies coords.to_set().contains(c) by {
            let i = self.index@[key(c) as i128] as int;
            lemma_key(c, self.cells@[i].coord);
            assert(coords[i] == c);
        }
        vstd::set_lib::lemma_set_subset_finite(coords.to_set(), self@.dom());
    }

    /// The maze holding one fully walled cell at `c`.
    fn single(c: Coord) -> (m: Maze)
        requires
            interior(c),
        ensures
            m.wf(),
            m@.dom() == set![c],
            m@[c].coord == c,
            forall|d: int| 0 <= d < 4 ==> #[trigger] m@[c].walls@[d],
    {
        let mut cells: Vec<Cell> = Vec::new();
        cells.push(Cell::new(c));
        let mut index: HashMap<i128, usize> = HashMap::new();
        let k = coord_key(c);
        index.insert(k, 0);
        let m = Maze { cells, index };
        proof {
            lemma_key(c, c);
            assert forall|e: Coord| #[trigger] m@.contains_key(e) <==> e == c by {
                lemma_key(c, e);
            }
            assert(m@.dom() =~= set![c]);
        }
        m
    }

    /// Grows a perfect maze from `start` over the region where `clipped`
    /// returns `false`, drawing every random choice from `rng`.
    ///
    /// Each round picks an active cell uniformly, lists its unclipped,
    /// unvisited neighbors in a freshly shuffled direction order, and either
    /// retires the cell when there are none or carves into one of them.
    pub fn new_with_rng<F: Fn(Coord) -> bool>(start: Coord, clipped: F, rng: &mut StdRng) -> (m:
        Maze)
        requires
            interior(start),
            region(clipped),
        ensures
            m.wf(),
            grown(m@, start, clipped),
    {
        let mut maze = Maze::single(start);
        let mut open: Vec<Coord> = Vec::new();
        open.push(start);
        let mut dirns: [usize; 4] = [0, 1, 2, 3];
        let ghost mut up: Map<Coord, int> = Map::empty();
        let ghost mut depth: Map<Coord, nat> = Map::empty().insert(start, 0nat);
        proof {
            maze.lemma_keyed();
            assert(open@[0] == start);
            assert forall|x: usize| dirns@.contains(x) <==> x < 4 by {
                if x < 4 {
                    assert(dirns@[x as int] == x);
                }
            }
        }
        while open.len() > 0
            invariant
                interior(start),
                region(clipped),
                maze.wf(),
                well_keyed(maze@),
                is_tree(maze@, start, up, depth),
                forall|c: Coord| #[trigger] maze@.contains_key(c) ==> c == start || admitted(clipped, c),
                forall|i: int| 0 <= i < open@.len() ==> maze@.contains_key(#[trigger] open@[i]),
                forall|c: Coord, d: int|
                    #![trigger maze@.contains_key(c), excluded(clipped, neighbor(c, d))]
                    maze@.contains_key(c) && !open@.contains(c) && 0 <= d < 4 && !excluded(
                        clipped,
                        neighbor(c, d),
                    ) ==> maze@.contains_key(neighbor(c, d)),
                forall|x: usize| dirns@.contains(x) <==> x < 4,
            decreases 2 * (usize::MAX - maze.cells@.len()) + open@.len(),
        {
            let target = index_below(rng, open.len());
            let here = open[target];
            let ghost before = dirns@;
            shuffle_dirs(&mut dirns, rng);
            proof {
                before.to_multiset_ensures();
                dirns@.to_multiset_ensures();
                assert forall|x: usize| dirns@.contains(x) <==> x < 4 by {
                    assert(before.to_multiset().count(x) == dirns@.to_multiset().count(x));
                }
            }
            let mut cands: Vec<usize> = Vec::new();
            let mut j: usize = 0;
            while j < 4
                invariant
                    j <= 4,
                    maze.wf(),
                    well_keyed(maze@),
                    maze@.contains_key(here),
                    region(clipped),
                    forall|k: int|
                        0 <= k < cands@.len() ==> {
                            &&& #[trigger] cands@[k] < 4
                            &&& admitted(clipped, neighbor(here, cands@[k] as int))
                            &&& !maze@.contains_key(neighbor(here, cands@[k] as int))
                        },
                    forall|k: int|
                        #![trigger dirns@[k]]
                        0 <= k < j ==> excluded(clipped, neighbor(here, dirns@[k] as int))
                            || maze@.contains_key(neighbor(here, dirns@[k] as int))
                            || cands@.contains(dirns@[k]),
                    forall|x: usize| dirns@.contains(x) <==> x < 4,
                decreases 4 - j,
            {
                let d = dirns[j];
                assert(dirns@.contains(d));
                let nb = step(here, d);
                let ghost cands0 = cands@;
                if clipped(nb) || maze.contains_key(nb) {
                } else {
                    cands.push(d);
                    assert(cands@[cands@.len() - 1] == d);
                }
                proof {
                    assert forall|x: usize| cands0.contains(x) implies cands@.contains(x) by {
                        let i = choose|i: int| 0 <= i < cands0.len() && cands0[i] == x;
                        assert(cands@[i] == x);
                    }
                }
                j += 1;
            }
            match choose_one(&cands, rng) {
                None => {
                    proof {
                        assert forall|d: int|
                            0 <= d < 4 && !excluded(clipped, neighbor(here, d)) implies maze@.contains_key(
                            neighbor(here, d),
                        ) by {
                            assert(dirns@.contains(d as usize));
                            let k = choose|k: int| 0 <= k < 4 && dirns@[k] == d as usize;
                            assert(dirns@[k] == d);
                        }
                    }
                    let ghost open0 = open@;
                    open.swap_remove(target);
                    proof {
                        assert forall|c: Coord| open0.contains(c) && c != here implies open@.contains(c) by {
                            let i = choose|i: int| 0 <= i < open0.len() && open0[i] == c;
                            if i == open0.len() - 1 {
                                assert(open@[target as int] == c);
                            } else {
                                assert(open@[i] == c);
                            }
                        }
                        assert forall|i: int| 0 <= i < open@.len() implies maze@.contains_key(
                            #[trigger] open@[i],
                        ) by {
                            if i == target {
                                assert(open@[i] == open0[open0.len() - 1]);
                            } else {
                                assert(open@[i] == open0[i]);
                            }
                        }
                    }
                },
                Some(d) => {
                    assert(cands@.contains(d));
                    let nb = step(here, d);
                    let ghost m0 = maze@;
                    let ghost open0 = open@;
                    proof {
                        lemma_neighbor_back(here, d as int);
                    }
                    maze.clear_wall(here, d);
                    let mut cell = Cell::new(nb);
                    cell.walls[(d + 2) % 4] = false;
                    maze.add_cell(cell);
                    open.push(nb);
                    proof {
                        assert(entered_walls(maze@[nb].walls@, d as int));
                        lemma_carve(m0, maze@, start, up, depth, here, d as int);
                        depth = depth.insert(nb, depth[here] + 1);
                        up = up.insert(nb, opposite(d as int));
                        maze.lemma_keyed();
                        assert forall|c: Coord| open0.contains(c) implies open@.contains(c) by {
                            let i = choose|i: int| 0 <= i < open0.len() && open0[i] == c;
                            assert(open@[i] == c);
                        }
                        assert(open@[open@.len() - 1] == nb);
                    }
                },
            }
        }
        proof {
            assert(is_tree(maze@, start, up, depth));
        }
        maze
    }

    /// Grows a perfect maze from `start` over the region where `clipped`
    /// returns `false`, with randomness seeded from the operating system.
    pub fn new<F: Fn(Coord) -> bool>(start: Coord, clipped: F) -> (m: Maze)
        requires
            interior(start),
            region(clipped),
        ensures
            m.wf(),
            grown(m@, start, clipped),
    {
        let mut rng = entropy_rng();
        Maze::new_with_rng(start, clipped, &mut rng)
    }

    /// Grows a perfect maze on the rectangle of `rows` rows and `cols`
    /// columns, starting at the origin.
    pub fn new_rect(rows: usize, cols: usize) -> (m: Maze)
        requires
            rows <= isize::MAX,
            cols <= isize::MAX,
        ensures
            m.wf(),
            rect_maze(m@, rows as int, cols as int),
    {
        let mut rng = entropy_rng();
        Maze::new_rect_with_rng(rows, cols, &mut rng)
    }

    /// As `new_rect`, drawing every random choice from `rng`.
    pub fn new_rect_with_rng(rows: usize, cols: usize, rng: &mut StdRng) -> (m: Maze)
        requires
            rows <= isize::MAX,
            cols <= isize::MAX,
        ensures
            m.wf(),
            rect_maze(m@, rows as int, cols as int),
    {
        let clipped = |c: Coord| -> (r: bool)
            ensures
                r == !in_rect(rows as int, cols as int, c),
            { c.0 < 0 || c.1 < 0 || c.0 >= rows as isize || c.1 >= cols as isize };
        let m = Maze::new_with_rng((0, 0), clipped, rng);
        proof {
            let ri = rows as int;
            let ci = cols as int;
            if ri > 0 && ci > 0 {
                assert forall|c: Coord| #[trigger] m@.contains_key(c) <==> in_rect(ri, ci, c) by {
                    if in_rect(ri, ci, c) {
                        lemma_rect_fill(m@, clipped, ri, ci, c);
                    }
                }
            } else {
                assert forall|c: Coord| #[trigger] m@.contains_key(c) <==> c == (0isize, 0isize) by {
                }
            }
        }
        m
    }

    /// The cells of the maze, each coordinate once.
    pub fn cells(&self) -> (r: &Vec<Cell>)
        requires
            self.wf(),
        ensures
            forall|i: int|
                0 <= i < r@.len() ==> self@.contains_key(#[trigger] r@[i].coord) && self@[r@[i].coord]
                    == r@[i],
            forall|c: Coord|
                #[trigger] self@.contains_key(c) ==> exists|i: int|
                    0 <= i < r@.len() && #[trigger] r@[i].coord == c,
            forall|i: int, j: int|
                0 <= i < j < r@.len() ==> #[trigger] r@[i].coord != #[trigger] r@[j].coord,
    {
        proof {
            self.lemma_keyed();
            assert forall|c: Coord| #[trigger] self@.contains_key(c) implies exists|i: int|
                0 <= i < self.cells@.len() && #[trigger] self.cells@[i].coord == c by {
                let i = self.index@[key(c) as i128] as int;
                assert(self.cells@[i].coord == c);
            }
            assert forall|i: int, j: int|
                0 <= i < j < self.cells@.len() implies #[trigger] self.cells@[i].coord
                != #[trigger] self.cells@[j].coord by {
                assert(self.index@.contains_key(key(self.cells@[i].coord) as i128));
                assert(self.index@.contains_key(key(self.cells@[j].coord) as i128));
            }
            assert forall|i: int|
                0 <= i < self.cells@.len() implies self@.contains_key(
                #[trigger] self.cells@[i].coord,
            ) && self@[self.cells@[i].coord] == self.cells@[i] by {
                assert(self.index@.contains_key(key(self.cells@[i].coord) as i128));
            }
        }
        &self.cells
    }

    /// The least axis-aligned rectangle covering every cell, as its
    /// upper-left coordinate and its extent in rows and columns; `None` for a
    /// maze without cells.
    pub fn bbox(&self) -> (r: Option<(Coord, (usize, usize))>)
        requires
            self.wf(),
        ensures
            r is None <==> forall|c: Coord| !#[trigger] self@.contains_key(c),
            r matches Some(b) ==> bounding(self@, b.0, b.1),
    {
        let cells = self.cells();
        if cells.len() == 0 {
            proof {
                assert forall|c: Coord| !#[trigger] self@.contains_key(c) by {
                    if self@.contains_key(c) {
                        let i = choose|i: int| 0 <= i < cells@.len() && #[trigger] cells@[i].coord == c;
                    }
                }
            }
            return None;
        }
        let first = cells[0].coord;
        let mut r_min = first.0;
        let mut r_max = first.0;
        let mut c_min = first.1;
        let mut c_max = first.1;
        let mut i: usize = 1;
        while i < cells.len()
            invariant
                1 <= i <= cells@.len(),
                self.wf(),
                forall|k: int|
                    0 <= k < cells@.len() ==> self@.contains_key(#[trigger] cells@[k].coord),
                forall|k: int|
                    0 <= k < i ==> r_min <= (#[trigger] cells@[k]).coord.0 <= r_max && c_min
                        <= cells@[k].coord.1 <= c_max,
                exists|k: int| 0 <= k < i && (#[trigger] cells@[k]).coord.0 == r_min,
                exists|k: int| 0 <= k < i && (#[trigger] cells@[k]).coord.0 == r_max,
                exists|k: int| 0 <= k < i && (#[trigger] cells@[k]).coord.1 == c_min,
                exists|k: int| 0 <= k < i && (#[trigger] cells@[k]).coord.1 == c_max,
            decreases cells@.len() - i,
        {
            let c = cells[i].coord;
            if c.0 < r_min {
                r_min = c.0;
            }
            if c.0 > r_max {
                r_max = c.0;
            }
            if c.1 < c_min {
                c_min = c.1;
            }
            if c.1 > c_max {
                c_max = c.1;
            }
            i += 1;
        }
        proof {
            self.lemma_keyed();
            let k1 = choose|k: int| 0 <= k < i && (#[trigger] cells@[k]).coord.0 == r_min;
            let k2 = choose|k: int| 0 <= k < i && (#[trigger] cells@[k]).coord.0 == r_max;
            let k3 = choose|k: int| 0 <= k < i && (#[trigger] cells@[k]).coord.1 == c_min;
            let k4 = choose|k: int| 0 <= k < i && (#[trigger] cells@[k]).coord.1 == c_max;
            assert(interior(cells@[k1].coord) && interior(cells@[k2].coord));
            assert(interior(cells@[k3].coord) && interior(cells@[k4].coord));
        }
        let h = ((r_max as i128) - (r_min as i128) + 1) as usize;
        let w = ((c_max as i128) - (c_min as i128) + 1) as usize;
        proof {
            let k1 = choose|k: int| 0 <= k < i && (#[trigger] cells@[k]).coord.0 == r_min;
            let k2 = choose|k: int| 0 <= k < i && (#[trigger] cells@[k]).coord.0 == r_max;
            let k3 = choose|k: int| 0 <= k < i && (#[trigger] cells@[k]).coord.1 == c_min;
            let k4 = choose|k: int| 0 <= k < i && (#[trigger] cells@[k]).coord.1 == c_max;
            assert(self@.contains_key(cells@[k1].coord));
            assert(self@.contains_key(cells@[k2].coord));
            assert(self@.contains_key(cells@[k3].coord));
            assert(self@.contains_key(cells@[k4].coord));
            assert forall|c: Coord| #[trigger] self@.contains_key(c) implies r_min <= c.0 < r_min + h
                && c_min <= c.1 < c_min + w by {
                let k = choose|k: int| 0 <= k < cells@.len() && #[trigger] cells@[k].coord == c;
                assert(r_min <= cells@[k].coord.0 <= r_max);
            }
        }
        Some(((r_min, c_min), (h, w)))
    }

    /// Whether a cell is present at `c`.
    pub fn contains_key(&self, c: Coord) -> (r: bool)
        requires
            self.wf(),
        ensures
            r == self@.contains_key(c),
    {
        proof {
            lemma_key(c, c);
        }
        let k = coord_key(c);
        self.index.contains_key(&k)
    }

    /// The cell at `c`, if present.
    pub fn get(&self, c: Coord) -> (r: Option<Cell>)
        requires
            self.wf(),
        ensures
            r == if self@.contains_key(c) {
                Some(self@[c])
            } else {
                None::<Cell>
            },
    {
        proof {
            lemma_key(c, c);
        }
        let k = coord_key(c);
        match self.index.get(&k) {
            Some(i) => Some(self.cells[*i]),
            None => None,
        }
    }

    /// Opens the wall of the cell at `c` in direction `d`.
    fn clear_wall(&mut self, c: Coord, d: usize)
        requires
            old(self).wf(),
            old(self)@.contains_key(c),
            d < 4,
        ensures
            final(self).wf(),
            final(self).cells@.len() == old(self).cells@.len(),
            final(self)@.dom() == old(self)@.dom(),
            forall|e: Coord| #[trigger]
                old(self)@.contains_key(e) && e != c ==> final(self)@[e] == old(self)@[e],
            final(self)@[c].coord == old(self)@[c].coord,
            final(self)@[c].walls@ == old(self)@[c].walls@.update(d as int, false),
    {
        proof {
            lemma_key(c, c);
        }
        let k = coord_key(c);
        let i = *self.index.get(&k).unwrap();
        let mut cell = self.cells[i];
        cell.walls[d] = false;
        self.cells.set(i, cell);
        proof {
            assert(self@.dom() =~= old(self)@.dom());
            assert forall|e: Coord| #[trigger]
                old(self)@.contains_key(e) && e != c implies self@[e] == old(self)@[e] by {
                lemma_key(c, e);
            }
            assert(cell.walls@ =~= old(self)@[c].walls@.update(d as int, false));
        }
    }

    /// Adds `cell` at a coordinate not yet present.
    fn add_cell(&mut self, cell: Cell)
        requires
            old(self).wf(),
            !old(self)@.contains_key(cell.coord),
            interior(cell.coord),
        ensures
            final(self).wf(),
            final(self).cells@.len() == old(self).cells@.len() + 1,
            final(self)@ == old(self)@.insert(cell.coord, cell),
    {
        proof {
            lemma_key(cell.coord, cell.coord);
        }
        let k = coord_key(cell.coord);
        self.cells.push(cell);
        let n = self.cells.len();
        self.index.insert(k, n - 1);
        proof {
            assert forall|i: int| 0 <= i < old(self).cells@.len() implies key(
                self.cells@[i].coord,
            ) != k by {
                lemma_key(self.cells@[i].coord, cell.coord);
                assert(old(self).index@.contains_key(key(old(self).cells@[i].coord) as i128));
            }
            assert forall|i: int| 0 <= i < self.cells@.len() implies {
                &&& #[trigger] self.index@.contains_key(key(self.cells@[i].coord) as i128)
                &&& self.index@[key(self.cells@[i].coord) as i128] == i
                &&& interior(self.cells@[i].coord)
            } by {
                lemma_key(self.cells@[i].coord, cell.coord);
                if i < old(self).cells@.len() {
                    assert(old(self).index@.contains_key(key(old(self).cells@[i].coord) as i128));
                }
            }
            assert forall|j: i128| #[trigger] self.index@.contains_key(j) implies {
                &&& (self.index@[j] as int) < self.cells@.len()
                &&& key(self.cells@[self.index@[j] as int].coord) == j
            } by {
                if j != k {
                    assert(old(self).index@.contains_key(j));
                }
            }
            assert forall|e: Coord| #[trigger] self@.contains_key(e) == old(self)@.insert(
                cell.coord,
                cell,
            ).contains_key(e) by {
                lemma_key(cell.coord, e);
            }
            assert forall|e: Coord| #[trigger] self@.contains_key(e) implies self@[e] == old(
                self,
            )@.insert(cell.coord, cell)[e] by {
                lemma_key(cell.coord, e);
            }
            assert(self@ =~= old(self)@.insert(cell.coord, cell));
        }
    }
}

} // verus!
