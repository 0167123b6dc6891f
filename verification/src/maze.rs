//! The maze generation engine: a grid of cells whose walls are carved one
//! step at a time by one of two interchangeable randomized spanning-tree
//! strategies, safe to drive tick by tick from an external scheduler.

use vstd::prelude::*;
use crate::block::Block;
use crate::constants::DIRECTION;
use crate::graph::connected;
use crate::graph::norm_pair;
use crate::grid::adjacent;
use crate::grid::dir_between;
use crate::grid::in_grid;
use crate::grid::lemma_adjacent_dirs;
use crate::grid::lemma_neighbor_in_grid;
use crate::grid::neighbor_of;
use crate::rng;
use crate::utils::lemma_xy_round_trip;
use crate::utils::spec_index_to_x;
use crate::utils::spec_index_to_y;

verus! {

broadcast use {vstd::seq_lib::lemma_seq_contains_after_push, vstd::array::group_array_axioms};

/// Which incremental spanning-tree algorithm drives the generation.
#[derive(Clone, Copy, Debug, PartialEq, Eq, Structural)]
pub enum Strategy {
    /// Randomized depth-first carving with an explicit stack.
    Backtracker,
    /// Randomized growing-tree carving over a frontier of pending cells.
    Frontier,
}

/// The engine: the cells in row-major order, the strategy, its pending
/// state, and (as ghost bookkeeping) the set of carved wall-pairs.
pub struct Maze {
    pub cols: usize,
    pub rows: usize,
    /// All cells; the cell at column x, row y sits at index `x + y * cols`.
    pub blocks: Vec<Block>,
    /// Frontier strategy state: the unvisited cells adjacent to at least one
    /// visited cell, each held once.
    pub possible_ways: Vec<usize>,
    /// Backtracker strategy state: the depth-first stack, top at the end.
    pub stack: Vec<usize>,
    pub strategy: Strategy,
    /// Every carved wall-pair so far, as normalized index pairs.
    pub edges: Ghost<Set<(int, int)>>,
}

impl Maze {
    /// Number of cells.
    pub open spec fn n(self) -> int {
        self.cols * self.rows
    }

    pub open spec fn in_grid(self, i: int) -> bool {
        in_grid(self.cols as int, self.rows as int, i)
    }

    pub open spec fn visited(self, i: int) -> bool {
        self.blocks@[i].visited
    }

    pub open spec fn wall(self, i: int, d: DIRECTION) -> bool {
        self.blocks@[i].wall(d)
    }

    pub open spec fn adj(self, a: int, b: int) -> bool {
        adjacent(self.cols as int, self.rows as int, a, b)
    }

    pub open spec fn spec_neighbor(self, i: int, d: DIRECTION) -> Option<int> {
        neighbor_of(self.cols as int, self.rows as int, i, d)
    }

    /// The wall-pair between adjacent `a` and `b` has been carved away.
    pub open spec fn carved(self, a: int, b: int) -> bool {
        !self.wall(a, dir_between(self.cols as int, a, b))
    }

    /// The indices of the visited cells.
    pub open spec fn visited_set(self) -> Set<int> {
        Set::new(|i: int| self.in_grid(i) && self.visited(i))
    }

    /// Generation is complete: the driving strategy has no pending work.
    pub open spec fn finished(self) -> bool {
        match self.strategy {
            Strategy::Backtracker => self.stack@.len() == 0,
            Strategy::Frontier => self.possible_ways@.len() == 0,
        }
    }

    /// The grid shape: positive dimensions, one cell per index, and every
    /// cell placed at the column and row its index encodes.
    pub open spec fn wf_grid(self) -> bool {
        &&& 1 <= self.cols
        &&& 1 <= self.rows
        &&& self.n() <= usize::MAX
        &&& self.blocks@.len() == self.n()
        &&& forall|i: int|
            self.in_grid(i) ==> (#[trigger] self.blocks@[i]).x as int == spec_index_to_x(
                i,
                self.cols as int,
            )
        &&& forall|i: int|
            self.in_grid(i) ==> (#[trigger] self.blocks@[i]).y as int == spec_index_to_y(
                i,
                self.cols as int,
            )
    }

    /// Wall sanity: boundary walls stand, the shared wall of two adjacent
    /// cells is one pair (both flags agree), and every wall of an unvisited
    /// cell stands.
    pub open spec fn wf_walls(self) -> bool {
        &&& forall|i: int, d: DIRECTION|
            self.in_grid(i) && self.spec_neighbor(i, d) is None ==> #[trigger] self.wall(i, d)
        &&& forall|i: int, d: DIRECTION|
            self.in_grid(i) && self.spec_neighbor(i, d) is Some ==> #[trigger] self.wall(i, d)
                == self.wall(self.spec_neighbor(i, d)->0, d.spec_opposite())
        &&& forall|i: int, d: DIRECTION|
            self.in_grid(i) && !self.visited(i) ==> #[trigger] self.wall(i, d)
    }

    /// The ghost edge set holds exactly the carved wall-pairs, normalized.
    pub open spec fn wf_edges(self) -> bool {
        forall|e: (int, int)| #[trigger]
            self.edges@.contains(e) <==> (self.adj(e.0, e.1) && e.0 < e.1 && self.carved(
                e.0,
                e.1,
            ))
    }

    /// Carving only ever joins a new cell to the tree: there is always one
    /// more visited cell than carved edges.
    pub open spec fn wf_counts(self) -> bool {
        &&& self.visited_set().finite()
        &&& self.edges@.finite()
        &&& self.visited_set().len() >= 1
        &&& self.edges@.len() == self.visited_set().len() - 1
    }

    /// The carved edges join all visited cells to each other.
    pub open spec fn wf_connected(self) -> bool {
        forall|i: int, j: int|
            self.in_grid(i) && self.in_grid(j) && self.visited(i) && self.visited(j)
                ==> #[trigger] connected(self.edges@, i, j)
    }

    /// The invariant of the driving strategy's own state.
    pub open spec fn wf_strategy(self) -> bool {
        match self.strategy {
            Strategy::Backtracker => {
                &&& self.possible_ways@.len() == 0
                &&& forall|k: int|
                    0 <= k < self.stack@.len() ==> self.in_grid(
                        #[trigger] self.stack@[k] as int,
                    ) && self.visited(self.stack@[k] as int)
                &&& forall|i: int, j: int|
                    self.in_grid(i) && self.visited(i) && !self.stack@.contains(i as usize)
                        && #[trigger] self.adj(i, j) ==> self.visited(j)
            },
            Strategy::Frontier => {
                &&& self.stack@.len() == 0
                &&& self.possible_ways@.no_duplicates()
                &&& forall|k: int|
                    0 <= k < self.possible_ways@.len() ==> {
                        let w = #[trigger] self.possible_ways@[k] as int;
                        self.in_grid(w) && !self.visited(w) && exists|j: int|
                            #[trigger] self.adj(w, j) && self.visited(j)
                    }
                &&& forall|i: int, j: int|
                    self.in_grid(i) && !self.visited(i) && #[trigger] self.adj(i, j)
                        && self.visited(j) ==> self.possible_ways@.contains(i as usize)
            },
        }
    }

    pub open spec fn wf(self) -> bool {
        &&& self.wf_grid()
        &&& self.wf_walls()
        &&& self.wf_edges()
        &&& self.wf_counts()
        &&& self.wf_connected()
        &&& self.wf_strategy()
    }

    /// How much work can still happen; every step strictly shrinks it.
    pub open spec fn measure(self) -> int {
        match self.strategy {
            Strategy::Backtracker => 2 * (self.n() - self.visited_set().len())
                + self.stack@.len(),
            Strategy::Frontier => self.n() - self.visited_set().len(),
        }
    }

    pub fn is_finished(&self) -> (r: bool)
        ensures
            r == self.finished(),
    {
        match self.strategy {
            Strategy::Backtracker => self.stack.len() == 0,
            Strategy::Frontier => self.possible_ways.len() == 0,
        }
    }

    /// The index of the cell next to `index` across `d`, or none when
    /// `index` lies on that edge of the grid. Never under- or overflows.
    pub fn neighbor_in_direction(&self, index: usize, d: DIRECTION) -> (r: Option<usize>)
        requires
            self.wf_grid(),
            (index as int) < self.n(),
        ensures
            match r {
                Some(j) => self.spec_neighbor(index as int, d) == Some(j as int),
                None => self.spec_neighbor(index as int, d) is None,
            },
    {
        let x = index % self.cols;
        let y = index / self.cols;
        match d {
            DIRECTION::UP => if y > 0 {
                proof {
                    lemma_neighbor_in_grid(self.cols as int, self.rows as int, index as int, d);
                }
                Some(index - self.cols)
            } else {
                None
            },
            DIRECTION::RIGHT => if x < self.cols - 1 {
                proof {
                    lemma_neighbor_in_grid(self.cols as int, self.rows as int, index as int, d);
                }
                Some(index + 1)
            } else {
                None
            },
            DIRECTION::DOWN => if y < self.rows - 1 {
                proof {
                    lemma_neighbor_in_grid(self.cols as int, self.rows as int, index as int, d);
                }
                Some(index + self.cols)
            } else {
                None
            },
            DIRECTION::LEFT => if x > 0 {
                proof {
                    lemma_neighbor_in_grid(self.cols as int, self.rows as int, index as int, d);
                }
                Some(index - 1)
            } else {
                None
            },
        }
    }
    /// The unvisited grid-neighbors of `index`, each once.
    fn get_positions_next_block(&self, index: usize) -> (v: Vec<usize>)
        requires
            self.wf_grid(),
            (index as int) < self.n(),
        ensures
            forall|j: usize| #[trigger]
                v@.contains(j) <==> (self.adj(index as int, j as int) && !self.visited(j as int)),
            v@.no_duplicates(),
    {
        let ghost c = self.cols as int;
        let ghost r = self.rows as int;
        let mut v: Vec<usize> = Vec::new();
        let n_up = self.neighbor_in_direction(index, DIRECTION::UP);
        if let Some(j) = n_up {
            proof {
                lemma_neighbor_in_grid(c, r, index as int, DIRECTION::UP);
            }
            if !self.blocks[j].visited {
                v.push(j);
            }
        }
        let n_right = self.neighbor_in_direction(index, DIRECTION::RIGHT);
        if let Some(j) = n_right {
            proof {
                lemma_neighbor_in_grid(c, r, index as int, DIRECTION::RIGHT);
            }
            if !self.blocks[j].visited {
                v.push(j);
            }
        }
        let n_down = self.neighbor_in_direction(index, DIRECTION::DOWN);
        if let Some(j) = n_down {
            proof {
                lemma_neighbor_in_grid(c, r, index as int, DIRECTION::DOWN);
            }
            if !self.blocks[j].visited {
                v.push(j);
            }
        }
        let n_left = self.neighbor_in_direction(index, DIRECTION::LEFT);
        if let Some(j) = n_left {
            proof {
                lemma_neighbor_in_grid(c, r, index as int, DIRECTION::LEFT);
            }
            if !self.blocks[j].visited {
                v.push(j);
            }
        }
        proof {
            assert forall|j: usize|
                self.adj(index as int, j as int) && !self.visited(j as int) implies #[trigger] v@
                .contains(j) by {
                lemma_adjacent_dirs(c, r, index as int, j as int);
                let d = dir_between(c, index as int, j as int);
                assert(self.spec_neighbor(index as int, d) == Some(j as int));
            }
            assert forall|j: usize| #[trigger]
                v@.contains(j) implies (self.adj(index as int, j as int) && !self.visited(
                j as int,
            )) by {}
            assert(v@.no_duplicates());
        }
        v
    }

    /// The neighbors of `index` that are already visited and still separated
    /// from it by a standing wall: the candidate carve partners.
    pub fn possible_directions(&self, index: usize) -> (v: Vec<usize>)
        requires
            self.wf_grid(),
            (index as int) < self.n(),
        ensures
            forall|j: usize| #[trigger]
                v@.contains(j) <==> (self.adj(index as int, j as int) && !self.carved(
                    index as int,
                    j as int,
                ) && self.visited(j as int)),
    {
        let ghost c = self.cols as int;
        let ghost r = self.rows as int;
        let mut v: Vec<usize> = Vec::new();
        let n_up = self.neighbor_in_direction(index, DIRECTION::UP);
        if let Some(j) = n_up {
            proof {
                lemma_neighbor_in_grid(c, r, index as int, DIRECTION::UP);
            }
            if self.blocks[index].has_wall(DIRECTION::UP) && self.blocks[j].visited {
                v.push(j);
            }
        }
        let n_right = self.neighbor_in_direction(index, DIRECTION::RIGHT);
        if let Some(j) = n_right {
            proof {
                lemma_neighbor_in_grid(c, r, index as int, DIRECTION::RIGHT);
            }
            if self.blocks[index].has_wall(DIRECTION::RIGHT) && self.blocks[j].visited {
                v.push(j);
            }
        }
        let n_down = self.neighbor_in_direction(index, DIRECTION::DOWN);
        if let Some(j) = n_down {
            proof {
                lemma_neighbor_in_grid(c, r, index as int, DIRECTION::DOWN);
            }
            if self.blocks[index].has_wall(DIRECTION::DOWN) && self.blocks[j].visited {
                v.push(j);
            }
        }
        let n_left = self.neighbor_in_direction(index, DIRECTION::LEFT);
        if let Some(j) = n_left {
            proof {
                lemma_neighbor_in_grid(c, r, index as int, DIRECTION::LEFT);
            }
            if self.blocks[index].has_wall(DIRECTION::LEFT) && self.blocks[j].visited {
                v.push(j);
            }
        }
        proof {
            assert forall|j: usize|
                self.adj(index as int, j as int) && !self.carved(index as int, j as int)
                    && self.visited(j as int) implies #[trigger] v@.contains(j) by {
                lemma_adjacent_dirs(c, r, index as int, j as int);
                let d = dir_between(c, index as int, j as int);
                assert(self.spec_neighbor(index as int, d) == Some(j as int));
                assert(self.wall(index as int, d));
            }
            assert forall|j: usize| #[trigger]
                v@.contains(j) implies (self.adj(index as int, j as int) && !self.carved(
                index as int,
                j as int,
            ) && self.visited(j as int)) by {}
        }
        v
    }

    /// One visited neighbor of `index` still behind a standing wall, chosen
    /// uniformly at random; none exactly when no such neighbor exists.
    pub fn get_visited_neighborhood(&self, index: usize) -> (r: Option<usize>)
        requires
            self.wf_grid(),
            (index as int) < self.n(),
        ensures
            match r {
                Some(j) => self.adj(index as int, j as int) && !self.carved(
                    index as int,
                    j as int,
                ) && self.visited(j as int),
                None => forall|j: int|
                    #[trigger] self.adj(index as int, j) && !self.carved(index as int, j)
                        ==> !self.visited(j),
            },
    {
        let candidates = self.possible_directions(index);
        if candidates.len() == 0 {
            proof {
                assert forall|j: int|
                    #[trigger] self.adj(index as int, j) && !self.carved(index as int, j) implies
                    !self.visited(j) by {
                    if self.visited(j) {
                        assert(0 <= j < self.n());
                        assert(candidates@.contains(j as usize));
                    }
                }
            }
            return None;
        }
        let pick = rng::choose_from(&candidates);
        Some(pick)
    }

    /// Removes and returns one frontier cell, chosen uniformly at random;
    /// none exactly when the frontier is empty, and then nothing changes.
    pub fn get_random_possible_block(&mut self) -> (r: Option<usize>)
        requires
            old(self).possible_ways@.no_duplicates(),
        ensures
            r is None <==> old(self).possible_ways@.len() == 0,
            r is None ==> *final(self) == *old(self),
            r is Some ==> old(self).possible_ways@.contains(r->0),
            r is Some ==> final(self).possible_ways@.len() == old(self).possible_ways@.len() - 1,
            final(self).possible_ways@.no_duplicates(),
            forall|x: usize| #[trigger]
                final(self).possible_ways@.contains(x) <==> (old(self).possible_ways@.contains(x)
                    && (r is Some ==> x != r->0)),
            final(self).blocks == old(self).blocks,
            final(self).cols == old(self).cols,
            final(self).rows == old(self).rows,
            final(self).stack == old(self).stack,
            final(self).strategy == old(self).strategy,
            final(self).edges == old(self).edges,
    {
        if self.possible_ways.len() == 0 {
            return None;
        }
        let i = rng::rand_below(self.possible_ways.len());
        let ghost s = self.possible_ways@;
        let item = self.possible_ways.swap_remove(i);
        proof {
            lemma_swap_remove_set(s, i as int);
            assert(s.contains(item));
        }
        Some(item)
    }

    /// Inserts every unvisited grid-neighbor of `index` into the frontier;
    /// a cell already pending is not added again, so the frontier stays a
    /// set.
    fn append_positions_next_block(&mut self, index: usize)
        requires
            old(self).wf_grid(),
            (index as int) < old(self).n(),
            old(self).possible_ways@.no_duplicates(),
        ensures
            final(self).possible_ways@.no_duplicates(),
            forall|x: usize| #[trigger]
                final(self).possible_ways@.contains(x) <==> (old(self).possible_ways@.contains(x)
                    || (old(self).adj(index as int, x as int) && !old(self).visited(x as int))),
            final(self).blocks == old(self).blocks,
            final(self).cols == old(self).cols,
            final(self).rows == old(self).rows,
            final(self).stack == old(self).stack,
            final(self).strategy == old(self).strategy,
            final(self).edges == old(self).edges,
    {
        let new_list = self.get_positions_next_block(index);
        let mut k: usize = 0;
        while k < new_list.len()
            invariant
                k <= new_list@.len(),
                self.possible_ways@.no_duplicates(),
                forall|x: usize| #[trigger]
                    self.possible_ways@.contains(x) <==> (old(self).possible_ways@.contains(x)
                        || exists|m: int| 0 <= m < k && new_list@[m] == x),
                self.blocks == old(self).blocks,
                self.cols == old(self).cols,
                self.rows == old(self).rows,
                self.stack == old(self).stack,
                self.strategy == old(self).strategy,
                self.edges == old(self).edges,
            decreases new_list@.len() - k,
        {
            let cand = new_list[k];
            if !vec_contains(&self.possible_ways, cand) {
                self.possible_ways.push(cand);
            }
            proof {
                assert(new_list@[k as int] == cand);
                assert forall|x: usize| #[trigger]
                    self.possible_ways@.contains(x) == (old(self).possible_ways@.contains(x)
                        || exists|m: int| 0 <= m < k + 1 && new_list@[m] == x) by {
                    if old(self).possible_ways@.contains(x) || exists|m: int|
                        0 <= m < k + 1 && new_list@[m] == x {
                        if !old(self).possible_ways@.contains(x) {
                            let m = choose|m: int| 0 <= m < k + 1 && new_list@[m] == x;
                            if m < k {
                                assert(exists|m2: int| 0 <= m2 < k && new_list@[m2] == x);
                            }
                        }
                    }
                }
            }
            k = k + 1;
        }
        proof {
            assert forall|x: usize| #[trigger]
                self.possible_ways@.contains(x) == (old(self).possible_ways@.contains(x) || (old(
                    self,
                ).adj(index as int, x as int) && !old(self).visited(x as int))) by {
                if exists|m: int| 0 <= m < new_list@.len() && new_list@[m] == x {
                    let m = choose|m: int| 0 <= m < new_list@.len() && new_list@[m] == x;
                    assert(new_list@.contains(x));
                }
                if new_list@.contains(x) {
                    let m = choose|m: int| 0 <= m < new_list@.len() && new_list@[m] == x;
                }
            }
        }
    }

    /// Builds a `cols` × `rows` grid with all walls standing, marks `start`
    /// visited, and primes the chosen strategy's pending state there.
    pub fn with_strategy(cols: usize, rows: usize, strategy: Strategy, start: usize) -> (m: Maze)
        requires
            1 <= cols,
            1 <= rows,
            cols * rows <= usize::MAX,
            (start as int) < cols * rows,
        ensures
            m.wf(),
            m.cols == cols,
            m.rows == rows,
            m.strategy == strategy,
            forall|i: int| m.in_grid(i) ==> (m.visited(i) <==> i == start),
            forall|i: int, d: DIRECTION| m.in_grid(i) ==> m.wall(i, d),
            m.edges@ == Set::<(int, int)>::empty(),
            strategy == Strategy::Backtracker ==> m.stack@ == seq![start],
            strategy == Strategy::Frontier ==> forall|x: usize| #[trigger]
                m.possible_ways@.contains(x) <==> m.adj(start as int, x as int),
    {
        let ghost c = cols as int;
        let ghost r = rows as int;
        let mut blocks: Vec<Block> = Vec::new();
        let mut y: usize = 0;
        while y < rows
            invariant
                1 <= cols,
                1 <= rows,
                cols * rows <= usize::MAX,
                y <= rows,
                blocks@.len() == y * cols,
                forall|i: int|
                    0 <= i < blocks@.len() ==> {
                        let b = #[trigger] blocks@[i];
                        b.x as int == spec_index_to_x(i, cols as int) && b.y as int
                            == spec_index_to_y(i, cols as int) && !b.visited && forall|d: DIRECTION|
                            b.wall(d)
                    },
            decreases rows - y,
        {
            let mut x: usize = 0;
            while x < cols
                invariant
                    1 <= cols,
                    1 <= rows,
                    cols * rows <= usize::MAX,
                    y < rows,
                    x <= cols,
                    blocks@.len() == y * cols + x,
                    forall|i: int|
                        0 <= i < blocks@.len() ==> {
                            let b = #[trigger] blocks@[i];
                            b.x as int == spec_index_to_x(i, cols as int) && b.y as int
                                == spec_index_to_y(i, cols as int) && !b.visited && forall|
                                d: DIRECTION,
                            | b.wall(d)
                        },
                decreases cols - x,
            {
                proof {
                    lemma_xy_round_trip(x as int, y as int, cols as int);
                    assert(y * cols + cols <= rows * cols) by (nonlinear_arith)
                        requires
                            y < rows,
                            cols >= 1,
                    ;
                    assert(rows * cols == cols * rows) by (nonlinear_arith);
                }
                blocks.push(Block::new(x, y));
                x = x + 1;
            }
            proof {
                assert((y + 1) * cols == y * cols + cols) by (nonlinear_arith);
            }
            y = y + 1;
        }
        proof {
            assert(rows * cols == cols * rows) by (nonlinear_arith);
        }
        let ghost blocks0 = blocks@;
        let mut m = Maze {
            cols,
            rows,
            blocks,
            possible_ways: Vec::new(),
            stack: Vec::new(),
            strategy,
            edges: Ghost(Set::empty()),
        };
        let mut b = m.blocks[start];
        b.visited = true;
        m.blocks[start] = b;
        proof {
            assert forall|i: int, d: DIRECTION| m.in_grid(i) implies #[trigger] m.wall(i, d) by {
                if i == start as int {
                    assert(m.blocks@[i] == b);
                    assert(b.walls == blocks0[start as int].walls);
                    assert(blocks0[start as int].wall(d));
                } else {
                    assert(m.blocks@[i] == blocks0[i]);
                    assert(blocks0[i].wall(d));
                }
            }
            assert forall|i: int| m.in_grid(i) implies (#[trigger] m.visited(i) <==> i
                == start as int) by {
                if i != start as int {
                    assert(m.blocks@[i] == blocks0[i]);
                }
            }
        }
        let ghost m1 = m;
        match strategy {
            Strategy::Backtracker => {
                m.stack.push(start);
            },
            Strategy::Frontier => {
                m.append_positions_next_block(start);
            },
        }
        proof {
            assert(m.blocks@ == m1.blocks@);
            assert forall|i: int, d: DIRECTION| m.in_grid(i) implies #[trigger] m.wall(i, d) by {
                assert(m1.wall(i, d));
                assert(m.blocks@[i] == m1.blocks@[i]);
            }
            assert forall|i: int| m.in_grid(i) implies (#[trigger] m.visited(i) <==> i
                == start as int) by {
                assert(m.blocks@[i] == m1.blocks@[i]);
                assert(m1.visited(i) <==> i == start as int);
            }
            assert(m.wf_grid());
            assert forall|i: int, d: DIRECTION|
                m.in_grid(i) && m.spec_neighbor(i, d) is Some implies #[trigger] m.wall(i, d)
                == m.wall(m.spec_neighbor(i, d)->0, d.spec_opposite()) by {
                lemma_neighbor_in_grid(c, r, i, d);
            }
            assert(m.wf_walls());
            assert forall|e: (int, int)| #[trigger]
                m.edges@.contains(e) == (m.adj(e.0, e.1) && e.0 < e.1 && m.carved(e.0, e.1)) by {
                if m.adj(e.0, e.1) {
                    assert(m.wall(e.0, dir_between(c, e.0, e.1)));
                }
            }
            assert(m.visited_set() =~= Set::empty().insert(start as int));
            assert(m.wf_counts());
            assert forall|i: int, j: int|
                m.in_grid(i) && m.in_grid(j) && m.visited(i) && m.visited(j) implies #[trigger]
                connected(m.edges@, i, j) by {
                crate::graph::lemma_connected_refl(m.edges@, start as int);
            }
            if strategy == Strategy::Backtracker {
                assert(m.stack@ == seq![start]);
                assert forall|i: int, j: int|
                    m.in_grid(i) && m.visited(i) && !m.stack@.contains(i as usize) && #[trigger] m
                    .adj(i, j) implies m.visited(j) by {
                    assert(i == start as int);
                    assert(m.stack@[0] == start);
                    assert(m.stack@.contains(start));
                }
                assert(m.wf_strategy());
            } else {
                assert forall|x: usize| #[trigger]
                    m.possible_ways@.contains(x) <==> m.adj(start as int, x as int) by {
                    assert(!m1.possible_ways@.contains(x));
                    if m.adj(start as int, x as int) {
                        assert(x as int != start as int);
                        assert(!m1.visited(x as int));
                    }
                }
                assert forall|k: int| 0 <= k < m.possible_ways@.len() implies {
                    let w = #[trigger] m.possible_ways@[k] as int;
                    m.in_grid(w) && !m.visited(w) && exists|j: int|
                        #[trigger] m.adj(w, j) && m.visited(j)
                } by {
                    let x = m.possible_ways@[k];
                    assert(m.possible_ways@.contains(x));
                    assert(m.adj(start as int, x as int));
                    assert(m.adj(x as int, start as int));
                    assert(m.visited(start as int));
                }
                assert forall|i: int, j: int|
                    m.in_grid(i) && !m.visited(i) && #[trigger] m.adj(i, j) && m.visited(j)
                    implies m.possible_ways@.contains(i as usize) by {
                    assert(j == start as int);
                    assert(m.adj(start as int, i));
                    assert((i as usize) as int == i);
                }
                assert(m.wf_strategy());
            }
        }
        m
    }

    /// A maze engine as the animation host builds it: the frontier strategy,
    /// with the first visited cell drawn uniformly at random.
    pub fn new(cols: usize, rows: usize) -> (m: Maze)
        requires
            1 <= cols,
            1 <= rows,
            cols * rows <= usize::MAX,
        ensures
            m.wf(),
            m.cols == cols,
            m.rows == rows,
            m.strategy == Strategy::Frontier,
            m.edges@ == Set::<(int, int)>::empty(),
            forall|i: int, d: DIRECTION| m.in_grid(i) ==> m.wall(i, d),
            exists|s: int|
                m.in_grid(s) && forall|i: int| m.in_grid(i) ==> (m.visited(i) <==> i == s),
    {
        let n = cols * rows;
        proof {
            assert(cols * rows >= 1) by (nonlinear_arith)
                requires
                    cols >= 1,
                    rows >= 1,
            ;
        }
        let start = rng::rand_below(n);
        let m = Maze::with_strategy(cols, rows, Strategy::Frontier, start);
        proof {
            assert(m.in_grid(start as int) && forall|i: int|
                m.in_grid(i) ==> (m.visited(i) <==> i == start as int));
        }
        m
    }

    /// Validated construction: a zero dimension, or a grid too large to
    /// index, is rejected instead of producing an empty engine.
    pub fn try_new(cols: usize, rows: usize) -> (r: Option<Maze>)
        ensures
            r is Some <==> (1 <= cols && 1 <= rows && cols * rows <= usize::MAX),
            match r {
                Some(m) => m.wf() && m.cols == cols && m.rows == rows && m.strategy
                    == Strategy::Frontier,
                None => true,
            },
    {
        if cols == 0 || rows == 0 {
            return None;
        }
        let q = usize::MAX / rows;
        proof {
            vstd::arithmetic::div_mod::lemma_fundamental_div_mod(usize::MAX as int, rows as int);
            vstd::arithmetic::div_mod::lemma_mod_bound(usize::MAX as int, rows as int);
        }
        if cols > q {
            proof {
                assert(cols * rows > usize::MAX) by (nonlinear_arith)
                    requires
                        usize::MAX as int == (rows as int) * (q as int) + usize::MAX as int % (
                        rows as int),
                        usize::MAX as int % (rows as int) < rows as int,
                        cols as int >= q as int + 1,
                        rows >= 1,
                ;
            }
            return None;
        }
        proof {
            assert(cols * rows <= usize::MAX) by (nonlinear_arith)
                requires
                    usize::MAX as int == (rows as int) * (q as int) + usize::MAX as int % (
                    rows as int),
                    0 <= usize::MAX as int % (rows as int),
                    cols as int <= q as int,
                    rows >= 1,
            ;
        }
        Some(Maze::new(cols, rows))
    }

    /// Exactly the effect of one carve between adjacent `a` and `b`: both
    /// cells visited, the shared wall-pair cleared, the pair recorded in the
    /// edge set, and nothing else changed.
    pub open spec fn carve_rel(pre: Maze, post: Maze, a: int, b: int) -> bool {
        let d = dir_between(pre.cols as int, a, b);
        let o = d.spec_opposite();
        &&& post.cols == pre.cols
        &&& post.rows == pre.rows
        &&& post.possible_ways == pre.possible_ways
        &&& post.stack == pre.stack
        &&& post.strategy == pre.strategy
        &&& post.blocks@.len() == pre.blocks@.len()
        &&& forall|k: int|
            0 <= k < pre.blocks@.len() && k != a && k != b ==> post.blocks@[k] == pre.blocks@[k]
        &&& post.blocks@[a].x == pre.blocks@[a].x
        &&& post.blocks@[a].y == pre.blocks@[a].y
        &&& post.blocks@[b].x == pre.blocks@[b].x
        &&& post.blocks@[b].y == pre.blocks@[b].y
        &&& post.blocks@[a].visited
        &&& post.blocks@[b].visited
        &&& !post.wall(a, d)
        &&& !post.wall(b, o)
        &&& forall|d2: DIRECTION| d2 != d ==> post.wall(a, d2) == pre.wall(a, d2)
        &&& forall|d2: DIRECTION| d2 != o ==> post.wall(b, d2) == pre.wall(b, d2)
        &&& post.edges@ == pre.edges@.insert(norm_pair(a, b))
    }

    /// Carves the wall-pair between two adjacent cells: the wall from each
    /// toward the other falls, both cells become visited, and no other wall
    /// or cell changes.
    pub fn break_wall(&mut self, current_index: usize, next_index: usize)
        requires
            old(self).wf_grid(),
            old(self).adj(current_index as int, next_index as int),
        ensures
            Maze::carve_rel(*old(self), *final(self), current_index as int, next_index as int),
    {
        let ghost c = self.cols as int;
        let ghost r = self.rows as int;
        proof {
            lemma_adjacent_dirs(c, r, current_index as int, next_index as int);
        }
        let d: DIRECTION = if current_index > next_index && current_index - next_index
            == self.cols {
            DIRECTION::UP
        } else if next_index > current_index && next_index - current_index == self.cols {
            DIRECTION::DOWN
        } else if next_index > current_index && next_index - current_index == 1 {
            DIRECTION::RIGHT
        } else {
            DIRECTION::LEFT
        };
        proof {
            assert(d == dir_between(c, current_index as int, next_index as int));
        }
        let o = d.opposite();
        let mut cur = self.blocks[current_index];
        cur.visited = true;
        cur.walls[d.wall_index()] = false;
        self.blocks[current_index] = cur;
        let mut nxt = self.blocks[next_index];
        nxt.visited = true;
        nxt.walls[o.wall_index()] = false;
        self.blocks[next_index] = nxt;
        self.edges = Ghost(
            self.edges@.insert(norm_pair(current_index as int, next_index as int)),
        );
    }

    /// One generation step, as the external scheduler drives it once per
    /// tick. A finished engine is left exactly as it is; otherwise the
    /// engine's remaining work strictly shrinks, and every invariant — wall
    /// symmetry, the edge count, connectivity of the visited region — is
    /// preserved.
    pub fn run(&mut self)
        requires
            old(self).wf(),
        ensures
            final(self).wf(),
            final(self).cols == old(self).cols,
            final(self).rows == old(self).rows,
            final(self).strategy == old(self).strategy,
            old(self).finished() ==> *final(self) == *old(self),
            !old(self).finished() ==> final(self).measure() < old(self).measure(),
            // a step either carves a passage to exactly one new cell, or (for
            // the backtracker) retreats, touching no cell at all
            !old(self).finished() ==> final(self).visited_set().len()
                == old(self).visited_set().len() + 1 || (final(self).blocks@ == old(self).blocks@
                && final(self).stack@.len() < old(self).stack@.len()),
            old(self).strategy == Strategy::Frontier && !old(self).finished()
                ==> final(self).visited_set().len() == old(self).visited_set().len() + 1,
            forall|i: int|
                old(self).in_grid(i) && old(self).visited(i) ==> final(self).visited(i),
    {
        match self.strategy {
            Strategy::Backtracker => self.run_backtracker(),
            Strategy::Frontier => self.run_frontier(),
        }
    }

    /// One growing-tree step: draw a frontier cell, carve to one of its
    /// visited neighbors, and put its own unvisited neighbors on the
    /// frontier.
    fn run_frontier(&mut self)
        requires
            old(self).wf(),
            old(self).strategy == Strategy::Frontier,
        ensures
            final(self).wf(),
            final(self).cols == old(self).cols,
            final(self).rows == old(self).rows,
            final(self).strategy == old(self).strategy,
            old(self).finished() ==> *final(self) == *old(self),
            !old(self).finished() ==> final(self).measure() < old(self).measure(),
            !old(self).finished() ==> final(self).visited_set().len()
                == old(self).visited_set().len() + 1,
            forall|i: int|
                old(self).in_grid(i) && old(self).visited(i) ==> final(self).visited(i),
    {
        let ghost pre = *self;
        let ghost c = self.cols as int;
        if self.possible_ways.len() == 0 {
            return;
        }
        let way = self.get_random_possible_block();
        proof {
            assert(way is Some);
        }
        if let Some(index) = way {
            let ghost s1 = *self;
            proof {
                lemma_core_wf_transfer(pre, s1);
                assert(pre.possible_ways@.contains(index));
                let k = choose|k: int|
                    0 <= k < pre.possible_ways@.len() && pre.possible_ways@[k] == index;
                assert(pre.possible_ways@[k] == index);
                assert(pre.in_grid(index as int) && !pre.visited(index as int));
            }
            let neighborhood = self.get_visited_neighborhood(index);
            proof {
                let j0 = choose|j: int| #[trigger] pre.adj(index as int, j) && pre.visited(j);
                assert(s1.adj(index as int, j0) && s1.visited(j0));
                assert(s1.wall(index as int, dir_between(c, index as int, j0)));
                assert(!s1.carved(index as int, j0));
                assert(neighborhood is Some);
            }
            if let Some(next) = neighborhood {
                self.append_positions_next_block(index);
                let ghost s2 = *self;
                proof {
                    lemma_core_wf_transfer(s1, s2);
                }
                self.break_wall(index, next);
                proof {
                    let post = *self;
                    lemma_carve_preserves(s2, post, index as int, next as int);
                    assert(post.possible_ways@ == s2.possible_ways@);
                    assert(post.stack@.len() == 0);
                    assert forall|k: int| 0 <= k < post.possible_ways@.len() implies {
                        let w = #[trigger] post.possible_ways@[k] as int;
                        post.in_grid(w) && !post.visited(w) && exists|j: int|
                            #[trigger] post.adj(w, j) && post.visited(j)
                    } by {
                        let x = post.possible_ways@[k];
                        assert(post.possible_ways@.contains(x));
                        assert(s2.possible_ways@.contains(x));
                        if s1.possible_ways@.contains(x) {
                            assert(pre.possible_ways@.contains(x) && x != index);
                            let k0 = choose|k0: int|
                                0 <= k0 < pre.possible_ways@.len() && pre.possible_ways@[k0] == x;
                            assert(pre.possible_ways@[k0] == x);
                            assert(pre.in_grid(x as int) && !pre.visited(x as int));
                            let j0 = choose|j: int|
                                #[trigger] pre.adj(x as int, j) && pre.visited(j);
                            assert(post.adj(x as int, j0) && post.visited(j0));
                            assert(!post.visited(x as int));
                        } else {
                            assert(s1.adj(index as int, x as int) && !s1.visited(x as int));
                            assert(post.adj(x as int, index as int));
                            assert(post.visited(index as int));
                            assert(x as int != index as int);
                            assert(!post.visited(x as int));
                        }
                    }
                    assert forall|i: int, j: int|
                        post.in_grid(i) && !post.visited(i) && #[trigger] post.adj(i, j)
                            && post.visited(j) implies post.possible_ways@.contains(
                        i as usize,
                    ) by {
                        assert((i as usize) as int == i);
                        assert(!pre.visited(i) && i != index as int);
                        if pre.visited(j) {
                            assert(pre.adj(i, j));
                            assert(pre.possible_ways@.contains(i as usize));
                            assert(s1.possible_ways@.contains(i as usize));
                            assert(s2.possible_ways@.contains(i as usize));
                        } else {
                            assert(j == index as int);
                            assert(s1.adj(index as int, i) && !s1.visited(i));
                            assert(s2.possible_ways@.contains(i as usize));
                        }
                    }
                    assert(post.wf_strategy());
                    assert(post.wf());
                    assert(post.visited_set().len() == pre.visited_set().len() + 1);
                    assert(post.measure() < pre.measure());
                }
            }
        }
    }

    /// One depth-first step: carve toward an unvisited neighbor of the stack
    /// top, or retreat past cells with nothing left to explore.
    fn run_backtracker(&mut self)
        requires
            old(self).wf(),
            old(self).strategy == Strategy::Backtracker,
        ensures
            final(self).wf(),
            final(self).cols == old(self).cols,
            final(self).rows == old(self).rows,
            final(self).strategy == old(self).strategy,
            old(self).finished() ==> *final(self) == *old(self),
            !old(self).finished() ==> final(self).measure() < old(self).measure(),
            !old(self).finished() ==> final(self).visited_set().len()
                == old(self).visited_set().len() + 1 || (final(self).blocks@ == old(self).blocks@
                && final(self).stack@.len() < old(self).stack@.len()),
            forall|i: int|
                old(self).in_grid(i) && old(self).visited(i) ==> final(self).visited(i),
    {
        let ghost pre = *self;
        let ghost c = self.cols as int;
        let ghost r = self.rows as int;
        let stack_len = self.stack.len();
        if stack_len == 0 {
            return;
        }
        let current = self.stack[stack_len - 1];
        proof {
            assert(pre.stack@[stack_len - 1] == current);
            assert(pre.in_grid(current as int) && pre.visited(current as int));
        }
        let candidates = self.get_positions_next_block(current);
        if candidates.len() > 0 {
            let chosen = rng::choose_from(&candidates);
            proof {
                assert(candidates@.contains(chosen));
                assert(pre.adj(current as int, chosen as int) && !pre.visited(chosen as int));
            }
            self.break_wall(current, chosen);
            let ghost s1 = *self;
            proof {
                lemma_adjacent_dirs(c, r, current as int, chosen as int);
                assert(Maze::carve_rel(pre, s1, chosen as int, current as int));
                lemma_carve_preserves(pre, s1, chosen as int, current as int);
            }
            self.stack.push(chosen);
            proof {
                let post = *self;
                lemma_core_wf_transfer(s1, post);
                assert(post.stack@ == pre.stack@.push(chosen));
                assert(post.possible_ways@.len() == 0);
                assert forall|k: int| 0 <= k < post.stack@.len() implies post.in_grid(
                    #[trigger] post.stack@[k] as int,
                ) && post.visited(post.stack@[k] as int) by {
                    if k < pre.stack@.len() {
                        assert(pre.stack@[k] == post.stack@[k]);
                        assert(pre.visited(post.stack@[k] as int));
                    } else {
                        assert(post.stack@[k] == chosen);
                    }
                }
                assert forall|i: int, j: int|
                    post.in_grid(i) && post.visited(i) && !post.stack@.contains(i as usize)
                        && #[trigger] post.adj(i, j) implies post.visited(j) by {
                    assert((i as usize) as int == i);
                    assert(!pre.stack@.contains(i as usize));
                    assert(i != chosen as int);
                    assert(pre.visited(i));
                    assert(pre.adj(i, j));
                    assert(pre.visited(j));
                }
                assert(post.wf_strategy());
                assert(post.wf());
                assert(post.visited_set().len() == pre.visited_set().len() + 1);
                assert(post.stack@.len() == pre.stack@.len() + 1);
                assert(post.measure() < pre.measure());
            }
        } else {
            proof {
                assert forall|j: int| #[trigger] pre.adj(current as int, j) implies pre.visited(
                    j,
                ) by {
                    if !pre.visited(j) {
                        assert(0 <= j < pre.n());
                        assert(candidates@.contains(j as usize));
                    }
                }
            }
            let _ = self.stack.pop();
            proof {
                lemma_core_wf_transfer(pre, *self);
                assert(pre.stack@ =~= self.stack@.push(current));
                assert forall|i: int, j: int|
                    self.in_grid(i) && self.visited(i) && !self.stack@.contains(i as usize)
                        && #[trigger] self.adj(i, j) implies self.visited(j) by {
                    assert((i as usize) as int == i);
                    if i == current as int {
                        assert(pre.adj(current as int, j));
                    } else {
                        assert(!pre.stack@.contains(i as usize));
                        assert(pre.adj(i, j));
                    }
                }
            }
            while self.stack.len() > 0
                invariant
                    self.cols == pre.cols,
                    self.rows == pre.rows,
                    self.strategy == pre.strategy,
                    self.blocks == pre.blocks,
                    self.possible_ways == pre.possible_ways,
                    self.edges == pre.edges,
                    self.wf_grid(),
                    self.wf_walls(),
                    self.wf_edges(),
                    self.wf_counts(),
                    self.wf_connected(),
                    self.possible_ways@.len() == 0,
                    self.stack@.len() < pre.stack@.len(),
                    forall|k: int|
                        0 <= k < self.stack@.len() ==> self.in_grid(
                            #[trigger] self.stack@[k] as int,
                        ) && self.visited(self.stack@[k] as int),
                    forall|i: int, j: int|
                        self.in_grid(i) && self.visited(i) && !self.stack@.contains(i as usize)
                            && #[trigger] self.adj(i, j) ==> self.visited(j),
                decreases self.stack@.len(),
            {
                let ghost sp = *self;
                let top = self.stack[self.stack.len() - 1];
                let cands = self.get_positions_next_block(top);
                if cands.len() > 0 {
                    break;
                }
                proof {
                    assert forall|j: int| #[trigger] sp.adj(top as int, j) implies sp.visited(
                        j,
                    ) by {
                        if !sp.visited(j) {
                            assert(0 <= j < sp.n());
                            assert(cands@.contains(j as usize));
                        }
                    }
                }
                let _ = self.stack.pop();
                proof {
                    lemma_core_wf_transfer(sp, *self);
                    assert(sp.stack@ =~= self.stack@.push(top));
                    assert forall|i: int, j: int|
                        self.in_grid(i) && self.visited(i) && !self.stack@.contains(i as usize)
                            && #[trigger] self.adj(i, j) implies self.visited(j) by {
                        assert((i as usize) as int == i);
                        if i == top as int {
                            assert(sp.adj(top as int, j));
                        } else {
                            assert(!sp.stack@.contains(i as usize));
                            assert(sp.adj(i, j));
                        }
                    }
                }
            }
            proof {
                let post = *self;
                assert(post.wf_strategy());
                assert(post.wf());
                assert(post.visited_set() == pre.visited_set());
                assert(post.measure() < pre.measure());
            }
        }
    }

}

/// Whether `x` occurs in `v`.
fn vec_contains(v: &Vec<usize>, x: usize) -> (r: bool)
    ensures
        r == v@.contains(x),
{
    let mut k: usize = 0;
    while k < v.len()
        invariant
            k <= v@.len(),
            forall|m: int| 0 <= m < k ==> v@[m] != x,
        decreases v@.len() - k,
    {
        if v[k] == x {
            return true;
        }
        k = k + 1;
    }
    false
}

/// The five core invariants only read the dimensions, the cells and the
/// edge set, so they carry over to a state that differs in other fields.
proof fn lemma_core_wf_transfer(a: Maze, b: Maze)
    requires
        a.wf_grid(),
        a.wf_walls(),
        a.wf_edges(),
        a.wf_counts(),
        a.wf_connected(),
        b.cols == a.cols,
        b.rows == a.rows,
        b.blocks@ == a.blocks@,
        b.edges@ == a.edges@,
    ensures
        b.wf_grid(),
        b.wf_walls(),
        b.wf_edges(),
        b.wf_counts(),
        b.wf_connected(),
        b.visited_set() == a.visited_set(),
{
    assert(b.visited_set() =~= a.visited_set());
    assert forall|i: int, d: DIRECTION|
        b.in_grid(i) && b.spec_neighbor(i, d) is None implies #[trigger] b.wall(i, d) by {
        assert(a.wall(i, d));
    }
    assert forall|i: int, d: DIRECTION|
        b.in_grid(i) && b.spec_neighbor(i, d) is Some implies #[trigger] b.wall(i, d) == b.wall(
        b.spec_neighbor(i, d)->0,
        d.spec_opposite(),
    ) by {
        assert(a.wall(i, d) == a.wall(a.spec_neighbor(i, d)->0, d.spec_opposite()));
    }
    assert forall|i: int, d: DIRECTION|
        b.in_grid(i) && !b.visited(i) implies #[trigger] b.wall(i, d) by {
        assert(a.wall(i, d));
    }
}

/// After carving between adjacent `a` and `b`, where `b` was already part of
/// the tree and `a` was not, every core invariant still holds, and exactly
/// `a` joined the visited set.
proof fn lemma_carve_preserves(pre: Maze, post: Maze, a: int, b: int)
    requires
        pre.wf_grid(),
        pre.wf_walls(),
        pre.wf_edges(),
        pre.wf_counts(),
        pre.wf_connected(),
        pre.adj(a, b),
        !pre.visited(a),
        pre.visited(b),
        Maze::carve_rel(pre, post, a, b),
    ensures
        post.wf_grid(),
        post.wf_walls(),
        post.wf_edges(),
        post.wf_counts(),
        post.wf_connected(),
        post.visited_set() == pre.visited_set().insert(a),
        forall|i: int| post.in_grid(i) ==> (post.visited(i) <==> (pre.visited(i) || i == a)),
{
    let c = pre.cols as int;
    let r = pre.rows as int;
    let d0 = dir_between(c, a, b);
    let o0 = d0.spec_opposite();
    let ne = norm_pair(a, b);
    lemma_adjacent_dirs(c, r, a, b);
    assert(neighbor_of(c, r, a, d0) == Some(b));
    assert(neighbor_of(c, r, b, o0) == Some(a));
    assert(dir_between(c, b, a) == o0);

    // how visited changed
    assert forall|i: int| post.in_grid(i) implies (#[trigger] post.visited(i) <==> (pre.visited(i)
        || i == a)) by {
        if i != a && i != b {
            assert(post.blocks@[i] == pre.blocks@[i]);
        }
    }
    assert(post.visited_set() =~= pre.visited_set().insert(a));

    // positions unchanged
    assert forall|i: int| post.in_grid(i) implies (#[trigger] post.blocks@[i]).x as int
        == spec_index_to_x(i, c) && post.blocks@[i].y as int == spec_index_to_y(i, c) by {
        if i != a && i != b {
            assert(post.blocks@[i] == pre.blocks@[i]);
        }
    }
    assert(post.wf_grid());

    // how walls changed: only the two carved slots
    assert forall|i: int, d: DIRECTION|
        pre.in_grid(i) && !(i == a && d == d0) && !(i == b && d == o0) implies #[trigger] post
        .wall(i, d) == pre.wall(i, d) by {
        if i != a && i != b {
            assert(post.blocks@[i] == pre.blocks@[i]);
        }
    }

    // boundary walls: the carved slots point at real neighbors
    assert forall|i: int, d: DIRECTION|
        post.in_grid(i) && post.spec_neighbor(i, d) is None implies #[trigger] post.wall(
        i,
        d,
    ) by {
        assert(!(i == a && d == d0) && !(i == b && d == o0));
    }

    // symmetry
    assert forall|i: int, d: DIRECTION|
        post.in_grid(i) && post.spec_neighbor(i, d) is Some implies #[trigger] post.wall(i, d)
        == post.wall(post.spec_neighbor(i, d)->0, d.spec_opposite()) by {
        let j = post.spec_neighbor(i, d)->0;
        lemma_neighbor_in_grid(c, r, i, d);
        lemma_adjacent_dirs(c, r, i, j);
        if i == a && d == d0 {
            assert(j == b);
            assert(!post.wall(i, d) && !post.wall(j, d.spec_opposite()));
        } else if i == b && d == o0 {
            assert(j == a);
            assert(d.spec_opposite() == d0);
            assert(!post.wall(i, d) && !post.wall(j, d.spec_opposite()));
        } else {
            assert(dir_between(c, i, j) == d);
            assert(dir_between(c, j, i) == d.spec_opposite());
            assert(neighbor_of(c, r, j, d.spec_opposite()) == Some(i));
            if j == a && d.spec_opposite() == d0 {
                assert(i == b && d == o0);
            }
            if j == b && d.spec_opposite() == o0 {
                assert(i == a && d == d0);
            }
            assert(post.wall(i, d) == pre.wall(i, d));
            assert(post.wall(j, d.spec_opposite()) == pre.wall(j, d.spec_opposite()));
        }
    }

    // unvisited cells keep all their walls
    assert forall|i: int, d: DIRECTION|
        post.in_grid(i) && !post.visited(i) implies #[trigger] post.wall(i, d) by {
        assert(i != a && i != b);
        assert(post.wall(i, d) == pre.wall(i, d));
    }
    assert(post.wf_walls());

    // the edge set still mirrors the walls exactly
    assert(ne.0 < ne.1);
    assert forall|e: (int, int)| #[trigger]
        post.edges@.contains(e) == (post.adj(e.0, e.1) && e.0 < e.1 && post.carved(
            e.0,
            e.1,
        )) by {
        if e == ne {
            assert(post.edges@.contains(e));
            if ne.0 == a {
                assert(post.carved(e.0, e.1));
            } else {
                assert(ne == (b, a));
                assert(dir_between(c, b, a) == o0);
                assert(post.carved(e.0, e.1));
            }
        } else {
            assert(post.edges@.contains(e) == pre.edges@.contains(e));
            if pre.adj(e.0, e.1) {
                lemma_adjacent_dirs(c, r, e.0, e.1);
                let de = dir_between(c, e.0, e.1);
                if e.0 == a && de == d0 {
                    assert(e.1 == b);
                    assert(e == (a, b) || !(e.0 < e.1));
                }
                if e.0 == b && de == o0 {
                    assert(e.1 == a);
                }
                if e.0 < e.1 {
                    assert(!(e.0 == a && de == d0) && !(e.0 == b && de == o0));
                    assert(post.carved(e.0, e.1) == pre.carved(e.0, e.1));
                }
            }
        }
    }
    assert(post.wf_edges());

    // the fresh cell had every wall standing, so its pair was not yet carved
    assert(!pre.edges@.contains(ne)) by {
        if pre.edges@.contains(ne) {
            if ne.0 == a {
                assert(pre.wall(a, dir_between(c, a, b)));
            } else {
                assert(pre.wall(b, o0) == pre.wall(a, d0));
            }
        }
    }
    assert(!pre.visited_set().contains(a));
    assert(post.edges@.len() == pre.edges@.len() + 1);
    assert(post.visited_set().len() == pre.visited_set().len() + 1);
    assert(post.wf_counts());

    // connectivity: the new cell hangs off its partner
    assert(pre.edges@.subset_of(post.edges@));
    assert forall|i: int, j: int|
        post.in_grid(i) && post.in_grid(j) && post.visited(i) && post.visited(j) implies
        #[trigger] connected(post.edges@, i, j) by {
        assert(post.edges@.contains(norm_pair(b, a)));
        if i == a && j == a {
            crate::graph::lemma_connected_refl(post.edges@, a);
        } else if i == a {
            crate::graph::lemma_connected_mono(pre.edges@, post.edges@, j, b);
            crate::graph::lemma_connected_step(post.edges@, j, b, a);
            crate::graph::lemma_connected_sym(post.edges@, j, a);
        } else if j == a {
            crate::graph::lemma_connected_mono(pre.edges@, post.edges@, i, b);
            crate::graph::lemma_connected_step(post.edges@, i, b, a);
        } else {
            crate::graph::lemma_connected_mono(pre.edges@, post.edges@, i, j);
        }
    }
}

/// The absolute difference, used to measure how far apart two cells are.
pub open spec fn dist(a: int, b: int) -> int {
    if a < b {
        b - a
    } else {
        a - b
    }
}

/// Once the visited region is closed under adjacency, one visited cell
/// implies that every cell is visited: walk column-wise, then row-wise.
proof fn lemma_spread(m: Maze, s: int, t: int)
    requires
        m.wf_grid(),
        forall|i: int, j: int|
            m.in_grid(i) && m.visited(i) && #[trigger] m.adj(i, j) ==> m.visited(j),
        m.in_grid(s),
        m.in_grid(t),
        m.visited(s),
    ensures
        m.visited(t),
    decreases dist(spec_index_to_x(s, m.cols as int), spec_index_to_x(t, m.cols as int)) + dist(
        spec_index_to_y(s, m.cols as int),
        spec_index_to_y(t, m.cols as int),
    ),
{
    let c = m.cols as int;
    let r = m.rows as int;
    crate::grid::lemma_decompose(c, r, s);
    crate::grid::lemma_decompose(c, r, t);
    let xs = spec_index_to_x(s, c);
    let ys = spec_index_to_y(s, c);
    let xt = spec_index_to_x(t, c);
    let yt = spec_index_to_y(t, c);
    if xs == xt && ys == yt {
        assert(s == t);
    } else if xs < xt {
        assert(neighbor_of(c, r, s, DIRECTION::RIGHT) == Some(s + 1));
        lemma_neighbor_in_grid(c, r, s, DIRECTION::RIGHT);
        assert(m.adj(s, s + 1));
        lemma_xy_round_trip(xs + 1, ys, c);
        lemma_spread(m, s + 1, t);
    } else if xs > xt {
        assert(neighbor_of(c, r, s, DIRECTION::LEFT) == Some(s - 1));
        lemma_neighbor_in_grid(c, r, s, DIRECTION::LEFT);
        assert(m.adj(s, s - 1));
        lemma_xy_round_trip(xs - 1, ys, c);
        lemma_spread(m, s - 1, t);
    } else if ys < yt {
        assert(neighbor_of(c, r, s, DIRECTION::DOWN) == Some(s + c));
        lemma_neighbor_in_grid(c, r, s, DIRECTION::DOWN);
        assert(m.adj(s, s + c));
        assert(s + c == xs + (ys + 1) * c) by (nonlinear_arith)
            requires
                s == xs + ys * c,
        ;
        lemma_xy_round_trip(xs, ys + 1, c);
        lemma_spread(m, s + c, t);
    } else {
        assert(neighbor_of(c, r, s, DIRECTION::UP) == Some(s - c));
        lemma_neighbor_in_grid(c, r, s, DIRECTION::UP);
        assert(m.adj(s, s - c));
        assert(s - c == xs + (ys - 1) * c) by (nonlinear_arith)
            requires
                s == xs + ys * c,
        ;
        lemma_xy_round_trip(xs, ys - 1, c);
        lemma_spread(m, s - c, t);
    }
}

/// The measure of pending work never goes below zero. Together with the
/// strict decrease that `run` guarantees on an unfinished engine, a host
/// loop that steps until `is_finished` always terminates.
pub proof fn lemma_measure_nonnegative(m: Maze)
    requires
        m.wf(),
    ensures
        0 <= m.measure(),
{
    assert(m.visited_set().subset_of(vstd::set_lib::set_int_range(0, m.n())));
    vstd::set_lib::lemma_int_range(0, m.n());
    vstd::set_lib::lemma_len_subset(m.visited_set(), vstd::set_lib::set_int_range(0, m.n()));
}

/// When either strategy reports finished, the maze is perfect: every cell
/// has been visited, exactly `cols * rows - 1` wall-pairs were carved, and
/// the carved passages join every pair of cells. A connected graph on `n`
/// nodes with `n - 1` edges has no cycle, so the result is a spanning tree.
pub proof fn lemma_finished_spanning_tree(m: Maze)
    requires
        m.wf(),
        m.finished(),
    ensures
        forall|i: int| m.in_grid(i) ==> m.visited(i),
        m.edges@.len() == m.n() - 1,
        forall|i: int, j: int|
            m.in_grid(i) && m.in_grid(j) ==> #[trigger] connected(m.edges@, i, j),
{
    // with no pending work, the visited region is closed under adjacency
    assert forall|i: int, j: int|
        m.in_grid(i) && m.visited(i) && #[trigger] m.adj(i, j) implies m.visited(j) by {
        if m.strategy == Strategy::Backtracker {
            assert(!m.stack@.contains(i as usize));
        } else {
            if !m.visited(j) {
                assert(m.adj(j, i));
                assert((j as usize) as int == j);
                assert(m.possible_ways@.contains(j as usize));
            }
        }
    }
    // some cell is visited, and closure spreads that to all of them
    assert(exists|s0: int| m.visited_set().contains(s0)) by {
        if !(exists|s0: int| m.visited_set().contains(s0)) {
            assert(m.visited_set() =~= Set::empty());
        }
    }
    let s0 = choose|s0: int| m.visited_set().contains(s0);
    assert forall|i: int| m.in_grid(i) implies m.visited(i) by {
        lemma_spread(m, s0, i);
    }
    // every cell visited means one carved edge short of the cell count
    assert(m.visited_set() =~= vstd::set_lib::set_int_range(0, m.n()));
    vstd::set_lib::lemma_int_range(0, m.n());
    // and the visited region is pairwise connected
    assert forall|i: int, j: int|
        m.in_grid(i) && m.in_grid(j) implies #[trigger] connected(m.edges@, i, j) by {
        assert(m.visited(i) && m.visited(j));
    }
}

/// Removing position `i` of a duplicate-free sequence by swapping the last
/// element into its place drops exactly that element.
proof fn lemma_swap_remove_set(s: Seq<usize>, i: int)
    requires
        s.no_duplicates(),
        0 <= i < s.len(),
    ensures
        s.update(i, s.last()).drop_last().no_duplicates(),
        forall|x: usize| #[trigger]
            s.update(i, s.last()).drop_last().contains(x) <==> (s.contains(x) && x != s[i]),
{
    let t = s.update(i, s.last()).drop_last();
    assert forall|x: usize| #[trigger] t.contains(x) implies (s.contains(x) && x != s[i]) by {
        let k = choose|k: int| 0 <= k < t.len() && t[k] == x;
        if k == i {
            assert(s[s.len() - 1] == x);
        } else {
            assert(s[k] == x);
        }
    }
    assert forall|x: usize| s.contains(x) && x != s[i] implies #[trigger] t.contains(x) by {
        let k = choose|k: int| 0 <= k < s.len() && s[k] == x;
        if k == s.len() - 1 {
            assert(i < s.len() - 1);
            assert(t[i] == x);
        } else {
            assert(t[k] == x);
        }
    }
    assert forall|k1: int, k2: int| 0 <= k1 < k2 < t.len() implies t[k1] != t[k2] by {
        assert(t[k1] == if k1 == i { s[s.len() - 1] } else { s[k1] });
        assert(t[k2] == if k2 == i { s[s.len() - 1] } else { s[k2] });
    }
}

} // verus!
