//! The turn engine: owns the board graph and the two players, validates and
//! applies moves, and drives the end-of-turn termination check.

use vstd::prelude::*;

use crate::graph::{distinct_ids, occurrences, repeated, spec_canonical, spec_entries_in_range, Graph,
    GraphLoop};

verus! {

pub struct Player {
    id: u8,
    name: String,
}

impl Player {
    pub closed spec fn spec_id(self) -> u8 {
        self.id
    }

    pub closed spec fn spec_name(self) -> Seq<char> {
        self.name@
    }

    pub fn new(id: u8, name: String) -> (r: Player)
        ensures
            r.spec_id() == id,
            r.spec_name() == name@,
    {
        Player { id, name }
    }
}

#[derive(Clone, Copy)]
pub enum GameState {
    ACTIVE,
    END(u8),
}

/// A move `a`-`b` is legal when both spots exist and are alive (degree below
/// three); a spot may be joined to itself only while it has at most one
/// connection, since the self-loop adds two to its degree.
pub open spec fn spec_can_connect(g: Seq<Seq<usize>>, a: usize, b: usize) -> bool {
    &&& (a as int) < g.len()
    &&& (b as int) < g.len()
    &&& (a == b ==> g[a as int].len() < 2)
    &&& g[a as int].len() < 3
    &&& g[b as int].len() < 3
}

/// The board after a legal move `a`-`b`: a fresh midpoint node whose id is the
/// old node count is wired symmetrically to both endpoints, so each endpoint
/// gains one connection — or two, for a self-loop — and the new node starts
/// at degree two.
pub open spec fn spec_after_move(g: Seq<Seq<usize>>, a: usize, b: usize) -> Seq<Seq<usize>> {
    let id = g.len() as usize;
    Seq::new(
        g.len() + 1,
        |i: int|
            if i == g.len() {
                seq![a, b]
            } else if i == a as int && i == b as int {
                g[i].push(id).push(id)
            } else if i == a as int || i == b as int {
                g[i].push(id)
            } else {
                g[i]
            },
    )
}

pub struct Game {
    graph: Graph,
    player1: Player,
    player2: Player,
    turn: u8,
    state: GameState,
}

impl Game {
    pub closed spec fn spec_graph(self) -> Seq<Seq<usize>> {
        self.graph@
    }

    pub closed spec fn spec_player1(self) -> Player {
        self.player1
    }

    pub closed spec fn spec_player2(self) -> Player {
        self.player2
    }

    pub closed spec fn spec_turn(self) -> u8 {
        self.turn
    }

    /// The winning player's id, carried by the ended state; zero while the
    /// game is running.
    pub closed spec fn spec_winner(self) -> u8 {
        match self.state {
            GameState::ACTIVE => 0,
            GameState::END(w) => w,
        }
    }

    pub closed spec fn spec_state(self) -> GameState {
        self.state
    }

    /// The two player ids are distinct, the turn pointer names one of them,
    /// and every adjacency entry names an existing node.
    pub open spec fn wf(self) -> bool {
        &&& self.spec_player1().spec_id() != self.spec_player2().spec_id()
        &&& (self.spec_turn() == self.spec_player1().spec_id() || self.spec_turn()
            == self.spec_player2().spec_id())
        &&& spec_entries_in_range(self.spec_graph())
    }

    /// A node is alive — still eligible for a connection — while its degree
    /// is below three.
    pub open spec fn spec_alive(self, node: usize) -> bool {
        self.spec_graph()[node as int].len() < 3
    }

    /// The id of the player who is not on turn.
    pub open spec fn spec_other(self) -> u8 {
        if self.spec_turn() == self.spec_player1().spec_id() {
            self.spec_player2().spec_id()
        } else {
            self.spec_player1().spec_id()
        }
    }

    pub fn new(player1: Player, player2: Player, n: usize) -> (game: Game)
        requires
            player1.spec_id() != player2.spec_id(),
        ensures
            game.spec_graph().len() == n,
            forall|i: int| 0 <= i < n ==> game.spec_graph()[i] == Seq::<usize>::empty(),
            game.spec_turn() == player1.spec_id(),
            game.spec_state() is ACTIVE,
            game.spec_winner() == 0,
            game.spec_player1() == player1,
            game.spec_player2() == player2,
            game.wf(),
    {
        let mut graph = Graph::new();
        let mut i: usize = 0;
        while i < n
            invariant
                i <= n,
                graph@.len() == i,
                forall|j: int| 0 <= j < i ==> graph@[j] == Seq::<usize>::empty(),
            decreases n - i,
        {
            let ghost pre = graph@;
            let id = graph.add_node(Vec::new());
            proof {
                assert forall|j: int| 0 <= j < pre.len() implies graph@[j] == Seq::<
                    usize,
                >::empty() by {
                    assert(graph@[j] == pre[j] + repeated(occurrences(Seq::empty(), j as usize), id));
                    assert(pre[j] + repeated(0, id) =~= pre[j]);
                }
                assert(graph@[pre.len() as int] =~= Seq::<usize>::empty());
            }
            i = i + 1;
        }
        let player1_id = player1.id;
        Game {
            graph,
            player1,
            player2,
            turn: player1_id,
            state: GameState::ACTIVE,
        }
    }

    /// All node ids on the board, in ascending order.
    pub fn get_nodes(&self) -> (r: Vec<usize>)
        ensures
            r@.len() == self.spec_graph().len(),
            forall|i: int| 0 <= i < r@.len() ==> r@[i] == i,
    {
        self.graph.iter_nodes()
    }

    pub fn is_node_alive(&self, node: usize) -> (r: bool)
        requires
            (node as int) < self.spec_graph().len(),
        ensures
            r == self.spec_alive(node),
    {
        self.graph.edge_count(node) < 3
    }

    /// The id of the player whose turn it is.
    pub fn current_turn(&self) -> (r: u8)
        ensures
            r == self.spec_turn(),
    {
        self.turn
    }

    /// The current game state; an ended game names its winner.
    pub fn state(&self) -> (r: GameState)
        ensures
            r == self.spec_state(),
    {
        self.state
    }

    /// The id of the winning player; meaningful once the game has ended.
    pub fn winner_id(&self) -> (r: u8)
        ensures
            r == self.spec_winner(),
    {
        match self.state {
            GameState::ACTIVE => 0,
            GameState::END(w) => w,
        }
    }

    /// Validates the proposed connection and, when legal, applies it: a new
    /// node adjacent to both endpoints appears and its id is returned. An
    /// illegal proposal returns `None` and mutates nothing, so the same
    /// player may retry freely.
    pub fn do_turn(&mut self, a: usize, b: usize) -> (r: Option<usize>)
        ensures
            r is Some <==> spec_can_connect(old(self).spec_graph(), a, b),
            r is Some ==> r == Some(old(self).spec_graph().len() as usize) && final (
            self).spec_graph() == spec_after_move(old(self).spec_graph(), a, b),
            r is None ==> final (self).spec_graph() == old(self).spec_graph(),
            final (self).spec_player1() == old(self).spec_player1(),
            final (self).spec_player2() == old(self).spec_player2(),
            final (self).spec_turn() == old(self).spec_turn(),
            final (self).spec_state() == old(self).spec_state(),
            final (self).spec_winner() == old(self).spec_winner(),
            old(self).wf() ==> final (self).wf(),
    {
        if !self.can_connect_nodes(a, b) {
            return None;
        }
        let id = self.connect_nodes(a, b);
        proof {
            if old(self).wf() {
                lemma_after_move_in_range(old(self).spec_graph(), a, b);
            }
        }
        Some(id)
    }

    /// All distinct simple cycles of the current board, complete and
    /// duplicate-free: every simple cycle of the board has exactly one
    /// representative, whatever node or direction it is read from.
    pub fn get_loops(&self) -> (r: Vec<GraphLoop>)
        requires
            spec_entries_in_range(self.spec_graph()),
        ensures
            forall|i: int| 0 <= i < r@.len() ==> is_cycle(self.spec_graph(), (#[trigger] r@[i])@),
            forall|i: int, j: int|
                0 <= i < j < r@.len() ==> spec_canonical(r@[i]@) != spec_canonical(r@[j]@),
            forall|c: Seq<usize>| #[trigger] is_cycle(self.spec_graph(), c) ==> canon_found(r@, c),
    {
        let g = &self.graph;
        let nodes = g.iter_nodes();
        let n = nodes.len();
        let mut raw: Vec<GraphLoop> = Vec::new();
        // every node starts one exhaustive depth-first exploration, so every
        // cycle is recorded under each of its readings
        let mut s: usize = 0;
        while s < n
            invariant
                s <= n,
                n == self.spec_graph().len(),
                spec_entries_in_range(self.spec_graph()),
                forall|i: int|
                    0 <= i < raw@.len() ==> is_cycle(self.spec_graph(), (#[trigger] raw@[i])@),
                forall|c: Seq<usize>|
                    (#[trigger] is_cycle(self.spec_graph(), c)) && (c[0] as int) < s
                        ==> reading_found(raw@, c),
            decreases n - s,
        {
            let mut path: Vec<usize> = Vec::new();
            path.push(s);
            let mut visited: Vec<bool> = vec![false; n];
            let ghost pre = raw@;
            proof {
                assert(path@.drop_last() =~= Seq::<usize>::empty());
            }
            self.get_loops_recursive(&mut raw, &path, &mut visited);
            proof {
                assert forall|c: Seq<usize>|
                    (is_cycle(self.spec_graph(), c)) && (c[0] as int) < s + 1 implies reading_found(
                    raw@,
                    c,
                ) by {
                    if (c[0] as int) < s {
                        lemma_reading_preserved(pre, raw@, c);
                    } else {
                        assert(c.subrange(0, 1) =~= path@);
                        assert(is_prefix(path@, c));
                    }
                }
            }
            s = s + 1;
        }
        // collapse the rediscoveries of one cycle to a single entry
        let mut unique: Vec<GraphLoop> = Vec::new();
        let mut i: usize = 0;
        while i < raw.len()
            invariant
                i <= raw@.len(),
                forall|q: int|
                    0 <= q < raw@.len() ==> is_cycle(self.spec_graph(), (#[trigger] raw@[q])@),
                forall|q: int|
                    0 <= q < unique@.len() ==> is_cycle(self.spec_graph(), (#[trigger] unique@[q])@),
                forall|q: int, p: int|
                    0 <= q < p < unique@.len() ==> spec_canonical(unique@[q]@) != spec_canonical(
                        unique@[p]@,
                    ),
                forall|q: int| 0 <= q < i ==> canon_found(unique@, (#[trigger] raw@[q])@),
            decreases raw@.len() - i,
        {
            let candidate = raw[i].canonical();
            let mut seen = false;
            let mut j: usize = 0;
            while j < unique.len()
                invariant
                    j <= unique@.len(),
                    candidate@ == spec_canonical(raw@[i as int]@),
                    i < raw@.len(),
                    seen == exists|q: int|
                        0 <= q < j && spec_canonical((#[trigger] unique@[q])@) == candidate@,
                decreases unique@.len() - j,
            {
                let u = unique[j].canonical();
                if ids_equal(&u, &candidate) {
                    seen = true;
                }
                j = j + 1;
            }
            let ghost upre = unique@;
            if !seen {
                let ids = copy_ids(raw[i].ids());
                let l = GraphLoop::from(ids);
                proof {
                    crate::graph::lemma_from_vec_view(ids);
                }
                unique.push(l);
            }
            proof {
                assert forall|q: int| 0 <= q < i + 1 implies canon_found(
                    unique@,
                    (#[trigger] raw@[q])@,
                ) by {
                    if q < i {
                        lemma_canon_preserved(upre, unique@, raw@[q]@);
                    } else {
                        if seen {
                            let w = choose|w: int|
                                0 <= w < upre.len() && spec_canonical((#[trigger] upre[w])@)
                                    == candidate@;
                            assert(spec_canonical(unique@[w]@) == spec_canonical(raw@[q]@));
                        } else {
                            assert(unique@.last()@ == raw@[q]@);
                            assert(spec_canonical(unique@[unique@.len() - 1]@) == spec_canonical(
                                raw@[q]@,
                            ));
                        }
                    }
                }
            }
            i = i + 1;
        }
        proof {
            assert forall|c: Seq<usize>| is_cycle(self.spec_graph(), c) implies canon_found(
                unique@,
                c,
            ) by {
                assert((c[0] as int) < n);
                assert(reading_found(raw@, c));
                let q = choose|q: int| 0 <= q < raw@.len() && (#[trigger] raw@[q])@ == c;
                assert(canon_found(unique@, raw@[q]@));
                let u = choose|u: int|
                    0 <= u < unique@.len() && spec_canonical((#[trigger] unique@[u])@)
                        == spec_canonical(raw@[q]@);
                assert(spec_canonical(unique@[u]@) == spec_canonical(c));
            }
        }
        unique
    }

    /// One depth-first step of the cycle search: `path` is a simple chain and
    /// `visited` marks exactly its ids but the tail's. A neighbour of the
    /// tail that equals the chain's start closes a cycle from length three
    /// up; every id not yet on the chain extends it in turn, and the chain's
    /// whole reach is explored, so each simple cycle that continues `path`
    /// ends up in `loops`, read exactly as it continues the chain. The
    /// visited map is restored before returning.
    fn get_loops_recursive(
        &self,
        loops: &mut Vec<GraphLoop>,
        path: &Vec<usize>,
        visited: &mut Vec<bool>,
    )
        requires
            spec_entries_in_range(self.spec_graph()),
            old(visited)@.len() == self.spec_graph().len(),
            path@.len() >= 1,
            ids_in_range(self.spec_graph(), path@),
            distinct_ids(path@),
            is_chain(self.spec_graph(), path@),
            marks_exactly(old(visited)@, path@.drop_last()),
        ensures
            final (visited)@ == old(visited)@,
            final (loops)@.len() >= old(loops)@.len(),
            forall|i: int| 0 <= i < old(loops)@.len() ==> final (loops)@[i] == old(loops)@[i],
            forall|i: int|
                old(loops)@.len() <= i < final (loops)@.len() ==> is_cycle(
                    self.spec_graph(),
                    (#[trigger] final (loops)@[i])@,
                ) && is_prefix(path@, final (loops)@[i]@),
            forall|c: Seq<usize>|
                (#[trigger] is_cycle(self.spec_graph(), c)) && is_prefix(path@, c)
                    ==> reading_found(final (loops)@, c),
        decreases count_unvisited(old(visited)@),
    {
        let current = path[path.len() - 1];
        let ghost v0 = visited@;
        proof {
            lemma_marks_after_mark(v0, path@);
            lemma_count_unvisited_update(v0, current as int);
        }
        visited[current] = true;
        let ghost v1 = visited@;
        let ghost l0 = loops@;
        let neighbours = self.graph.neighbours(current);
        let mut j: usize = 0;
        while j < neighbours.len()
            invariant
                j <= neighbours@.len(),
                v0 == old(visited)@,
                v1 == v0.update(path@.last() as int, true),
                visited@ == v1,
                neighbours@ == self.spec_graph()[path@.last() as int],
                spec_entries_in_range(self.spec_graph()),
                v0.len() == self.spec_graph().len(),
                path@.len() >= 1,
                ids_in_range(self.spec_graph(), path@),
                distinct_ids(path@),
                is_chain(self.spec_graph(), path@),
                marks_exactly(v1, path@),
                count_unvisited(v1) < count_unvisited(v0),
                loops@.len() >= l0.len(),
                forall|i: int| 0 <= i < l0.len() ==> loops@[i] == l0[i],
                forall|i: int|
                    l0.len() <= i < loops@.len() ==> is_cycle(
                        self.spec_graph(),
                        (#[trigger] loops@[i])@,
                    ) && is_prefix(path@, loops@[i]@),
                forall|c: Seq<usize>|
                    (#[trigger] is_cycle(self.spec_graph(), c)) && is_prefix(path@, c)
                        && neighbours@.take(j as int).contains(next_of(path@, c))
                        ==> reading_found(loops@, c),
            decreases neighbours@.len() - j,
        {
            let neighbour = neighbours[j];
            let ghost lpre = loops@;
            proof {
                assert(self.spec_graph()[path@.last() as int][j as int] == neighbour);
                assert((neighbour as int) < self.spec_graph().len());
                assert(neighbours@.take(j + 1) =~= neighbours@.take(j as int).push(neighbour));
            }
            if !visited[neighbour] {
                let mut new_path = copy_ids(path);
                new_path.push(neighbour);
                proof {
                    let np = new_path@;
                    assert(np.drop_last() =~= path@);
                    assert(np.last() == neighbour);
                    assert(!path@.contains(neighbour));
                    assert forall|p: int, q: int| 0 <= p < q < np.len() implies np[p] != np[q] by {
                        if q == np.len() - 1 {
                            if np[p] == neighbour {
                                assert(path@[p] == neighbour);
                                assert(path@.contains(neighbour));
                            }
                        }
                    }
                    assert forall|p: int|
                        0 <= p < np.len() - 1 implies self.spec_graph()[np[p] as int].contains(
                        #[trigger] np[p + 1],
                    ) by {
                        if p == np.len() - 2 {
                            assert(self.spec_graph()[path@.last() as int][j as int] == neighbour);
                        } else {
                            assert(path@[p + 1] == np[p + 1]);
                        }
                    }
                }
                self.get_loops_recursive(loops, &new_path, visited);
                proof {
                    assert forall|i: int| l0.len() <= i < loops@.len() implies is_cycle(
                        self.spec_graph(),
                        (#[trigger] loops@[i])@,
                    ) && is_prefix(path@, loops@[i]@) by {
                        if i >= lpre.len() {
                            let e = loops@[i]@;
                            assert(is_prefix(new_path@, e));
                            assert(e.subrange(0, path@.len() as int) =~= path@);
                        }
                    }
                    assert forall|c: Seq<usize>|
                        (is_cycle(self.spec_graph(), c)) && is_prefix(path@, c)
                            && neighbours@.take(j + 1).contains(next_of(path@, c)) implies
                    reading_found(loops@, c) by {
                        let x = next_of(path@, c);
                        if neighbours@.take(j as int).contains(x) {
                            lemma_reading_preserved(lpre, loops@, c);
                        } else {
                            assert(x == neighbour);
                            if c.len() == path@.len() {
                                assert(c[0] == path@[0]);
                                assert(path@.contains(neighbour));
                                assert(false);
                            } else {
                                assert(c[path@.len() as int] == neighbour);
                                assert(c.subrange(0, path@.len() as int + 1) =~= new_path@);
                                assert(is_prefix(new_path@, c));
                            }
                        }
                    }
                }
            } else if path[0] == neighbour && path.len() >= 3 {
                // the chain closes into a simple cycle
                let ids = copy_ids(path);
                proof {
                    crate::graph::lemma_from_vec_view(ids);
                    assert(self.spec_graph()[path@.last() as int][j as int] == neighbour);
                    assert(self.spec_graph()[path@.last() as int].contains(path@.first()));
                    assert(path@.subrange(0, path@.len() as int) =~= path@);
                }
                loops.push(GraphLoop::from(ids));
                proof {
                    assert(loops@.last()@ == path@);
                    assert(is_prefix(path@, path@));
                    assert forall|c: Seq<usize>|
                        (is_cycle(self.spec_graph(), c)) && is_prefix(path@, c)
                            && neighbours@.take(j + 1).contains(next_of(path@, c)) implies
                    reading_found(loops@, c) by {
                        let x = next_of(path@, c);
                        if neighbours@.take(j as int).contains(x) {
                            lemma_reading_preserved(lpre, loops@, c);
                        } else {
                            assert(x == neighbour);
                            if c.len() == path@.len() {
                                assert(c.subrange(0, c.len() as int) =~= c);
                                assert(c == path@);
                                assert(loops@[loops@.len() - 1]@ == c);
                            } else {
                                // the continuation id already lies on the
                                // chain, so no simple cycle continues this way
                                let idx = choose|idx: int|
                                    0 <= idx < path@.len() && path@[idx] == neighbour;
                                assert(c[idx] == neighbour);
                                assert(c[path@.len() as int] == neighbour);
                                assert(false);
                            }
                        }
                    }
                }
            } else {
                proof {
                    assert forall|c: Seq<usize>|
                        (is_cycle(self.spec_graph(), c)) && is_prefix(path@, c)
                            && neighbours@.take(j + 1).contains(next_of(path@, c)) implies
                    reading_found(loops@, c) by {
                        let x = next_of(path@, c);
                        if neighbours@.take(j as int).contains(x) {
                        } else {
                            assert(x == neighbour);
                            if c.len() == path@.len() {
                                assert(c.subrange(0, c.len() as int) =~= c);
                                assert(c == path@);
                                assert(c[0] == path@[0]);
                                assert(false);
                            } else {
                                assert(path@.contains(neighbour));
                                let idx = choose|idx: int|
                                    0 <= idx < path@.len() && path@[idx] == neighbour;
                                assert(c[idx] == neighbour);
                                assert(c[path@.len() as int] == neighbour);
                                assert(false);
                            }
                        }
                    }
                }
            }
            j = j + 1;
        }
        proof {
            assert(neighbours@.take(neighbours@.len() as int) =~= neighbours@);
            assert forall|c: Seq<usize>|
                (is_cycle(self.spec_graph(), c)) && is_prefix(path@, c) implies reading_found(
                loops@,
                c,
            ) by {
                let x = next_of(path@, c);
                if c.len() == path@.len() {
                    assert(c.subrange(0, c.len() as int) =~= c);
                    assert(c == path@);
                    assert(self.spec_graph()[path@.last() as int].contains(c.first()));
                    assert(neighbours@.contains(x));
                } else {
                    let i0 = path@.len() - 1;
                    assert(c[i0] == path@[i0]);
                    assert(0 <= i0 < c.len() - 1);
                    assert(self.spec_graph()[c[i0] as int].contains(c[i0 + 1]));
                    assert(c[i0 + 1] == x);
                    assert(neighbours@.contains(x));
                }
            }
        }
        visited[current] = false;
        proof {
            assert(visited@ =~= v0);
        }
    }

    /// Recomputes whether any legal move can still exist somewhere on the
    /// board. A node with fewer than two connections keeps the game open by
    /// itself — it can at least be joined to itself. Otherwise the distinct
    /// cycles of the board are enumerated, each alive node is assigned its
    /// smallest enclosing region through the two injected geometry
    /// predicates, and the assignment is put to the verdict.
    pub fn check_endstate<F: Fn(usize, Vec<usize>) -> bool, G: Fn(Vec<usize>) -> u64>(
        &self,
        point_in_polygon: F,
        loop_size: G,
    ) -> (r: bool)
        requires
            spec_entries_in_range(self.spec_graph()),
            forall|args: (usize, Vec<usize>)| #[trigger] call_requires(point_in_polygon, args),
            forall|args: (Vec<usize>,)| #[trigger] call_requires(loop_size, args),
        ensures
            r ==> forall|m: int|
                0 <= m < self.spec_graph().len() ==> (#[trigger] self.spec_graph()[m]).len() >= 2,
            (exists|m: int|
                0 <= m < self.spec_graph().len() && (#[trigger] self.spec_graph()[m]).len() < 2)
                ==> !r,
            (forall|m: int|
                0 <= m < self.spec_graph().len() ==> (#[trigger] self.spec_graph()[m]).len() >= 3)
                ==> r,
            (forall|m: int|
                0 <= m < self.spec_graph().len() ==> (#[trigger] self.spec_graph()[m]).len() >= 2)
                ==> exists|
                cycles: Seq<Seq<usize>>,
                ins: Seq<Seq<bool>>,
                sizes: Seq<Seq<u64>>,
                seps: Seq<Option<usize>>,
            |
                (#[trigger] spec_classifier_run(
                    point_in_polygon,
                    loop_size,
                    self.spec_graph(),
                    cycles,
                    ins,
                    sizes,
                    seps,
                )) && r == spec_over_verdict(self.spec_graph(), cycles, seps),
    {
        let ghost g = self.spec_graph();
        let nodes = self.get_nodes();
        let n = nodes.len();
        // a node with fewer than two connections can still be joined to itself
        let mut idx: usize = 0;
        while idx < n
            invariant
                idx <= n,
                n == g.len(),
                g == self.spec_graph(),
                forall|m: int| 0 <= m < idx ==> (#[trigger] g[m]).len() >= 2,
            decreases n - idx,
        {
            if self.graph.edge_count(idx) < 2 {
                return false;
            }
            idx = idx + 1;
        }
        let polygons = self.get_loops();
        // the still-eligible nodes, in ascending id order
        let mut alive: Vec<usize> = Vec::new();
        let mut a: usize = 0;
        while a < n
            invariant
                a <= n,
                n == g.len(),
                g == self.spec_graph(),
                alive@ == alive_upto(g, a as int),
                ids_in_range(g, alive@),
            decreases n - a,
        {
            if self.graph.edge_count(a) < 3 {
                alive.push(a);
                proof {
                    assert(alive@ =~= alive_upto(g, a + 1));
                }
            } else {
                proof {
                    assert(alive@ =~= alive_upto(g, a + 1));
                }
            }
            a = a + 1;
        }
        // assign each alive node its smallest enclosing region: the least
        // extent among the cycles the predicate reports it inside of, never
        // a cycle it lies on; ties keep the first found
        let ghost cycles = spec_loop_views(polygons@);
        let mut seps: Vec<Option<usize>> = Vec::new();
        let ghost mut ins_all: Seq<Seq<bool>> = Seq::empty();
        let ghost mut sizes_all: Seq<Seq<u64>> = Seq::empty();
        let mut k: usize = 0;
        while k < alive.len()
            invariant
                k <= alive@.len(),
                seps@.len() == k,
                ins_all.len() == k,
                sizes_all.len() == k,
                g == self.spec_graph(),
                cycles == spec_loop_views(polygons@),
                ids_in_range(g, alive@),
                forall|i: int|
                    0 <= i < polygons@.len() ==> is_cycle(g, (#[trigger] polygons@[i])@),
                forall|q: int|
                    0 <= q < k ==> ((#[trigger] seps@[q]) matches Option::Some(i) ==> 0 <= i
                        < polygons@.len() && !polygons@[i as int]@.contains(alive@[q])),
                forall|q: int|
                    0 <= q < k ==> answers_consistent(
                        point_in_polygon,
                        loop_size,
                        cycles,
                        alive@[q],
                        ins_all[q],
                        #[trigger] sizes_all[q],
                    ),
                forall|q: int|
                    0 <= q < k ==> spec_selection(
                        cycles,
                        alive@[q],
                        ins_all[q],
                        sizes_all[q],
                        #[trigger] seps@[q],
                    ),
                forall|args: (usize, Vec<usize>)| #[trigger] call_requires(point_in_polygon, args),
                forall|args: (Vec<usize>,)| #[trigger] call_requires(loop_size, args),
            decreases alive@.len() - k,
        {
            let node = alive[k];
            let mut sep: Option<usize> = Option::None;
            let mut smallest: u64 = 0;
            let ghost mut ins_row: Seq<bool> = Seq::empty();
            let ghost mut sizes_row: Seq<u64> = Seq::empty();
            let mut i: usize = 0;
            while i < polygons.len()
                invariant
                    i <= polygons@.len(),
                    g == self.spec_graph(),
                    cycles == spec_loop_views(polygons@),
                    ins_row.len() == i,
                    sizes_row.len() == i,
                    forall|q: int|
                        0 <= q < i && !cycles[q].contains(node) ==> reports_inside(
                            point_in_polygon,
                            node,
                            cycles[q],
                            #[trigger] ins_row[q],
                        ),
                    forall|q: int|
                        0 <= q < i && !cycles[q].contains(node) && ins_row[q] ==> reports_extent(
                            loop_size,
                            cycles[q],
                            #[trigger] sizes_row[q],
                        ),
                    (sep is None ==> forall|q: int|
                        0 <= q < i ==> !(!cycles[q].contains(node) && #[trigger] ins_row[q])),
                    (sep matches Option::Some(w) ==> (w as int) < i && !cycles[w as int].contains(
                        node,
                    ) && ins_row[w as int] && sizes_row[w as int] == smallest && (forall|q: int|
                        0 <= q < i && !cycles[q].contains(node) && #[trigger] ins_row[q]
                            ==> sizes_row[q] >= smallest) && (forall|q: int|
                        0 <= q < w as int && !cycles[q].contains(node) && #[trigger] ins_row[q]
                            ==> sizes_row[q] > smallest)),
                    forall|args: (usize, Vec<usize>)| #[trigger] call_requires(
                        point_in_polygon,
                        args,
                    ),
                    forall|args: (Vec<usize>,)| #[trigger] call_requires(loop_size, args),
                decreases polygons@.len() - i,
            {
                proof {
                    assert(cycles[i as int] == polygons@[i as int]@);
                }
                if !polygons[i].contains_id(node) {
                    let ids = copy_ids(polygons[i].ids());
                    let ghost idsv = ids;
                    let inside = point_in_polygon(node, ids);
                    proof {
                        assert(call_ensures(point_in_polygon, (node, idsv), inside));
                    }
                    if inside {
                        let ids_again = copy_ids(polygons[i].ids());
                        let ghost idsv2 = ids_again;
                        let size = loop_size(ids_again);
                        proof {
                            assert(call_ensures(loop_size, (idsv2,), size));
                            ins_row = ins_row.push(true);
                            sizes_row = sizes_row.push(size);
                            assert(idsv@ == cycles[i as int] && call_ensures(
                                point_in_polygon,
                                (node, idsv),
                                ins_row[i as int],
                            ));
                            assert(reports_inside(
                                point_in_polygon,
                                node,
                                cycles[i as int],
                                ins_row[i as int],
                            ));
                            assert(idsv2@ == cycles[i as int] && call_ensures(
                                loop_size,
                                (idsv2,),
                                sizes_row[i as int],
                            ));
                            assert(reports_extent(
                                loop_size,
                                cycles[i as int],
                                sizes_row[i as int],
                            ));
                        }
                        if sep.is_none() || size < smallest {
                            sep = Option::Some(i);
                            smallest = size;
                        }
                    } else {
                        proof {
                            ins_row = ins_row.push(false);
                            sizes_row = sizes_row.push(0);
                            assert(idsv@ == cycles[i as int] && call_ensures(
                                point_in_polygon,
                                (node, idsv),
                                ins_row[i as int],
                            ));
                            assert(reports_inside(
                                point_in_polygon,
                                node,
                                cycles[i as int],
                                ins_row[i as int],
                            ));
                        }
                    }
                } else {
                    proof {
                        // the node lies on this cycle: never a candidate
                        ins_row = ins_row.push(false);
                        sizes_row = sizes_row.push(0);
                    }
                }
                i = i + 1;
            }
            seps.push(sep);
            proof {
                ins_all = ins_all.push(ins_row);
                sizes_all = sizes_all.push(sizes_row);
                assert(cycles.len() == polygons@.len());
                assert(answers_consistent(
                    point_in_polygon,
                    loop_size,
                    cycles,
                    node,
                    ins_row,
                    sizes_row,
                ));
                assert(spec_selection(cycles, node, ins_row, sizes_row, sep));
            }
            k = k + 1;
        }
        let r = self.enclosure_verdict(&polygons, &alive, &seps);
        proof {
            assert(alive@ == spec_alive_list(g));
            assert forall|i: int| 0 <= i < cycles.len() implies is_cycle(
                g,
                #[trigger] cycles[i],
            ) by {
                assert(cycles[i] == polygons@[i]@);
            }
            assert forall|i: int, j: int| 0 <= i < j < cycles.len() implies spec_canonical(
                cycles[i],
            ) != spec_canonical(cycles[j]) by {
                assert(cycles[i] == polygons@[i]@);
                assert(cycles[j] == polygons@[j]@);
            }
            assert forall|c: Seq<usize>| #[trigger] is_cycle(g, c) implies canon_listed(
                cycles,
                c,
            ) by {
                assert(canon_found(polygons@, c));
                let u = choose|u: int|
                    0 <= u < polygons@.len() && spec_canonical((#[trigger] polygons@[u])@)
                        == spec_canonical(c);
                assert(cycles[u] == polygons@[u]@);
                assert(spec_canonical(cycles[u]) == spec_canonical(c));
            }
            assert(spec_classifier_run(
                point_in_polygon,
                loop_size,
                g,
                cycles,
                ins_all,
                sizes_all,
                seps@,
            ));
            assert(r == spec_over_verdict(g, cycles, seps@));
            if forall|m: int| 0 <= m < g.len() ==> (#[trigger] g[m]).len() >= 3 {
                lemma_alive_upto_all_dead(g, g.len() as int);
                assert(alive@.len() == 0);
                assert(r);
            }
        }
        r
    }

    /// Recomputes termination and steps the turn state: when the game is
    /// over, the player who just moved is recorded as the winner and the
    /// state becomes ended; otherwise the turn passes to the other player.
    /// To be invoked exactly once per accepted move.
    pub fn end_turn<F: Fn(usize, Vec<usize>) -> bool, G: Fn(Vec<usize>) -> u64>(
        &mut self,
        point_in_polygon: F,
        loop_size: G,
    )
        requires
            old(self).wf(),
            forall|args: (usize, Vec<usize>)| #[trigger] call_requires(point_in_polygon, args),
            forall|args: (Vec<usize>,)| #[trigger] call_requires(loop_size, args),
        ensures
            final (self).spec_graph() == old(self).spec_graph(),
            final (self).spec_player1() == old(self).spec_player1(),
            final (self).spec_player2() == old(self).spec_player2(),
            final (self).wf(),
            (final (self).spec_state() is END && final (self).spec_winner() == old(
            self).spec_turn() && final (self).spec_turn() == old(self).spec_turn()) || (final (
            self).spec_state() == old(self).spec_state() && final (self).spec_winner() == old(
            self).spec_winner() && final (self).spec_turn() == old(self).spec_other()),
            (exists|m: int|
                0 <= m < old(self).spec_graph().len() && (#[trigger] old(
                self).spec_graph()[m]).len() < 2) ==> final (self).spec_state() == old(
                self).spec_state() && final (self).spec_winner() == old(self).spec_winner()
                && final (self).spec_turn() == old(self).spec_other(),
            (forall|m: int|
                0 <= m < old(self).spec_graph().len() ==> (#[trigger] old(
                self).spec_graph()[m]).len() >= 3) ==> final (self).spec_state() is END && final (
            self).spec_winner() == old(self).spec_turn() && final (self).spec_turn() == old(
            self).spec_turn(),
            (forall|m: int|
                0 <= m < old(self).spec_graph().len() ==> (#[trigger] old(
                self).spec_graph()[m]).len() >= 2) ==> exists|
                cycles: Seq<Seq<usize>>,
                ins: Seq<Seq<bool>>,
                sizes: Seq<Seq<u64>>,
                seps: Seq<Option<usize>>,
            |
                (#[trigger] spec_classifier_run(
                    point_in_polygon,
                    loop_size,
                    old(self).spec_graph(),
                    cycles,
                    ins,
                    sizes,
                    seps,
                )) && ((final (self).spec_turn() == old(self).spec_turn()) <==> spec_over_verdict(
                    old(self).spec_graph(),
                    cycles,
                    seps,
                )),
    {
        let ghost fsnap = point_in_polygon;
        let ghost esnap = loop_size;
        let over = self.check_endstate(point_in_polygon, loop_size);
        if over {
            // the player who just moved wins
            self.state = GameState::END(self.turn);
        } else {
            // hand the turn to the other player
            if self.turn == self.player1.id {
                self.turn = self.player2.id;
            } else {
                self.turn = self.player1.id;
            }
        }
        proof {
            assert(over == (self.spec_turn() == old(self).spec_turn()));
            if forall|m: int|
                0 <= m < old(self).spec_graph().len() ==> (#[trigger] old(
                self).spec_graph()[m]).len() >= 2 {
                let (cycles, ins, sizes, seps) = choose|
                    cycles: Seq<Seq<usize>>,
                    ins: Seq<Seq<bool>>,
                    sizes: Seq<Seq<u64>>,
                    seps: Seq<Option<usize>>,
                |
                    (#[trigger] spec_classifier_run(
                        fsnap,
                        esnap,
                        old(self).spec_graph(),
                        cycles,
                        ins,
                        sizes,
                        seps,
                    )) && over == spec_over_verdict(old(self).spec_graph(), cycles, seps);
                assert(spec_classifier_run(
                    point_in_polygon,
                    loop_size,
                    old(self).spec_graph(),
                    cycles,
                    ins,
                    sizes,
                    seps,
                ));
                assert((self.spec_turn() == old(self).spec_turn()) <==> spec_over_verdict(
                    old(self).spec_graph(),
                    cycles,
                    seps,
                ));
            }
        }
    }

    /// Decides, from the enclosure assignment of the alive nodes, whether any
    /// legal move can still exist: the game is over exactly when no alive
    /// node keeps it open.
    pub fn enclosure_verdict(
        &self,
        loops: &Vec<GraphLoop>,
        alive: &Vec<usize>,
        seps: &Vec<Option<usize>>,
    ) -> (r: bool)
        requires
            seps@.len() == alive@.len(),
            ids_in_range(self.spec_graph(), alive@),
            forall|i: int|
                0 <= i < loops@.len() ==> ids_in_range(self.spec_graph(), (#[trigger] loops@[i])@),
            forall|k: int|
                0 <= k < seps@.len() ==> ((#[trigger] seps@[k]) matches Option::Some(i) ==> 0 <= i
                    < loops@.len()),
        ensures
            r == !(exists|k: int|
                0 <= k < alive@.len() && spec_not_over_at(
                    self.spec_graph(),
                    spec_loop_views(loops@),
                    alive@,
                    seps@,
                    k,
                )),
    {
        let ghost g = self.spec_graph();
        let ghost cycles = spec_loop_views(loops@);
        let mut k: usize = 0;
        while k < alive.len()
            invariant
                k <= alive@.len(),
                seps@.len() == alive@.len(),
                g == self.spec_graph(),
                cycles == spec_loop_views(loops@),
                ids_in_range(g, alive@),
                forall|i: int| 0 <= i < loops@.len() ==> ids_in_range(g, (#[trigger] loops@[i])@),
                forall|q: int|
                    0 <= q < seps@.len() ==> ((#[trigger] seps@[q]) matches Option::Some(i) ==> 0
                        <= i < loops@.len()),
                forall|q: int| 0 <= q < k ==> !spec_not_over_at(g, cycles, alive@, seps@, q),
            decreases alive@.len() - k,
        {
            match seps[k] {
                Option::Some(i) => {
                    // a region encloses this node: any alive member of its
                    // boundary admits a further move inside
                    let boundary = loops[i].ids();
                    let mut t: usize = 0;
                    while t < boundary.len()
                        invariant
                            t <= boundary@.len(),
                            g == self.spec_graph(),
                            cycles == spec_loop_views(loops@),
                            (i as int) < loops@.len(),
                            (k as int) < alive@.len(),
                            seps@.len() == alive@.len(),
                            seps@[k as int] == Option::<usize>::Some(i),
                            boundary@ == cycles[i as int],
                            ids_in_range(g, boundary@),
                            forall|q: int| 0 <= q < t ==> g[boundary@[q] as int].len() >= 3,
                        decreases boundary@.len() - t,
                    {
                        if self.graph.edge_count(boundary[t]) < 3 {
                            proof {
                                let w = t as int;
                                let ii = i as int;
                                assert(0 <= w < cycles[ii].len() && g[cycles[ii][w] as int].len()
                                    < 3);
                                assert(spec_boundary_alive(g, cycles[ii]));
                                assert(spec_not_over_at(g, cycles, alive@, seps@, k as int));
                            }
                            return false;
                        }
                        t = t + 1;
                    }
                    proof {
                        assert(seps@[k as int] == Option::<usize>::Some(i));
                        assert(!spec_not_over_at(g, cycles, alive@, seps@, k as int));
                    }
                },
                Option::None => {
                    // this node lies outside every region: another unenclosed
                    // alive node would let the two connect
                    let mut k2: usize = 0;
                    while k2 < alive.len()
                        invariant
                            k2 <= alive@.len(),
                            k < alive@.len(),
                            seps@.len() == alive@.len(),
                            g == self.spec_graph(),
                            cycles == spec_loop_views(loops@),
                            seps@[k as int] is None,
                            forall|q: int|
                                0 <= q < k2 && q != k ==> !((#[trigger] seps@[q]) is None),
                        decreases alive@.len() - k2,
                    {
                        if k2 != k && seps[k2].is_none() {
                            proof {
                                let w = k2 as int;
                                assert(0 <= w < alive@.len() && w != k as int && seps@[w] is None);
                                assert(spec_unenclosed_pair(alive@, seps@, k as int));
                                assert(spec_not_over_at(g, cycles, alive@, seps@, k as int));
                            }
                            return false;
                        }
                        k2 = k2 + 1;
                    }
                    proof {
                        assert(!spec_not_over_at(g, cycles, alive@, seps@, k as int));
                    }
                },
            }
            k = k + 1;
        }
        true
    }

    fn can_connect_nodes(&self, a: usize, b: usize) -> (r: bool)
        ensures
            r == spec_can_connect(self.spec_graph(), a, b),
    {
        if !self.graph.has_node(a) || !self.graph.has_node(b) {
            return false;
        }
        // a spot may be joined to itself only while it has at most one
        // connection: the loop counts twice toward its degree cap
        if a == b && self.graph.edge_count(a) >= 2 {
            return false;
        }
        if !self.is_node_alive(a) || !self.is_node_alive(b) {
            return false;
        }
        true
    }

    fn connect_nodes(&mut self, a: usize, b: usize) -> (r: usize)
        requires
            spec_can_connect(old(self).spec_graph(), a, b),
        ensures
            r == old(self).spec_graph().len() as usize,
            final (self).spec_graph() == spec_after_move(old(self).spec_graph(), a, b),
            final (self).spec_player1() == old(self).spec_player1(),
            final (self).spec_player2() == old(self).spec_player2(),
            final (self).spec_turn() == old(self).spec_turn(),
            final (self).spec_state() == old(self).spec_state(),
            final (self).spec_winner() == old(self).spec_winner(),
    {
        let ghost g0 = self.graph@;
        let mut connections: Vec<usize> = Vec::new();
        connections.push(a);
        connections.push(b);
        proof {
            assert(connections@ =~= seq![a, b]);
        }
        let id = self.graph.add_node(connections);
        proof {
            assert forall|i: int| 0 <= i < g0.len() implies self.graph@[i] == spec_after_move(
                g0,
                a,
                b,
            )[i] by {
                lemma_occurrences_pair(a, b, i as usize);
                let adds = repeated(occurrences(seq![a, b], i as usize), id);
                assert(self.graph@[i] == g0[i] + adds);
                if i == a as int && i == b as int {
                    assert(adds =~= seq![id, id]);
                    assert(g0[i] + seq![id, id] =~= g0[i].push(id).push(id));
                } else if i == a as int || i == b as int {
                    assert(adds =~= seq![id]);
                    assert(g0[i] + seq![id] =~= g0[i].push(id));
                } else {
                    assert(adds =~= Seq::<usize>::empty());
                    assert(g0[i] + adds =~= g0[i]);
                }
            }
            assert(self.graph@ =~= spec_after_move(g0, a, b));
        }
        id
    }
}

/// A legal move keeps every adjacency entry in range: the endpoints and the
/// fresh id all name nodes of the grown board.
proof fn lemma_after_move_in_range(g: Seq<Seq<usize>>, a: usize, b: usize)
    requires
        spec_entries_in_range(g),
        spec_can_connect(g, a, b),
    ensures
        spec_entries_in_range(spec_after_move(g, a, b)),
{
    let h = spec_after_move(g, a, b);
    assert forall|i: int, j: int| 0 <= i < h.len() && 0 <= j < h[i].len() implies ((
    #[trigger] h[i][j]) as int) < h.len() by {
        if i == g.len() {
            assert(h[i] == seq![a, b]);
        } else {
            assert(0 <= i < g.len());
            if j < g[i].len() {
                assert(h[i][j] == g[i][j]);
            } else {
                assert(h[i][j] == g.len() as usize);
            }
        }
    }
}

/// Every id of `s` names a node of `g`.
pub open spec fn ids_in_range(g: Seq<Seq<usize>>, s: Seq<usize>) -> bool {
    forall|i: int| 0 <= i < s.len() ==> ((#[trigger] s[i]) as int) < g.len()
}

/// Consecutive ids of `s` are adjacent in `g`.
pub open spec fn is_chain(g: Seq<Seq<usize>>, s: Seq<usize>) -> bool {
    forall|i: int| 0 <= i < s.len() - 1 ==> g[s[i] as int].contains(#[trigger] s[i + 1])
}

/// A simple cycle of `g`: a closed walk of at least three pairwise distinct
/// nodes, adjacent step by step and around the end.
pub open spec fn is_cycle(g: Seq<Seq<usize>>, c: Seq<usize>) -> bool {
    &&& c.len() >= 3
    &&& ids_in_range(g, c)
    &&& distinct_ids(c)
    &&& is_chain(g, c)
    &&& g[c.last() as int].contains(c.first())
}

/// `p` is an initial segment of `c`.
pub open spec fn is_prefix(p: Seq<usize>, c: Seq<usize>) -> bool {
    p.len() <= c.len() && c.subrange(0, p.len() as int) == p
}

/// The id whose processing settles the walk `c` at chain `p`: the start that
/// closes it when the chain is all of `c`, else the next id of `c`.
pub open spec fn next_of(p: Seq<usize>, c: Seq<usize>) -> usize {
    if c.len() == p.len() {
        c[0]
    } else {
        c[p.len() as int]
    }
}

/// Some entry of `loops` is the reading `c`, letter for letter.
pub open spec fn reading_found(loops: Seq<GraphLoop>, c: Seq<usize>) -> bool {
    exists|i: int| 0 <= i < loops.len() && (#[trigger] loops[i])@ == c
}

/// Some entry of `loops` canonicalizes like `c`: the cycle that `c` reads is
/// represented.
pub open spec fn canon_found(loops: Seq<GraphLoop>, c: Seq<usize>) -> bool {
    exists|u: int|
        0 <= u < loops.len() && spec_canonical((#[trigger] loops[u])@) == spec_canonical(c)
}

/// `visited` marks exactly the ids listed in `s`.
pub open spec fn marks_exactly(visited: Seq<bool>, s: Seq<usize>) -> bool {
    forall|v: usize|
        (v as int) < visited.len() ==> ((#[trigger] visited[v as int]) <==> s.contains(v))
}

proof fn lemma_reading_preserved(l1: Seq<GraphLoop>, l2: Seq<GraphLoop>, c: Seq<usize>)
    requires
        reading_found(l1, c),
        l2.len() >= l1.len(),
        forall|i: int| 0 <= i < l1.len() ==> l2[i] == l1[i],
    ensures
        reading_found(l2, c),
{
    let i = choose|i: int| 0 <= i < l1.len() && (#[trigger] l1[i])@ == c;
    assert(l2[i]@ == c);
}

proof fn lemma_canon_preserved(l1: Seq<GraphLoop>, l2: Seq<GraphLoop>, c: Seq<usize>)
    requires
        canon_found(l1, c),
        l2.len() >= l1.len(),
        forall|i: int| 0 <= i < l1.len() ==> l2[i] == l1[i],
    ensures
        canon_found(l2, c),
{
    let u = choose|u: int|
        0 <= u < l1.len() && spec_canonical((#[trigger] l1[u])@) == spec_canonical(c);
    assert(spec_canonical(l2[u]@) == spec_canonical(c));
}

/// Marking a chain's unmarked tail leaves exactly the whole chain marked.
proof fn lemma_marks_after_mark(v0: Seq<bool>, path: Seq<usize>)
    requires
        path.len() >= 1,
        distinct_ids(path),
        (path.last() as int) < v0.len(),
        marks_exactly(v0, path.drop_last()),
    ensures
        !v0[path.last() as int],
        marks_exactly(v0.update(path.last() as int, true), path),
{
    let last = path.last();
    let head = path.drop_last();
    assert(forall|idx: int| 0 <= idx < head.len() ==> #[trigger] head[idx] == path[idx]);
    if head.contains(last) {
        let idx = choose|idx: int| 0 <= idx < head.len() && head[idx] == last;
        assert(path[idx] == last);
        assert(path[path.len() - 1] == last);
        assert(false);
    }
    let v1 = v0.update(last as int, true);
    assert forall|v: usize| (v as int) < v1.len() implies ((#[trigger] v1[v as int])
        <==> path.contains(v)) by {
        if v == last {
            assert(path[path.len() - 1] == last);
            assert(path.contains(last));
        } else {
            if path.contains(v) {
                let idx = choose|idx: int| 0 <= idx < path.len() && path[idx] == v;
                assert(idx != path.len() - 1);
                assert(head[idx] == v);
                assert(head.contains(v));
            }
            if head.contains(v) {
                let idx = choose|idx: int| 0 <= idx < head.len() && head[idx] == v;
                assert(path[idx] == v);
                assert(path.contains(v));
            }
        }
    }
}

/// The alive nodes among `0..n`, ascending: those of degree below three.
pub open spec fn alive_upto(g: Seq<Seq<usize>>, n: int) -> Seq<usize>
    decreases n,
{
    if n <= 0 {
        Seq::empty()
    } else {
        alive_upto(g, n - 1) + if g[n - 1].len() < 3 {
            seq![(n - 1) as usize]
        } else {
            Seq::empty()
        }
    }
}

/// All alive nodes of the board, in ascending id order.
pub open spec fn spec_alive_list(g: Seq<Seq<usize>>) -> Seq<usize> {
    alive_upto(g, g.len() as int)
}

/// The walks described by a list of loops.
pub open spec fn spec_loop_views(ls: Seq<GraphLoop>) -> Seq<Seq<usize>> {
    Seq::new(ls.len(), |i: int| ls[i]@)
}

/// The `k`-th alive node keeps the game open: either its smallest enclosing
/// cycle (`seps[k]`) carries an alive member — a move is reachable inside
/// that region — or it lies in the unbounded outside region together with
/// another unenclosed alive node, and the two can connect to each other.
/// Some member of the cycle is still alive.
pub open spec fn spec_boundary_alive(g: Seq<Seq<usize>>, cycle: Seq<usize>) -> bool {
    exists|t: int| 0 <= t < cycle.len() && g[cycle[t] as int].len() < 3
}

/// Some other alive node than the `k`-th is also assigned no enclosing cycle.
pub open spec fn spec_unenclosed_pair(alive: Seq<usize>, seps: Seq<Option<usize>>, k: int) -> bool {
    exists|k2: int| 0 <= k2 < alive.len() && k2 != k && (#[trigger] seps[k2]) is None
}

pub open spec fn spec_not_over_at(
    g: Seq<Seq<usize>>,
    cycles: Seq<Seq<usize>>,
    alive: Seq<usize>,
    seps: Seq<Option<usize>>,
    k: int,
) -> bool {
    match seps[k] {
        Option::Some(i) => spec_boundary_alive(g, cycles[i as int]),
        Option::None => spec_unenclosed_pair(alive, seps, k),
    }
}

/// The cycle that `c` reads has a representative in `cycles`.
pub open spec fn canon_listed(cycles: Seq<Seq<usize>>, c: Seq<usize>) -> bool {
    exists|i: int|
        0 <= i < cycles.len() && spec_canonical(#[trigger] cycles[i]) == spec_canonical(c)
}

/// Cycle `i` is a candidate enclosing region for `node` under the answer row
/// `ins`: the node does not lie on it and the predicate reported it inside.
pub open spec fn is_enclosure_candidate(
    cycles: Seq<Seq<usize>>,
    node: usize,
    ins: Seq<bool>,
    i: int,
) -> bool {
    0 <= i < cycles.len() && !cycles[i].contains(node) && ins[i]
}

/// The inside-predicate can answer `ans` when asked whether `node` lies in
/// the region of `cycle`.
pub open spec fn reports_inside<F: Fn(usize, Vec<usize>) -> bool>(
    f: F,
    node: usize,
    cycle: Seq<usize>,
    ans: bool,
) -> bool {
    exists|v: Vec<usize>| v@ == cycle && call_ensures(f, (node, v), ans)
}

/// The extent measure can answer `size` when asked for the extent of
/// `cycle`.
pub open spec fn reports_extent<G: Fn(Vec<usize>) -> u64>(
    ext: G,
    cycle: Seq<usize>,
    size: u64,
) -> bool {
    exists|v: Vec<usize>| v@ == cycle && call_ensures(ext, (v,), size)
}

/// One answer row of the geometry predicates for `node`: for each cycle the
/// node does not lie on, `ins` records an inside-report the predicate can
/// give on those very arguments, and for each candidate, `sizes` an extent
/// the measure can return for it.
pub open spec fn answers_consistent<F: Fn(usize, Vec<usize>) -> bool, G: Fn(Vec<usize>) -> u64>(
    f: F,
    ext: G,
    cycles: Seq<Seq<usize>>,
    node: usize,
    ins: Seq<bool>,
    sizes: Seq<u64>,
) -> bool {
    &&& ins.len() == cycles.len()
    &&& sizes.len() == cycles.len()
    &&& forall|i: int|
        0 <= i < cycles.len() && !cycles[i].contains(node) ==> reports_inside(
            f,
            node,
            cycles[i],
            #[trigger] ins[i],
        )
    &&& forall|i: int|
        is_enclosure_candidate(cycles, node, ins, i) ==> reports_extent(
            ext,
            cycles[i],
            #[trigger] sizes[i],
        )
}

/// The enclosing region the classifier assigns to `node` under an answer
/// row: the first candidate of least extent — the comparison is strictly
/// less, so equal extents keep the earliest — and none exactly when no
/// candidate exists.
pub open spec fn spec_selection(
    cycles: Seq<Seq<usize>>,
    node: usize,
    ins: Seq<bool>,
    sizes: Seq<u64>,
    sep: Option<usize>,
) -> bool {
    match sep {
        Option::None => forall|i: int| !is_enclosure_candidate(cycles, node, ins, i),
        Option::Some(w) => {
            &&& is_enclosure_candidate(cycles, node, ins, w as int)
            &&& forall|i: int|
                is_enclosure_candidate(cycles, node, ins, i) ==> sizes[i] >= sizes[w as int]
            &&& forall|i: int|
                0 <= i < w as int && is_enclosure_candidate(cycles, node, ins, i) ==> sizes[i]
                    > sizes[w as int]
        },
    }
}

/// One run of the classifier under the two geometry predicates `f` and
/// `ext`: `cycles` are exactly the board's simple cycles, complete and
/// duplicate-free up to rotation and reflection, and for each alive node in
/// ascending order `seps` holds the first-found least-extent enclosing
/// region under an answer row the predicates can give.
pub open spec fn spec_classifier_run<F: Fn(usize, Vec<usize>) -> bool, G: Fn(Vec<usize>) -> u64>(
    f: F,
    ext: G,
    g: Seq<Seq<usize>>,
    cycles: Seq<Seq<usize>>,
    ins: Seq<Seq<bool>>,
    sizes: Seq<Seq<u64>>,
    seps: Seq<Option<usize>>,
) -> bool {
    let alive = spec_alive_list(g);
    &&& forall|i: int| 0 <= i < cycles.len() ==> is_cycle(g, #[trigger] cycles[i])
    &&& forall|i: int, j: int|
        0 <= i < j < cycles.len() ==> spec_canonical(cycles[i]) != spec_canonical(cycles[j])
    &&& forall|c: Seq<usize>| #[trigger] is_cycle(g, c) ==> canon_listed(cycles, c)
    &&& seps.len() == alive.len()
    &&& ins.len() == alive.len()
    &&& sizes.len() == alive.len()
    &&& forall|k: int|
        0 <= k < alive.len() ==> answers_consistent(
            f,
            ext,
            cycles,
            alive[k],
            ins[k],
            #[trigger] sizes[k],
        )
    &&& forall|k: int|
        0 <= k < alive.len() ==> spec_selection(cycles, alive[k], ins[k], sizes[k], #[trigger] seps[k])
}

/// What the classifier reports of an enclosure assignment: the game is over
/// exactly when no alive node keeps it open.
pub open spec fn spec_over_verdict(
    g: Seq<Seq<usize>>,
    cycles: Seq<Seq<usize>>,
    seps: Seq<Option<usize>>,
) -> bool {
    let alive = spec_alive_list(g);
    !(exists|k: int| 0 <= k < alive.len() && spec_not_over_at(g, cycles, alive, seps, k))
}

proof fn lemma_alive_upto_all_dead(g: Seq<Seq<usize>>, n: int)
    requires
        forall|m: int| 0 <= m < n ==> (#[trigger] g[m]).len() >= 3,
    ensures
        alive_upto(g, n).len() == 0,
    decreases n,
{
    if n > 0 {
        lemma_alive_upto_all_dead(g, n - 1);
    }
}

/// How many entries of a visited map are still false.
pub open spec fn count_unvisited(v: Seq<bool>) -> nat
    decreases v.len(),
{
    if v.len() == 0 {
        0
    } else {
        count_unvisited(v.drop_last()) + if v.last() {
            0nat
        } else {
            1nat
        }
    }
}

proof fn lemma_count_unvisited_update(v: Seq<bool>, i: int)
    requires
        0 <= i < v.len(),
        !v[i],
    ensures
        count_unvisited(v.update(i, true)) + 1 == count_unvisited(v),
    decreases v.len(),
{
    let w = v.update(i, true);
    if i == v.len() - 1 {
        assert(w.drop_last() =~= v.drop_last());
        assert(w.last());
        assert(!v.last());
    } else {
        lemma_count_unvisited_update(v.drop_last(), i);
        assert(w.drop_last() =~= v.drop_last().update(i, true));
        assert(w.last() == v.last());
    }
}

/// Copies a list of node ids.
fn copy_ids(v: &Vec<usize>) -> (r: Vec<usize>)
    ensures
        r@ == v@,
{
    let mut r: Vec<usize> = Vec::new();
    let mut i: usize = 0;
    while i < v.len()
        invariant
            i <= v@.len(),
            r@ =~= v@.take(i as int),
        decreases v@.len() - i,
    {
        r.push(v[i]);
        i = i + 1;
    }
    proof {
        assert(v@.take(v@.len() as int) =~= v@);
    }
    r
}

/// Element-wise equality of two id lists.
fn ids_equal(x: &Vec<usize>, y: &Vec<usize>) -> (r: bool)
    ensures
        r == (x@ == y@),
{
    if x.len() != y.len() {
        proof {
            assert(x@.len() != y@.len());
        }
        return false;
    }
    let mut i: usize = 0;
    while i < x.len()
        invariant
            i <= x@.len(),
            x@.len() == y@.len(),
            forall|j: int| 0 <= j < i ==> x@[j] == y@[j],
        decreases x@.len() - i,
    {
        if x[i] != y[i] {
            return false;
        }
        i = i + 1;
    }
    proof {
        assert(x@ =~= y@);
    }
    true
}

/// A spot with no connections may be joined to itself: the move is legal,
/// brings the spot to degree two, and the fresh midpoint spot has degree two
/// with the old spot as its sole neighbour, twice over.
pub proof fn lemma_self_move_on_isolated(g: Seq<Seq<usize>>, a: usize)
    requires
        (a as int) < g.len(),
        g[a as int].len() == 0,
    ensures
        spec_can_connect(g, a, a),
        spec_after_move(g, a, a)[a as int].len() == 2,
        spec_after_move(g, a, a)[g.len() as int] == seq![a, a],
        spec_after_move(g, a, a)[g.len() as int].len() == 2,
{
    let h = spec_after_move(g, a, a);
    assert(h[a as int] == g[a as int].push(g.len() as usize).push(g.len() as usize));
    assert(h[g.len() as int] == seq![a, a]);
}

/// A move naming a spot that already carries three connections always fails,
/// whatever the other endpoint is; with `do_turn` returning no move, the
/// board is left untouched.
pub proof fn lemma_move_blocked_at_degree_three(g: Seq<Seq<usize>>, a: usize, b: usize)
    requires
        (a as int) < g.len(),
        g[a as int].len() == 3,
    ensures
        !spec_can_connect(g, a, b),
        !spec_can_connect(g, b, a),
{
}

/// Under well-formedness the player off turn is never the one on turn, so a
/// continuing game always hands the turn over.
pub proof fn lemma_other_player_differs(game: Game)
    requires
        game.wf(),
    ensures
        game.spec_other() != game.spec_turn(),
{
}

/// In the two-element list `[a, b]`, `x` occurs once for each of the two
/// entries it equals.
proof fn lemma_occurrences_pair(a: usize, b: usize, x: usize)
    ensures
        occurrences(seq![a, b], x) == (if a == x {
            1nat
        } else {
            0nat
        }) + (if b == x {
            1nat
        } else {
            0nat
        }),
{
    let e = Seq::<usize>::empty();
    let s1 = seq![a];
    let s = seq![a, b];
    assert(occurrences(e, x) == 0);
    assert(s1.drop_last() =~= e);
    assert(s1.last() == a);
    assert(occurrences(s1, x) == occurrences(e, x) + if a == x {
        1nat
    } else {
        0nat
    });
    assert(s.drop_last() =~= s1);
    assert(s.last() == b);
    assert(occurrences(s, x) == occurrences(s1, x) + if b == x {
        1nat
    } else {
        0nat
    });
}

} // verus!
