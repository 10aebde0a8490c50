//! Undirected multigraph with dense integer node ids and insertion-ordered
//! adjacency lists. Self-loops and repeated edges are physically permitted;
//! move legality is the turn engine's business, not the container's.

use vstd::prelude::*;

verus! {

/// Number of occurrences of `x` in `s`.
pub open spec fn occurrences(s: Seq<usize>, x: usize) -> nat
    decreases s.len(),
{
    if s.len() == 0 {
        0
    } else {
        occurrences(s.drop_last(), x) + if s.last() == x {
            1nat
        } else {
            0nat
        }
    }
}

/// The adjacency lists after wiring one (possibly half-present) edge `a`-`b`:
/// `b` is appended to `a`'s list if `a` exists, then `a` to `b`'s list if `b`
/// exists. For `a == b` the node's own list receives `a` twice, so a self-loop
/// contributes 2 to its degree.
pub open spec fn edge_added(g: Seq<Seq<usize>>, a: usize, b: usize) -> Seq<Seq<usize>> {
    let g1 = if (a as int) < g.len() {
        g.update(a as int, g[a as int].push(b))
    } else {
        g
    };
    if (b as int) < g1.len() {
        g1.update(b as int, g1[b as int].push(a))
    } else {
        g1
    }
}

/// `x` repeated `n` times.
pub open spec fn repeated(n: nat, x: usize) -> Seq<usize> {
    Seq::new(n, |k: int| x)
}

proof fn lemma_repeated_push(n: nat, x: usize)
    ensures
        repeated(n + 1, x) == repeated(n, x).push(x),
{
    assert(repeated(n + 1, x) =~= repeated(n, x).push(x));
}

proof fn lemma_occurrences_push(s: Seq<usize>, x: usize, y: usize)
    ensures
        occurrences(s.push(x), y) == occurrences(s, y) + if x == y {
            1nat
        } else {
            0nat
        },
{
    assert(s.push(x).drop_last() =~= s);
    assert(s.push(x).last() == x);
}

/// Degree is the adjacency-list length, and a self-loop counts twice toward
/// it: wiring `a`-`a` appends `a` to its own list at both ends.
pub proof fn lemma_self_loop_counts_two(g: Seq<Seq<usize>>, a: usize)
    requires
        (a as int) < g.len(),
    ensures
        edge_added(g, a, a)[a as int].len() == g[a as int].len() + 2,
{
}

/// Wiring an edge between two distinct existing nodes grows each endpoint's
/// degree by exactly one.
pub proof fn lemma_edge_counts_once_each(g: Seq<Seq<usize>>, a: usize, b: usize)
    requires
        a != b,
        (a as int) < g.len(),
        (b as int) < g.len(),
    ensures
        edge_added(g, a, b)[a as int].len() == g[a as int].len() + 1,
        edge_added(g, a, b)[b as int].len() == g[b as int].len() + 1,
{
}

/// Every adjacency entry names an existing node.
pub open spec fn spec_entries_in_range(g: Seq<Seq<usize>>) -> bool {
    forall|i: int, j: int|
        0 <= i < g.len() && 0 <= j < g[i].len() ==> ((#[trigger] g[i][j]) as int) < g.len()
}

/// The sequence read around the circle from position `k`.
pub open spec fn rotate_from(s: Seq<usize>, k: int) -> Seq<usize>
    recommends
        0 <= k <= s.len(),
{
    s.subrange(k, s.len() as int) + s.subrange(0, k)
}

/// Index of the first occurrence of the minimum of a non-empty sequence.
pub open spec fn min_index(s: Seq<usize>) -> int
    decreases s.len(),
{
    if s.len() <= 1 {
        0
    } else {
        let m = min_index(s.drop_last());
        if s.last() < s[m] {
            s.len() - 1
        } else {
            m
        }
    }
}

pub proof fn lemma_min_index_props(s: Seq<usize>)
    requires
        s.len() >= 1,
    ensures
        0 <= min_index(s) < s.len(),
        forall|i: int| 0 <= i < s.len() ==> s[min_index(s)] <= #[trigger] s[i],
        forall|i: int| 0 <= i < min_index(s) ==> s[min_index(s)] < #[trigger] s[i],
    decreases s.len(),
{
    if s.len() > 1 {
        lemma_min_index_props(s.drop_last());
        assert(forall|i: int| 0 <= i < s.len() - 1 ==> s.drop_last()[i] == s[i]);
    }
}

/// The one normalized reading of a closed walk, the sole source of cycle
/// identity: start at the minimum id and walk toward the larger of its two
/// circle neighbours, so that every rotation, and every rotation of the
/// reversal, of a simple cycle reads the same.
pub open spec fn spec_canonical(s: Seq<usize>) -> Seq<usize> {
    if s.len() == 0 {
        s
    } else if s.len() < 3 {
        rotate_from(s, min_index(s))
    } else {
        let i = min_index(s);
        let right = s[if i + 1 < s.len() {
            i + 1
        } else {
            0
        }];
        let left = s[if i == 0 {
            s.len() - 1
        } else {
            i - 1
        }];
        if right > left {
            rotate_from(s, i)
        } else {
            rotate_from(s.reverse(), s.len() - 1 - i)
        }
    }
}

/// No node id appears twice.
pub open spec fn distinct_ids(s: Seq<usize>) -> bool {
    forall|i: int, j: int| 0 <= i < j < s.len() ==> s[i] != s[j]
}

proof fn lemma_rotate_index(s: Seq<usize>, k: int, j: int)
    requires
        0 <= k <= s.len(),
        0 <= j < s.len(),
    ensures
        rotate_from(s, k)[j] == s[if j + k < s.len() {
            j + k
        } else {
            j + k - s.len()
        }],
{
    if j + k < s.len() {
        assert(rotate_from(s, k)[j] == s.subrange(k, s.len() as int)[j]);
    } else {
        assert(rotate_from(s, k)[j] == s.subrange(0, k)[j - (s.len() - k)]);
    }
}

proof fn lemma_unique_min(s: Seq<usize>, p: int)
    requires
        s.len() >= 1,
        0 <= p < s.len(),
        forall|i: int| 0 <= i < s.len() && i != p ==> s[p] < #[trigger] s[i],
    ensures
        min_index(s) == p,
{
    lemma_min_index_props(s);
    if min_index(s) != p {
        assert(s[p] < s[min_index(s)]);
        assert(s[min_index(s)] <= s[p]);
    }
}

/// Cycle identity is rotation-invariant: a simple cycle read from any of its
/// positions canonicalizes to the same sequence.
pub proof fn lemma_canonical_rotation(s: Seq<usize>, k: int)
    requires
        s.len() >= 3,
        distinct_ids(s),
        0 <= k < s.len(),
    ensures
        spec_canonical(rotate_from(s, k)) == spec_canonical(s),
{
    let n = s.len() as int;
    let r = rotate_from(s, k);
    assert(r.len() == n);
    assert forall|j: int| 0 <= j < n implies #[trigger] r[j] == s[if j + k < n {
        j + k
    } else {
        j + k - n
    }] by {
        lemma_rotate_index(s, k, j);
    }
    let m = min_index(s);
    lemma_min_index_props(s);
    let p = if m >= k {
        m - k
    } else {
        m - k + n
    };
    assert(0 <= p < n);
    assert(r[p] == s[m]);
    assert forall|j: int| 0 <= j < n && j != p implies r[p] < #[trigger] r[j] by {
        let j2 = if j + k < n {
            j + k
        } else {
            j + k - n
        };
        assert(r[j] == s[j2]);
        assert(j2 != m);
        assert(s[m] <= s[j2]);
        assert(s[m] != s[j2]);
    }
    lemma_unique_min(r, p);
    let sr = if m + 1 < n {
        m + 1
    } else {
        0
    };
    let sl = if m == 0 {
        n - 1
    } else {
        m - 1
    };
    let rr = if p + 1 < n {
        p + 1
    } else {
        0
    };
    let rl = if p == 0 {
        n - 1
    } else {
        p - 1
    };
    assert(r[rr] == s[sr]);
    assert(r[rl] == s[sl]);
    if s[sr] > s[sl] {
        assert(spec_canonical(s) == rotate_from(s, m));
        assert(spec_canonical(r) == rotate_from(r, p));
        assert forall|j: int| 0 <= j < n implies rotate_from(r, p)[j] == rotate_from(s, m)[j] by {
            lemma_rotate_index(r, p, j);
            lemma_rotate_index(s, m, j);
        }
        assert(rotate_from(r, p) =~= rotate_from(s, m));
    } else {
        assert(spec_canonical(s) == rotate_from(s.reverse(), n - 1 - m));
        assert(spec_canonical(r) == rotate_from(r.reverse(), n - 1 - p));
        assert forall|j: int|
            0 <= j < n implies #[trigger] rotate_from(r.reverse(), n - 1 - p)[j] == rotate_from(
            s.reverse(),
            n - 1 - m,
        )[j] by {
            lemma_rotate_index(r.reverse(), n - 1 - p, j);
            lemma_rotate_index(s.reverse(), n - 1 - m, j);
        }
        assert(rotate_from(r.reverse(), n - 1 - p) =~= rotate_from(s.reverse(), n - 1 - m));
    }
}

/// `t` reads the circle of `s`: it is a rotation of `s` or of its reversal.
pub open spec fn is_reading(s: Seq<usize>, t: Seq<usize>) -> bool {
    exists|k: int|
        #![trigger rotate_from(s, k)]
        #![trigger rotate_from(s.reverse(), k)]
        0 <= k < s.len() && (t == rotate_from(s, k) || t == rotate_from(s.reverse(), k))
}

/// The canonical form is itself one of the cycle's readings. Together with
/// the two invariance lemmas, two sequences share a canonical form exactly
/// when one is a rotation or a reversed rotation of the other.
pub proof fn lemma_canonical_is_reading(s: Seq<usize>)
    requires
        s.len() >= 1,
    ensures
        is_reading(s, spec_canonical(s)),
{
    lemma_min_index_props(s);
    let m = min_index(s);
    let c = spec_canonical(s);
    if s.len() < 3 {
        assert(c == rotate_from(s, m));
        assert(0 <= m < s.len() && (c == rotate_from(s, m) || c == rotate_from(s.reverse(), m)));
        assert(is_reading(s, c));
    } else {
        let n = s.len() as int;
        let right = s[if m + 1 < n {
            m + 1
        } else {
            0
        }];
        let left = s[if m == 0 {
            n - 1
        } else {
            m - 1
        }];
        if right > left {
            assert(c == rotate_from(s, m));
            assert(0 <= m < s.len() && (c == rotate_from(s, m) || c == rotate_from(
                s.reverse(),
                m,
            )));
            assert(is_reading(s, c));
        } else {
            assert(c == rotate_from(s.reverse(), n - 1 - m));
            assert(0 <= n - 1 - m < s.len() && (c == rotate_from(s, n - 1 - m) || c == rotate_from(
                s.reverse(),
                n - 1 - m,
            )));
            assert(is_reading(s, c));
        }
    }
}

proof fn lemma_rotate_ends(s: Seq<usize>)
    ensures
        rotate_from(s, 0) == s,
        rotate_from(s, s.len() as int) == s,
{
    assert(rotate_from(s, 0) =~= s);
    assert(rotate_from(s, s.len() as int) =~= s);
}

proof fn lemma_rotate_compose(s: Seq<usize>, a: int, b: int)
    requires
        0 <= a <= s.len(),
        0 <= b <= s.len(),
    ensures
        rotate_from(rotate_from(s, a), b) == rotate_from(
            s,
            if a + b <= s.len() {
                a + b
            } else {
                a + b - s.len()
            },
        ),
{
    let n = s.len() as int;
    let r = rotate_from(s, a);
    let c = if a + b <= n {
        a + b
    } else {
        a + b - n
    };
    assert forall|j: int| 0 <= j < n implies #[trigger] rotate_from(r, b)[j] == rotate_from(
        s,
        c,
    )[j] by {
        lemma_rotate_index(r, b, j);
        lemma_rotate_index(s, c, j);
        if b < n {
            lemma_rotate_index(s, a, if j + b < n {
                j + b
            } else {
                j + b - n
            });
        } else {
            lemma_rotate_ends(r);
            lemma_rotate_index(s, a, j);
        }
    }
    assert(rotate_from(r, b) =~= rotate_from(s, c));
}

proof fn lemma_rotate_inverse(s: Seq<usize>, k: int)
    requires
        0 <= k <= s.len(),
    ensures
        rotate_from(rotate_from(s, k), s.len() - k) == s,
{
    lemma_rotate_compose(s, k, s.len() - k);
    lemma_rotate_ends(s);
}

proof fn lemma_reverse_rotate(s: Seq<usize>, k: int)
    requires
        0 <= k <= s.len(),
    ensures
        rotate_from(s, k).reverse() == rotate_from(s.reverse(), s.len() - k),
{
    let n = s.len() as int;
    assert forall|j: int| 0 <= j < n implies #[trigger] rotate_from(s, k).reverse()[j]
        == rotate_from(s.reverse(), n - k)[j] by {
        assert(rotate_from(s, k).reverse()[j] == rotate_from(s, k)[n - 1 - j]);
        lemma_rotate_index(s, k, n - 1 - j);
        lemma_rotate_index(s.reverse(), n - k, j);
    }
    assert(rotate_from(s, k).reverse() =~= rotate_from(s.reverse(), n - k));
}

proof fn lemma_reading_intro(s: Seq<usize>, t: Seq<usize>, k: int)
    requires
        0 <= k < s.len(),
        t == rotate_from(s, k) || t == rotate_from(s.reverse(), k),
    ensures
        is_reading(s, t),
{
}

proof fn lemma_compose_forward(s: Seq<usize>, t: Seq<usize>, base_reversed: bool, k1: int, k0: int)
    requires
        s.len() >= 1,
        0 <= k1 <= s.len(),
        0 <= k0 <= s.len(),
        !base_reversed ==> t == rotate_from(rotate_from(s, k1), k0),
        base_reversed ==> t == rotate_from(rotate_from(s.reverse(), k1), k0),
    ensures
        is_reading(s, t),
{
    let n = s.len() as int;
    let w = if k1 + k0 <= n {
        k1 + k0
    } else {
        k1 + k0 - n
    };
    if !base_reversed {
        lemma_rotate_compose(s, k1, k0);
        assert(t == rotate_from(s, w));
        if w == n {
            lemma_rotate_ends(s);
            lemma_reading_intro(s, t, 0);
        } else {
            lemma_reading_intro(s, t, w);
        }
    } else {
        lemma_rotate_compose(s.reverse(), k1, k0);
        assert(t == rotate_from(s.reverse(), w));
        if w == n {
            lemma_rotate_ends(s.reverse());
            lemma_reading_intro(s, t, 0);
        } else {
            lemma_reading_intro(s, t, w);
        }
    }
}

/// Extracts the reading position: `c` is a rotation of `x` (flag true) or of
/// its reversal (flag false), starting at the returned index.
proof fn reading_witness(x: Seq<usize>, c: Seq<usize>) -> (r: (int, bool))
    requires
        x.len() >= 1,
        is_reading(x, c),
    ensures
        0 <= r.0 < x.len(),
        r.1 ==> c == rotate_from(x, r.0),
        !r.1 ==> c == rotate_from(x.reverse(), r.0),
{
    let k = choose|k: int|
        #![trigger rotate_from(x, k)]
        #![trigger rotate_from(x.reverse(), k)]
        0 <= k < x.len() && (c == rotate_from(x, k) || c == rotate_from(x.reverse(), k));
    if c == rotate_from(x, k) {
        (k, true)
    } else {
        (k, false)
    }
}

/// Two sequences that read one common sequence `c` read each other.
proof fn lemma_reading_transfer(
    s: Seq<usize>,
    t: Seq<usize>,
    c: Seq<usize>,
    ws: (int, bool),
    wt: (int, bool),
)
    requires
        s.len() >= 1,
        c.len() == s.len(),
        c.len() == t.len(),
        0 <= ws.0 < s.len(),
        0 <= wt.0 < t.len(),
        ws.1 ==> c == rotate_from(s, ws.0),
        !ws.1 ==> c == rotate_from(s.reverse(), ws.0),
        wt.1 ==> c == rotate_from(t, wt.0),
        !wt.1 ==> c == rotate_from(t.reverse(), wt.0),
    ensures
        is_reading(s, t),
{
    let n = s.len() as int;
    // undo the reading on the `t` side: `t` is a rotation of `c` or of its
    // reversal
    let tr = if wt.1 {
        proof_from_rotation(t, c, wt.0)
    } else {
        proof_from_reversed_rotation(t, c, wt.0)
    };
    // push the reading on the `s` side through it
    if ws.1 {
        if tr.1 {
            lemma_compose_forward(s, t, false, ws.0, tr.0);
        } else {
            lemma_reverse_rotate(s, ws.0);
            assert(c.reverse() == rotate_from(s.reverse(), n - ws.0));
            lemma_compose_forward(s, t, true, n - ws.0, tr.0);
        }
    } else {
        if tr.1 {
            lemma_compose_forward(s, t, true, ws.0, tr.0);
        } else {
            lemma_reverse_rotate(s.reverse(), ws.0);
            assert(c.reverse() == rotate_from(s.reverse().reverse(), n - ws.0));
            assert(s.reverse().reverse() =~= s);
            lemma_compose_forward(s, t, false, n - ws.0, tr.0);
        }
    }
}

/// The converse of the invariance lemmas: two sequences canonicalize alike
/// only when one reads the other's circle — it is a rotation of the other or
/// of its reversal. Canonical-form equality therefore coincides with cycle
/// identity.
pub proof fn lemma_same_canonical_same_cycle(s: Seq<usize>, t: Seq<usize>)
    requires
        s.len() >= 1,
        t.len() >= 1,
        spec_canonical(s) == spec_canonical(t),
    ensures
        is_reading(s, t),
{
    let c = spec_canonical(s);
    lemma_canonical_is_reading(s);
    lemma_canonical_is_reading(t);
    assert(is_reading(t, c));
    let ws = reading_witness(s, c);
    let wt = reading_witness(t, c);
    lemma_reading_transfer(s, t, c, ws, wt);
}

/// From `c == rotate_from(t, k)`, recover `t` as a forward rotation of `c`:
/// returns `(k', true)` with `t == rotate_from(c, k')`.
proof fn proof_from_rotation(t: Seq<usize>, c: Seq<usize>, k: int) -> (r: (int, bool))
    requires
        0 <= k < t.len(),
        c == rotate_from(t, k),
    ensures
        r.1,
        0 <= r.0 <= t.len(),
        t == rotate_from(c, r.0),
{
    lemma_rotate_inverse(t, k);
    (t.len() - k, true)
}

/// From `c == rotate_from(t.reverse(), k)`, recover `t` as a rotation of the
/// canonical form's reversal: returns `(k', false)` with
/// `t == rotate_from(c.reverse(), k')`.
proof fn proof_from_reversed_rotation(t: Seq<usize>, c: Seq<usize>, k: int) -> (r: (int, bool))
    requires
        0 <= k < t.len(),
        c == rotate_from(t.reverse(), k),
    ensures
        !r.1,
        0 <= r.0 <= t.len(),
        t == rotate_from(c.reverse(), r.0),
{
    let n = t.len() as int;
    lemma_rotate_inverse(t.reverse(), k);
    assert(rotate_from(c, n - k) == t.reverse());
    lemma_reverse_rotate(c, n - k);
    assert(rotate_from(c, n - k).reverse() == rotate_from(c.reverse(), k));
    assert(t.reverse().reverse() =~= t);
    assert(t == rotate_from(c.reverse(), k));
    (k, false)
}

/// Cycle identity is reflection-invariant: a simple cycle read in the other
/// direction canonicalizes to the same sequence.
pub proof fn lemma_canonical_reversal(s: Seq<usize>)
    requires
        s.len() >= 3,
        distinct_ids(s),
    ensures
        spec_canonical(s.reverse()) == spec_canonical(s),
{
    let n = s.len() as int;
    let r = s.reverse();
    assert(r.len() == n);
    let m = min_index(s);
    lemma_min_index_props(s);
    let p = n - 1 - m;
    assert(r[p] == s[m]);
    assert forall|j: int| 0 <= j < n && j != p implies r[p] < #[trigger] r[j] by {
        assert(r[j] == s[n - 1 - j]);
        assert(n - 1 - j != m);
        assert(s[m] <= s[n - 1 - j]);
        assert(s[m] != s[n - 1 - j]);
    }
    lemma_unique_min(r, p);
    let sr = if m + 1 < n {
        m + 1
    } else {
        0
    };
    let sl = if m == 0 {
        n - 1
    } else {
        m - 1
    };
    let rr = if p + 1 < n {
        p + 1
    } else {
        0
    };
    let rl = if p == 0 {
        n - 1
    } else {
        p - 1
    };
    assert(r[rr] == s[sl]);
    assert(r[rl] == s[sr]);
    assert(sr != sl);
    assert(s[sr] != s[sl]);
    if s[sr] > s[sl] {
        // `s` reads forward while its reversal reads backward, into the very
        // same sequence
        assert(spec_canonical(s) == rotate_from(s, m));
        assert(!(r[rr] > r[rl]));
        assert(spec_canonical(r) == rotate_from(r.reverse(), n - 1 - p));
        assert forall|j: int| 0 <= j < n implies r.reverse()[j] == s[j] by {
            assert(r.reverse()[j] == r[n - 1 - j]);
        }
        assert(r.reverse() =~= s);
        assert(n - 1 - p == m);
    } else {
        assert(r[rr] > r[rl]);
        assert(spec_canonical(r) == rotate_from(r, p));
        assert(spec_canonical(s) == rotate_from(s.reverse(), n - 1 - m));
        assert(p == n - 1 - m);
    }
}

/// A closed simple walk of the cycle search, an ordered list of node ids.
pub struct GraphLoop {
    ids: Vec<usize>,
}

impl View for GraphLoop {
    type V = Seq<usize>;

    closed spec fn view(&self) -> Seq<usize> {
        self.ids@
    }
}

impl From<Vec<usize>> for GraphLoop {
    fn from(vec: Vec<usize>) -> (r: GraphLoop) {
        GraphLoop { ids: vec }
    }
}

impl vstd::std_specs::convert::FromSpecImpl<Vec<usize>> for GraphLoop {
    open spec fn obeys_from_spec() -> bool {
        true
    }

    closed spec fn from_spec(vec: Vec<usize>) -> GraphLoop {
        GraphLoop { ids: vec }
    }
}

/// A walk built `from` a vector holds exactly that vector's ids.
pub proof fn lemma_from_vec_view(vec: Vec<usize>)
    ensures
        (<GraphLoop as vstd::std_specs::convert::FromSpec<Vec<usize>>>::from_spec(vec))@ == vec@,
{
}

impl GraphLoop {
    pub fn new() -> (r: GraphLoop)
        ensures
            r@ =~= Seq::<usize>::empty(),
    {
        GraphLoop { ids: Vec::new() }
    }

    pub fn len(&self) -> (r: usize)
        ensures
            r == self@.len(),
    {
        self.ids.len()
    }

    /// The member ids in walk order.
    pub fn ids(&self) -> (r: &Vec<usize>)
        ensures
            r@ == self@,
    {
        &self.ids
    }

    pub fn contains_id(&self, id: usize) -> (r: bool)
        ensures
            r == self@.contains(id),
    {
        let n = self.ids.len();
        let mut j: usize = 0;
        while j < n
            invariant
                j <= n,
                n == self@.len(),
                forall|q: int| 0 <= q < j ==> self@[q] != id,
            decreases n - j,
        {
            if self.ids[j] == id {
                return true;
            }
            j = j + 1;
        }
        false
    }

    /// The normalized form of this walk; two walks describe the same cycle
    /// exactly when their canonical forms are equal sequences.
    pub fn canonical(&self) -> (r: Vec<usize>)
        ensures
            r@ == spec_canonical(self@),
    {
        let n = self.ids.len();
        let mut r: Vec<usize> = Vec::new();
        if n == 0 {
            return r;
        }
        // position of the smallest id
        let mut mi: usize = 0;
        let mut j: usize = 1;
        while j < n
            invariant
                1 <= j <= n,
                n == self@.len(),
                mi < j,
                mi as int == min_index(self@.take(j as int)),
            decreases n - j,
        {
            proof {
                assert(self@.take(j + 1).drop_last() =~= self@.take(j as int));
                assert(self@.take(j + 1).last() == self@[j as int]);
            }
            if self.ids[j] < self.ids[mi] {
                mi = j;
            }
            j = j + 1;
        }
        proof {
            assert(self@.take(n as int) =~= self@);
            lemma_min_index_props(self@);
        }
        let forward: bool = if n < 3 {
            true
        } else {
            let right = self.ids[if mi + 1 == n {
                0
            } else {
                mi + 1
            }];
            let left = self.ids[if mi == 0 {
                n - 1
            } else {
                mi - 1
            }];
            right > left
        };
        if forward {
            let mut k: usize = mi;
            let mut t: usize = 0;
            while t < n
                invariant
                    t <= n,
                    n == self@.len(),
                    mi < n,
                    k as int == if mi + t < n {
                        mi + t
                    } else {
                        mi + t - n
                    },
                    r@.len() == t,
                    forall|q: int|
                        0 <= q < t ==> r@[q] == self@[if mi + q < n {
                            mi + q
                        } else {
                            mi + q - n
                        }],
                decreases n - t,
            {
                r.push(self.ids[k]);
                k = k + 1;
                if k == n {
                    k = 0;
                }
                t = t + 1;
            }
            proof {
                assert(r@ =~= rotate_from(self@, mi as int));
            }
        } else {
            let mut k: usize = mi;
            let mut t: usize = 0;
            while t < n
                invariant
                    t <= n,
                    n == self@.len(),
                    mi < n,
                    k as int == if t <= mi {
                        mi - t
                    } else {
                        mi + n - t
                    },
                    r@.len() == t,
                    forall|q: int|
                        0 <= q < t ==> r@[q] == self@[if q <= mi {
                            mi - q
                        } else {
                            mi + n - q
                        }],
                decreases n - t,
            {
                r.push(self.ids[k]);
                if k == 0 {
                    k = n - 1;
                } else {
                    k = k - 1;
                }
                t = t + 1;
            }
            proof {
                assert(r@ =~= rotate_from(self@.reverse(), self@.len() - 1 - mi));
            }
        }
        r
    }
}

pub struct Graph {
    adjacency_list: Vec<Vec<usize>>,
}

impl View for Graph {
    type V = Seq<Seq<usize>>;

    closed spec fn view(&self) -> Seq<Seq<usize>> {
        Seq::new(self.adjacency_list@.len(), |i: int| self.adjacency_list@[i]@)
    }
}

impl Graph {
    /// A node exists when its id is below the node count: ids are dense and
    /// assigned in order.
    pub open spec fn spec_has_node(self, node: usize) -> bool {
        (node as int) < self@.len()
    }

    /// The degree of a node is the length of its adjacency list; a self-loop
    /// appears there twice.
    pub open spec fn spec_degree(self, node: usize) -> nat {
        self@[node as int].len()
    }

    pub fn new() -> (g: Graph)
        ensures
            g@ =~= Seq::<Seq<usize>>::empty(),
    {
        Graph { adjacency_list: Vec::new() }
    }

    pub fn has_node(&self, node: usize) -> (r: bool)
        ensures
            r == self.spec_has_node(node),
    {
        node < self.adjacency_list.len()
    }

    pub fn neighbours(&self, node: usize) -> (r: &Vec<usize>)
        requires
            self.spec_has_node(node),
        ensures
            r@ == self@[node as int],
    {
        &self.adjacency_list[node]
    }

    pub fn edge_count(&self, node: usize) -> (r: usize)
        requires
            self.spec_has_node(node),
        ensures
            r == self.spec_degree(node),
    {
        self.adjacency_list[node].len()
    }

    /// All node ids in ascending order, `0` to the node count exclusive.
    pub fn iter_nodes(&self) -> (r: Vec<usize>)
        ensures
            r@.len() == self@.len(),
            forall|i: int| 0 <= i < r@.len() ==> r@[i] == i,
    {
        let n = self.adjacency_list.len();
        let mut r: Vec<usize> = Vec::new();
        let mut i: usize = 0;
        while i < n
            invariant
                i <= n,
                n == self@.len(),
                r@.len() == i,
                forall|j: int| 0 <= j < i ==> r@[j] == j,
            decreases n - i,
        {
            r.push(i);
            i = i + 1;
        }
        r
    }

    /// Creates a node whose id is the current node count, wiring a symmetric
    /// edge to each entry of `connections`: every existing node gains the new
    /// id once per occurrence in `connections`, and the new node's own list is
    /// `connections` itself.
    pub fn add_node(&mut self, connections: Vec<usize>) -> (r: usize)
        ensures
            r == old(self)@.len(),
            final(self)@.len() == old(self)@.len() + 1,
            final(self)@[r as int] == connections@,
            forall|i: int|
                0 <= i < old(self)@.len() ==> final(self)@[i] == old(self)@[i] + repeated(
                    occurrences(connections@, i as usize),
                    (old(self)@.len() as usize),
                ),
            forall|i: int|
                0 <= i < old(self)@.len() ==> final(self)@[i].len() == old(self)@[i].len()
                    + occurrences(connections@, i as usize),
    {
        let id = self.adjacency_list.len();
        let ghost g0 = self@;
        let mut j: usize = 0;
        while j < connections.len()
            invariant
                j <= connections@.len(),
                id == g0.len(),
                self@.len() == g0.len(),
                forall|i: int|
                    0 <= i < g0.len() ==> self@[i] == g0[i] + repeated(
                        occurrences(connections@.take(j as int), i as usize),
                        id,
                    ),
            decreases connections@.len() - j,
        {
            let c = connections[j];
            let ghost taken = connections@.take(j as int);
            let ghost pre = self@;
            proof {
                assert(connections@.take(j + 1) =~= taken.push(c));
                assert forall|i: int| 0 <= i < g0.len() implies #[trigger] occurrences(
                    connections@.take(j + 1),
                    i as usize,
                ) == occurrences(taken, i as usize) + if c == i {
                    1nat
                } else {
                    0nat
                } by {
                    lemma_occurrences_push(taken, c, i as usize);
                }
            }
            if c < id {
                self.adjacency_list[c].push(id);
                proof {
                    assert(self@ =~= pre.update(c as int, pre[c as int].push(id)));
                    assert forall|i: int| 0 <= i < g0.len() implies self@[i] == g0[i] + repeated(
                        occurrences(connections@.take(j + 1), i as usize),
                        id,
                    ) by {
                        if i == c {
                            lemma_repeated_push(occurrences(taken, c), id);
                            assert(pre[i] == g0[i] + repeated(occurrences(taken, c), id));
                            assert(self@[i] == pre[i].push(id));
                            assert(g0[i] + repeated(occurrences(taken, c), id).push(id) =~= (g0[i]
                                + repeated(occurrences(taken, c), id)).push(id));
                        } else {
                            assert(self@[i] == pre[i]);
                        }
                    }
                }
            } else {
                proof {
                    assert forall|i: int| 0 <= i < g0.len() implies self@[i] == g0[i] + repeated(
                        occurrences(connections@.take(j + 1), i as usize),
                        id,
                    ) by {
                        assert(self@[i] == pre[i]);
                        assert(i < c);
                    }
                }
            }
            j = j + 1;
        }
        proof {
            assert(connections@.take(connections@.len() as int) =~= connections@);
        }
        let ghost g1 = self@;
        self.adjacency_list.push(connections);
        proof {
            assert(self@ =~= g1.push(connections@));
        }
        id
    }

    /// Appends `b` to `a`'s list and `a` to `b`'s, each only where the node
    /// exists; a list belonging to neither keeps its contents.
    pub fn add_edge(&mut self, a: usize, b: usize)
        ensures
            final(self)@ == edge_added(old(self)@, a, b),
            final(self)@.len() == old(self)@.len(),
    {
        let ghost g0 = self@;
        if a < self.adjacency_list.len() {
            self.adjacency_list[a].push(b);
        }
        let ghost g1 = self@;
        proof {
            assert(g1 =~= if (a as int) < g0.len() {
                g0.update(a as int, g0[a as int].push(b))
            } else {
                g0
            });
        }
        if b < self.adjacency_list.len() {
            self.adjacency_list[b].push(a);
        }
        proof {
            assert(self@ =~= if (b as int) < g1.len() {
                g1.update(b as int, g1[b as int].push(a))
            } else {
                g1
            });
        }
    }
}

} // verus!
