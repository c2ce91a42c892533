use crate::graph::out_edges;
use crate::heuristics::{label_inputs_ok, EdgeDistanceHeuristic};
use crate::levenshtein::lev_distance;
use crate::match_star::{lemma_star_pairs_targets, match_star, star_pairs, MatchContext};
use crate::object::CodeMetadata;
use crate::tables::{addr_set_contents, pair_set_contents, AddrSet, PairSet};
use vstd::prelude::*;
use vstd::string::*;

verus! {

/// The pair with its components exchanged.
pub open spec fn swap(p: (u64, u64)) -> (u64, u64) {
    (p.1, p.0)
}

/// The order of pairs: by first component, then by second.
pub open spec fn pair_lt(p: (u64, u64), q: (u64, u64)) -> bool {
    p.0 < q.0 || (p.0 == q.0 && p.1 < q.1)
}

/// Whether `b` is the target of some edge of `g`.
pub open spec fn is_target(g: Map<u64, Seq<u64>>, b: u64) -> bool {
    exists|a: u64, i: int| g.dom().contains(a) && 0 <= i < g[a].len() && #[trigger] g[a][i] == b
}

/// All pairs with the first component in `a` and the second in `b`.
pub open spec fn pairs_of(a: Set<u64>, b: Set<u64>) -> Set<(u64, u64)> {
    Set::new(|p: (u64, u64)| a.contains(p.0) && b.contains(p.1))
}

/// The stars of the two sides are small enough for their label matrices to fit in memory.
pub open spec fn degrees_fit(lhs: &CodeMetadata, rhs: &CodeMetadata) -> bool {
    let dl = lhs.graph_spec().max_degree_spec();
    let dr = rhs.graph_spec().max_degree_spec();
    &&& (dl + 1) * (dr + 1) <= usize::MAX
    &&& 3 * dl + dr < usize::MAX
}

proof fn lemma_pairs_finite(a: Set<u64>, b: Set<u64>)
    requires
        a.finite(),
        b.finite(),
    ensures
        pairs_of(a, b).finite(),
    decreases a.len(),
{
    if a.len() == 0 {
        assert(a =~= Set::<u64>::empty());
        assert(pairs_of(a, b) =~= Set::<(u64, u64)>::empty());
    } else {
        let x = a.choose();
        lemma_pairs_finite(a.remove(x), b);
        let f = |y: u64| (x, y);
        let row = b.map(f);
        b.lemma_map_finite(f);
        assert forall|p: (u64, u64)| pairs_of(a, b).contains(p) implies pairs_of(
            a.remove(x),
            b,
        ).union(row).contains(p) by {
            if p.0 == x {
                assert(b.contains(p.1) && f(p.1) == p);
            }
        }
        assert(pairs_of(a, b) =~= pairs_of(a.remove(x), b).union(row));
    }
}

/// A star of either side passes the size and coverage demands of a heuristic.
proof fn lemma_star_inputs(lhs: &CodeMetadata, rhs: &CodeMetadata, a: u64, b: u64)
    requires
        lhs.wf(),
        rhs.wf(),
        lhs.covers_targets(),
        rhs.covers_targets(),
        degrees_fit(lhs, rhs),
    ensures
        label_inputs_ok(
            out_edges(lhs.graph_spec()@, a),
            out_edges(rhs.graph_spec()@, b),
            lhs.sizes(),
            rhs.sizes(),
        ),
{
    lhs.graph_spec().lemma_targets(a);
    rhs.graph_spec().lemma_targets(b);
    let n = out_edges(lhs.graph_spec()@, a).len();
    let m = out_edges(rhs.graph_spec()@, b).len();
    let dl = lhs.graph_spec().max_degree_spec();
    let dr = rhs.graph_spec().max_degree_spec();
    assert((n + 1) * (m + 1) <= (dl + 1) * (dr + 1)) by (nonlinear_arith)
        requires
            n <= dl,
            m <= dr,
    ;
}

/// Candidates of a star match are pairs of call targets.
proof fn lemma_candidates(
    gl: Map<u64, Seq<u64>>,
    gr: Map<u64, Seq<u64>>,
    a: u64,
    b: u64,
    ls: Seq<usize>,
    rs: Seq<usize>,
)
    ensures
        ({
            let el = out_edges(gl, a);
            let er = out_edges(gr, b);
            let sp = star_pairs(ls, rs, el, er, el.len(), er.len());
            forall|k: int|
                0 <= k < sp.len() ==> is_target(gl, (#[trigger] sp[k]).0) && is_target(gr, sp[k].1)
        }),
{
    let el = out_edges(gl, a);
    let er = out_edges(gr, b);
    let sp = star_pairs(ls, rs, el, er, el.len(), er.len());
    lemma_star_pairs_targets(ls, rs, el, er, el.len(), er.len());
    assert forall|k: int| 0 <= k < sp.len() implies is_target(gl, (#[trigger] sp[k]).0)
        && is_target(gr, sp[k].1) by {
        let i = choose|i: int| 0 <= i < el.len() && el[i] == sp[k].0;
        let j = choose|j: int| 0 <= j < er.len() && er[j] == sp[k].1;
        assert(gl.dom().contains(a) && gl[a][i] == sp[k].0);
        assert(gr.dom().contains(b) && gr[b][j] == sp[k].1);
    }
}

/// The candidate pairs that the star match of pair `p` proposes under heuristic `h`.
pub open spec fn candidates<H: EdgeDistanceHeuristic>(
    h: &H,
    lhs: &CodeMetadata,
    rhs: &CodeMetadata,
    p: (u64, u64),
) -> Seq<(u64, u64)> {
    let el = out_edges(lhs.graph_spec()@, p.0);
    let er = out_edges(rhs.graph_spec()@, p.1);
    let labels = h.labels_spec(el, er, lhs.sizes(), rhs.sizes());
    star_pairs(labels.0, labels.1, el, er, el.len(), er.len())
}

/// Whether the star match of some pair of `m` proposes `q`.
pub open spec fn proposed<H: EdgeDistanceHeuristic>(
    h: &H,
    lhs: &CodeMetadata,
    rhs: &CodeMetadata,
    m: Set<(u64, u64)>,
    q: (u64, u64),
) -> bool {
    exists|p: (u64, u64)| m.contains(p) && #[trigger] candidates(h, lhs, rhs, p).contains(q)
}

/// A pending expansion: a pair, its star distance, and the candidates its match proposed.
pub struct PendingItem {
    pub pair: (u64, u64),
    pub dist: usize,
    pub mappings: Vec<(u64, u64)>,
}

impl PendingItem {
    /// Creates a pending item.
    pub fn new(pair: (u64, u64), dist: usize, mappings: Vec<(u64, u64)>) -> (r: Self)
        ensures
            r.pair == pair,
            r.dist == dist,
            r.mappings@ == mappings@,
    {
        PendingItem { pair, dist, mappings }
    }
}

/// Whether some queued item holds the pair `q`.
pub open spec fn queued(pending: Seq<PendingItem>, q: (u64, u64)) -> bool {
    exists|k: int| 0 <= k < pending.len() && (#[trigger] pending[k]).pair == q
}

/// Whether a purge on `p` and `w` removes item `x`: its pair is `p` or `w` (`w` is the swap
/// of `p` on a commit, `p` itself on a drop).
pub open spec fn purged(x: PendingItem, p: (u64, u64), w: (u64, u64)) -> bool {
    x.pair == p || x.pair == w
}

/// The items that survive a purge on `p` and `w`, in their order.
pub open spec fn keep(s: Seq<PendingItem>, p: (u64, u64), w: (u64, u64)) -> Seq<PendingItem>
    decreases s.len(),
{
    if s.len() == 0 {
        s
    } else if purged(s[0], p, w) {
        keep(s.drop_first(), p, w)
    } else {
        seq![s[0]] + keep(s.drop_first(), p, w)
    }
}

proof fn lemma_keep(s: Seq<PendingItem>, p: (u64, u64), w: (u64, u64))
    ensures
        keep(s, p, w).len() <= s.len(),
        forall|k: int| 0 <= k < s.len() && !purged(s[k], p, w) ==> keep(s, p, w).contains(#[trigger] s[k]),
    decreases s.len(),
{
    if s.len() > 0 {
        let t = s.drop_first();
        lemma_keep(t, p, w);
        assert forall|k: int| 0 <= k < s.len() && !purged(s[k], p, w) implies keep(s, p, w).contains(
            #[trigger] s[k],
        ) by {
            if k == 0 {
                assert(keep(s, p, w)[0] == s[0]);
            } else {
                assert(s[k] == t[k - 1]);
                assert(keep(t, p, w).contains(t[k - 1]));
                let j = choose|j: int| 0 <= j < keep(t, p, w).len() && keep(t, p, w)[j] == t[k - 1];
                if purged(s[0], p, w) {
                    assert(keep(s, p, w)[j] == s[k]);
                } else {
                    assert(keep(s, p, w)[j + 1] == s[k]);
                }
            }
        }
    }
}

/// Removes every pending item whose pair is `p` or `w`, keeping the order of the rest.
fn purge(pending: &mut Vec<PendingItem>, p: (u64, u64), w: (u64, u64))
    ensures
        final(pending)@ == keep(old(pending)@, p, w),
{
    let ghost start = pending@;
    let mut i: usize = 0;
    proof {
        assert(pending@.skip(0) =~= pending@);
        assert(pending@.take(0) =~= Seq::<PendingItem>::empty());
    }
    while i < pending.len()
        invariant
            i <= pending@.len(),
            pending@.take(i as int) + keep(pending@.skip(i as int), p, w) == keep(start, p, w),
        decreases pending@.len() - i,
    {
        let ghost before = pending@;
        let a = pending[i].pair;
        if (a.0 == p.0 && a.1 == p.1) || (a.0 == w.0 && a.1 == w.1) {
            pending.remove(i);
            proof {
                assert(before.skip(i as int).drop_first() =~= pending@.skip(i as int));
                assert(before.take(i as int) =~= pending@.take(i as int));
            }
        } else {
            i += 1;
            proof {
                assert(before.skip(i - 1).drop_first() =~= before.skip(i as int));
                assert(pending@.take(i as int) =~= before.take(i - 1).push(before[i - 1]));
                assert(pending@.take(i as int) + keep(pending@.skip(i as int), p, w) =~= before.take(
                    i - 1,
                ) + keep(before.skip(i - 1), p, w));
            }
        }
    }
    proof {
        assert(pending@.skip(i as int) =~= Seq::<PendingItem>::empty());
        assert(pending@.take(i as int) =~= pending@);
    }
}

/// The position of the first item of least distance: ties go to the item queued first.
fn min_index(pending: &Vec<PendingItem>) -> (r: usize)
    requires
        pending@.len() > 0,
    ensures
        r < pending@.len(),
        forall|k: int| 0 <= k < pending@.len() ==> pending@[r as int].dist <= #[trigger] pending@[k].dist,
        forall|k: int| 0 <= k < r ==> pending@[r as int].dist < #[trigger] pending@[k].dist,
{
    let mut best: usize = 0;
    let mut i: usize = 1;
    while i < pending.len()
        invariant
            1 <= i <= pending@.len(),
            best < i,
            forall|k: int| 0 <= k < i ==> pending@[best as int].dist <= #[trigger] pending@[k].dist,
            forall|k: int| 0 <= k < best ==> pending@[best as int].dist < #[trigger] pending@[k].dist,
        decreases pending@.len() - i,
    {
        if pending[i].dist < pending[best].dist {
            best = i;
        }
        i += 1;
    }
    best
}

/// A mapping between two call graphs: the committed pairs, in ascending order.
pub struct Mapping {
    set: Vec<(u64, u64)>,
}

impl View for Mapping {
    type V = Set<(u64, u64)>;

    closed spec fn view(&self) -> Set<(u64, u64)> {
        self.set@.to_set()
    }
}

impl Mapping {
    /// The committed pairs in ascending order.
    pub closed spec fn seq(&self) -> Seq<(u64, u64)> {
        self.set@
    }

    /// The pairs are strictly ascending.
    pub closed spec fn wf(&self) -> bool {
        forall|i: int, j: int| 0 <= i < j < self.set@.len() ==> pair_lt(self.set@[i], self.set@[j])
    }

    /// A well-formed mapping lists exactly its pairs, in strictly ascending order.
    pub proof fn lemma_seq(&self)
        requires
            self.wf(),
        ensures
            self@ == self.seq().to_set(),
            forall|i: int, j: int|
                0 <= i < j < self.seq().len() ==> pair_lt(self.seq()[i], self.seq()[j]),
    {
    }

    /// Creates an empty mapping.
    pub fn new() -> (r: Self)
        ensures
            r.wf(),
            r@ == Set::<(u64, u64)>::empty(),
    {
        let r = Mapping { set: Vec::new() };
        proof {
            assert(r@ =~= Set::<(u64, u64)>::empty());
        }
        r
    }

    /// Returns the pairs in ascending order.
    pub fn pairs(&self) -> (r: &[(u64, u64)])
        ensures
            r@ == self.seq(),
    {
        self.set.as_slice()
    }

    /// Adds a pair, keeping the order.
    pub fn insert(&mut self, p: (u64, u64))
        requires
            old(self).wf(),
        ensures
            final(self).wf(),
            final(self)@ == old(self)@.insert(p),
    {
        let ghost s = self.set@;
        let k = self.lower_bound(p);
        if k < self.set.len() && self.set[k].0 == p.0 && self.set[k].1 == p.1 {
            proof {
                assert(s[k as int] == p);
                assert(self@ =~= old(self)@.insert(p));
            }
            return ;
        }
        self.set.insert(k, p);
        proof {
            let t = self.set@;
            assert(t == s.insert(k as int, p));
            assert forall|i: int, j: int| 0 <= i < j < t.len() implies pair_lt(t[i], t[j]) by {
                if j < k {
                    assert(t[i] == s[i] && t[j] == s[j]);
                } else if j == k {
                    assert(t[i] == s[i]);
                } else if i == k {
                    assert(t[j] == s[j - 1]);
                    assert(!pair_lt(s[k as int], p));
                    if j - 1 > k {
                        assert(pair_lt(s[k as int], s[j - 1]));
                    }
                } else if i < k {
                    assert(t[i] == s[i] && t[j] == s[j - 1]);
                } else {
                    assert(t[i] == s[i - 1] && t[j] == s[j - 1]);
                }
            }
            assert forall|x: (u64, u64)| #[trigger] t.contains(x) == (s.contains(x) || x == p) by {
                if s.contains(x) {
                    let i = choose|i: int| 0 <= i < s.len() && s[i] == x;
                    if i < k {
                        assert(t[i] == x);
                    } else {
                        assert(t[i + 1] == x);
                    }
                }
                if x == p {
                    assert(t[k as int] == x);
                }
                if t.contains(x) {
                    let i = choose|i: int| 0 <= i < t.len() && t[i] == x;
                    if i < k {
                        assert(s[i] == x);
                    } else if i > k {
                        assert(s[i - 1] == x);
                    }
                }
            }
            assert(self@ =~= old(self)@.insert(p));
        }
    }

    /// The position of the first pair that is not below `p`.
    fn lower_bound(&self, p: (u64, u64)) -> (r: usize)
        requires
            self.wf(),
        ensures
            r <= self.set@.len(),
            forall|m: int| 0 <= m < r ==> pair_lt(#[trigger] self.set@[m], p),
            forall|m: int| r <= m < self.set@.len() ==> !pair_lt(#[trigger] self.set@[m], p),
    {
        let mut lo: usize = 0;
        let mut hi: usize = self.set.len();
        while lo < hi
            invariant
                self.wf(),
                lo <= hi <= self.set@.len(),
                forall|m: int| 0 <= m < lo ==> pair_lt(#[trigger] self.set@[m], p),
                forall|m: int| hi <= m < self.set@.len() ==> !pair_lt(#[trigger] self.set@[m], p),
            decreases hi - lo,
        {
            let mid = lo + (hi - lo) / 2;
            let q = self.set[mid];
            if q.0 < p.0 || (q.0 == p.0 && q.1 < p.1) {
                proof {
                    assert forall|m: int| 0 <= m <= mid implies pair_lt(#[trigger] self.set@[m], p) by {
                        if m < mid {
                            assert(pair_lt(self.set@[m], self.set@[mid as int]));
                        }
                    }
                }
                lo = mid + 1;
            } else {
                proof {
                    assert forall|m: int| mid <= m < self.set@.len() implies !pair_lt(
                        #[trigger] self.set@[m],
                        p,
                    ) by {
                        if m > mid {
                            assert(pair_lt(self.set@[mid as int], self.set@[m]));
                        }
                    }
                }
                hi = mid;
            }
        }
        lo
    }

    /// Whether some pair has `a` as its first component.
    pub fn has_first(&self, a: u64) -> (r: bool)
        requires
            self.wf(),
        ensures
            r == exists|b: u64| self@.contains((a, b)),
    {
        let k = self.lower_bound((a, 0));
        if k < self.set.len() && self.set[k].0 == a {
            proof {
                assert(self.set@.contains(self.set@[k as int]));
                assert(self@.contains((a, self.set@[k as int].1)));
            }
            return true;
        }
        proof {
            assert forall|b: u64| !self@.contains((a, b)) by {
                if self.set@.contains((a, b)) {
                    let i = choose|i: int| 0 <= i < self.set@.len() && self.set@[i] == (a, b);
                    if i < k {
                        assert(pair_lt(self.set@[i], (a, 0u64)));
                    } else if i > k {
                        assert(pair_lt(self.set@[k as int], self.set@[i]));
                        assert(!pair_lt(self.set@[k as int], (a, 0u64)));
                    }
                }
            }
        }
        false
    }
}

/// A queued expansion as plain values: its pair, its star distance and its candidates.
pub type QueuedView = ((u64, u64), nat, Seq<(u64, u64)>);

/// The state of a run: the queue, the committed pairs, the committed right addresses, and
/// the pairs submitted to star matching.
pub type RunState = (Seq<QueuedView>, Set<(u64, u64)>, Set<u64>, Set<(u64, u64)>);

/// The plain view of a pending item.
pub open spec fn item_view(x: PendingItem) -> QueuedView {
    (x.pair, x.dist as nat, x.mappings@)
}

/// The plain view of a queue.
pub open spec fn view_queue(p: Seq<PendingItem>) -> Seq<QueuedView> {
    p.map_values(|x: PendingItem| item_view(x))
}

/// The run state that the queue and the three sets stand for.
pub open spec fn exec_state(
    pending: Seq<PendingItem>,
    m: Set<(u64, u64)>,
    t: Set<u64>,
    c: Set<(u64, u64)>,
) -> RunState {
    (view_queue(pending), m, t, c)
}

/// The distance of the star match of pair `q` under heuristic `h`.
pub open spec fn star_distance<H: EdgeDistanceHeuristic>(
    h: &H,
    lhs: &CodeMetadata,
    rhs: &CodeMetadata,
    q: (u64, u64),
) -> nat {
    let el = out_edges(lhs.graph_spec()@, q.0);
    let er = out_edges(rhs.graph_spec()@, q.1);
    let labels = h.labels_spec(el, er, lhs.sizes(), rhs.sizes());
    lev_distance(labels.0, labels.1)
}

/// The queued expansion of pair `q`: the result of its star match.
pub open spec fn star_item<H: EdgeDistanceHeuristic>(
    h: &H,
    lhs: &CodeMetadata,
    rhs: &CodeMetadata,
    q: (u64, u64),
) -> QueuedView {
    (q, star_distance(h, lhs, rhs, q), candidates(h, lhs, rhs, q))
}

/// The state after submitting the seeds from position `k` on: each is matched and queued.
pub open spec fn seed_from<H: EdgeDistanceHeuristic>(
    h: &H,
    lhs: &CodeMetadata,
    rhs: &CodeMetadata,
    st: RunState,
    seeds: Seq<(u64, u64)>,
    k: nat,
) -> RunState
    decreases seeds.len() - k,
{
    if k >= seeds.len() {
        st
    } else {
        seed_from(
            h,
            lhs,
            rhs,
            (st.0.push(star_item(h, lhs, rhs, seeds[k as int])), st.1, st.2, st.3.insert(seeds[k as int])),
            seeds,
            k + 1,
        )
    }
}

/// The state of a run once all seeds are submitted.
pub open spec fn initial_state<H: EdgeDistanceHeuristic>(
    h: &H,
    lhs: &CodeMetadata,
    rhs: &CodeMetadata,
    seeds: Seq<(u64, u64)>,
) -> RunState {
    seed_from(h, lhs, rhs, (Seq::empty(), Set::empty(), Set::empty(), Set::empty()), seeds, 0)
}

/// The state after considering the candidates from position `k` on: a candidate not yet
/// submitted, whose left address is not committed and whose right address is not taken, is
/// matched and queued.
pub open spec fn expand<H: EdgeDistanceHeuristic>(
    h: &H,
    lhs: &CodeMetadata,
    rhs: &CodeMetadata,
    st: RunState,
    cands: Seq<(u64, u64)>,
    k: nat,
) -> RunState
    decreases cands.len() - k,
{
    if k >= cands.len() {
        st
    } else {
        let q = cands[k as int];
        if !st.3.contains(q) && !(exists|b: u64| st.1.contains((q.0, b))) && !st.2.contains(q.1) {
            expand(
                h,
                lhs,
                rhs,
                (st.0.push(star_item(h, lhs, rhs, q)), st.1, st.2, st.3.insert(q)),
                cands,
                k + 1,
            )
        } else {
            expand(h, lhs, rhs, st, cands, k + 1)
        }
    }
}

/// Whether position `i` holds the first item of least distance.
pub open spec fn is_first_min(p: Seq<QueuedView>, i: int) -> bool {
    &&& 0 <= i < p.len()
    &&& forall|k: int| 0 <= k < p.len() ==> p[i].1 <= #[trigger] p[k].1
    &&& forall|k: int| 0 <= k < i ==> p[i].1 < #[trigger] p[k].1
}

/// The position of the first item of least distance.
pub open spec fn first_min(p: Seq<QueuedView>) -> int {
    choose|i: int| is_first_min(p, i)
}

/// The queued items that survive a purge on `q` and `w`, in their order.
pub open spec fn keep_view(s: Seq<QueuedView>, q: (u64, u64), w: (u64, u64)) -> Seq<QueuedView>
    decreases s.len(),
{
    if s.len() == 0 {
        s
    } else if s[0].0 == q || s[0].0 == w {
        keep_view(s.drop_first(), q, w)
    } else {
        seq![s[0]] + keep_view(s.drop_first(), q, w)
    }
}

/// Whether pair `q` conflicts with the committed pairs `m` or the taken right addresses `t`:
/// its left address already has a partner, or its right address is taken.
pub open spec fn conflicts(m: Set<(u64, u64)>, t: Set<u64>, q: (u64, u64)) -> bool {
    (exists|b: u64| m.contains((q.0, b))) || t.contains(q.1)
}

/// One step of a run on the first item of least distance. If its pair conflicts with the
/// matching, it is dropped with the queued items of the same pair. Otherwise it is committed,
/// the queued items of the same pair or of its swap are dropped, and its candidates are
/// considered.
pub open spec fn step<H: EdgeDistanceHeuristic>(
    h: &H,
    lhs: &CodeMetadata,
    rhs: &CodeMetadata,
    st: RunState,
) -> RunState {
    let i = first_min(st.0);
    let it = st.0[i];
    if conflicts(st.1, st.2, it.0) {
        (keep_view(st.0.remove(i), it.0, it.0), st.1, st.2, st.3)
    } else {
        let p1 = keep_view(st.0.remove(i), it.0, swap(it.0));
        expand(h, lhs, rhs, (p1, st.1.insert(it.0), st.2.insert(it.0.1), st.3), it.2, 0)
    }
}

/// The committed pairs after at most `fuel` steps from state `st`, stopping once the queue is
/// empty.
pub open spec fn run<H: EdgeDistanceHeuristic>(
    h: &H,
    lhs: &CodeMetadata,
    rhs: &CodeMetadata,
    st: RunState,
    fuel: nat,
) -> Set<(u64, u64)>
    decreases fuel,
{
    if st.0.len() == 0 || fuel == 0 {
        st.1
    } else {
        run(h, lhs, rhs, step(h, lhs, rhs, st), (fuel - 1) as nat)
    }
}

/// The pairs held by queued items.
pub open spec fn queued_pairs(p: Seq<QueuedView>) -> Set<(u64, u64)> {
    p.map_values(|it: QueuedView| it.0).to_set()
}

/// The number of steps that empties the queue: each step commits a queued pair and drops
/// every item of that pair, and the pairs ever queued are the seeds and pairs of call
/// targets.
pub open spec fn step_bound(lhs: &CodeMetadata, rhs: &CodeMetadata, seeds: Seq<(u64, u64)>) -> nat {
    seeds.to_set().len() + pairs_of(lhs.graph_spec().targets(), rhs.graph_spec().targets()).len()
}

/// The mapping that matching from `seeds` commits.
pub open spec fn matching_result<H: EdgeDistanceHeuristic>(
    h: &H,
    lhs: &CodeMetadata,
    rhs: &CodeMetadata,
    seeds: Seq<(u64, u64)>,
) -> Set<(u64, u64)> {
    run(h, lhs, rhs, initial_state(h, lhs, rhs, seeds), step_bound(lhs, rhs, seeds))
}

proof fn lemma_first_min(p: Seq<QueuedView>, i: int)
    requires
        is_first_min(p, i),
    ensures
        first_min(p) == i,
{
    let j = first_min(p);
    assert(is_first_min(p, j));
    if j < i {
        assert(p[i].1 < p[j].1);
    } else if j > i {
        assert(p[j].1 < p[i].1);
    }
}

proof fn lemma_keep_view(s: Seq<PendingItem>, q: (u64, u64), w: (u64, u64))
    ensures
        view_queue(keep(s, q, w)) == keep_view(view_queue(s), q, w),
    decreases s.len(),
{
    let f = |x: PendingItem| item_view(x);
    if s.len() > 0 {
        lemma_keep_view(s.drop_first(), q, w);
        assert(s.map_values(f).drop_first() =~= s.drop_first().map_values(f));
        if !purged(s[0], q, w) {
            assert((seq![s[0]] + keep(s.drop_first(), q, w)).map_values(f) =~= seq![f(s[0])] + keep(
                s.drop_first(),
                q, w,
            ).map_values(f));
        }
    } else {
        assert(keep(s, q, w).map_values(f) =~= keep_view(s.map_values(f), q, w));
    }
}

/// `b` is `a` with one more copy of `x` at position `j`, where `a` already holds `x` before `j`.
pub open spec fn dup_at(a: Seq<QueuedView>, b: Seq<QueuedView>, j: int, x: QueuedView) -> bool {
    &&& 0 <= j <= a.len()
    &&& b == a.insert(j, x)
    &&& exists|i: int| 0 <= i < j && a[i] == x
}

/// Two run states that differ only by one extra later copy of a queued item.
pub open spec fn dup_state(a: RunState, b: RunState) -> bool {
    &&& a.1 == b.1
    &&& a.2 == b.2
    &&& a.3 == b.3
    &&& exists|j: int, x: QueuedView| dup_at(a.0, b.0, j, x)
}

proof fn lemma_first_min_exists(p: Seq<QueuedView>)
    requires
        p.len() > 0,
    ensures
        is_first_min(p, first_min(p)),
    decreases p.len(),
{
    if p.len() == 1 {
        assert(is_first_min(p, 0));
    } else {
        let q = p.drop_last();
        lemma_first_min_exists(q);
        let i = first_min(q);
        if p.last().1 < q[i].1 {
            assert forall|k: int| 0 <= k < p.len() - 1 implies p[p.len() - 1].1 < #[trigger] p[k].1 by {
                assert(q[k] == p[k]);
            }
            assert(is_first_min(p, p.len() - 1));
        } else {
            assert forall|k: int| 0 <= k < p.len() implies p[i].1 <= #[trigger] p[k].1 by {
                if k < p.len() - 1 {
                    assert(q[k] == p[k]);
                }
            }
            assert forall|k: int| 0 <= k < i implies p[i].1 < #[trigger] p[k].1 by {
                assert(q[k] == p[k]);
            }
            assert(is_first_min(p, i));
        }
    }
}

proof fn lemma_first_min_dup(a: Seq<QueuedView>, b: Seq<QueuedView>, j: int, x: QueuedView, i: int)
    requires
        dup_at(a, b, j, x),
        0 <= i < j,
        a[i] == x,
    ensures
        first_min(b) == (if first_min(a) < j {
            first_min(a)
        } else {
            first_min(a) + 1
        }),
        is_first_min(a, first_min(a)),
{
    lemma_first_min_exists(a);
    let ia = first_min(a);
    let ib = if ia < j {
        ia
    } else {
        ia + 1
    };
    assert(b[ib] == a[ia]);
    assert forall|k: int| 0 <= k < b.len() implies b[ib].1 <= #[trigger] b[k].1 by {
        if k < j {
            assert(b[k] == a[k]);
        } else if k == j {
            assert(b[k] == a[i]);
        } else {
            assert(b[k] == a[k - 1]);
        }
    }
    assert forall|k: int| 0 <= k < ib implies b[ib].1 < #[trigger] b[k].1 by {
        if k < j {
            assert(b[k] == a[k]);
        } else if k == j {
            assert(b[k] == a[i]);
            assert(a[ia].1 < a[i].1);
        } else {
            assert(b[k] == a[k - 1]);
        }
    }
    lemma_first_min(b, ib);
}

proof fn lemma_keep_view_concat(s1: Seq<QueuedView>, s2: Seq<QueuedView>, q: (u64, u64), w: (u64, u64))
    ensures
        keep_view(s1 + s2, q, w) == keep_view(s1, q, w) + keep_view(s2, q, w),
    decreases s1.len(),
{
    if s1.len() == 0 {
        assert(s1 + s2 =~= s2);
        assert(keep_view(s1, q, w) + keep_view(s2, q, w) =~= keep_view(s2, q, w));
    } else {
        lemma_keep_view_concat(s1.drop_first(), s2, q, w);
        assert((s1 + s2).drop_first() =~= s1.drop_first() + s2);
        assert((s1 + s2)[0] == s1[0]);
        if !(s1[0].0 == q || s1[0].0 == w) {
            assert(seq![s1[0]] + (keep_view(s1.drop_first(), q, w) + keep_view(s2, q, w)) =~= (seq![s1[0]]
                + keep_view(s1.drop_first(), q, w)) + keep_view(s2, q, w));
        }
    }
}

proof fn lemma_keep_view_single(x: QueuedView, q: (u64, u64), w: (u64, u64))
    ensures
        keep_view(seq![x], q, w) == (if x.0 == q || x.0 == w {
            Seq::<QueuedView>::empty()
        } else {
            seq![x]
        }),
{
    let s = seq![x];
    assert(s[0] == x);
    assert(s.drop_first() =~= Seq::<QueuedView>::empty());
    assert(keep_view(s.drop_first(), q, w) == s.drop_first());
    assert(seq![x] + Seq::<QueuedView>::empty() =~= seq![x]);
}

proof fn lemma_keep_view_dup(r: Seq<QueuedView>, j: int, x: QueuedView, i: int, q: (u64, u64), w: (u64, u64))
    requires
        0 <= i < j <= r.len(),
        r[i] == x,
    ensures
        (x.0 == q || x.0 == w) ==> keep_view(r.insert(j, x), q, w) == keep_view(r, q, w),
        !(x.0 == q || x.0 == w) ==> dup_at(
            keep_view(r, q, w),
            keep_view(r.insert(j, x), q, w),
            keep_view(r.take(j), q, w).len() as int,
            x,
        ),
{
    let t = r.take(j);
    let u = r.skip(j);
    assert(r =~= t + u);
    assert(r.insert(j, x) =~= t + (seq![x] + u));
    lemma_keep_view_concat(t, u, q, w);
    lemma_keep_view_concat(t, seq![x] + u, q, w);
    lemma_keep_view_concat(seq![x], u, q, w);
    assert(seq![x].drop_first() =~= Seq::<QueuedView>::empty());
    if x.0 == q || x.0 == w {
        lemma_keep_view_single(x, q, w);
        assert(keep_view(seq![x], q, w) + keep_view(u, q, w) =~= keep_view(u, q, w));
    } else {
        lemma_keep_view_single(x, q, w);
        let kt = keep_view(t, q, w);
        assert(kt + (seq![x] + keep_view(u, q, w)) =~= (kt + keep_view(u, q, w)).insert(kt.len() as int, x));
        let t1 = t.take(i);
        let t2 = t.skip(i);
        assert(t =~= t1 + t2);
        lemma_keep_view_concat(t1, t2, q, w);
        assert(t2 =~= seq![x] + t2.drop_first());
        lemma_keep_view_concat(seq![x], t2.drop_first(), q, w);
        let wi = keep_view(t1, q, w).len() as int;
        assert(kt[wi] == x);
        assert((kt + keep_view(u, q, w))[wi] == x);
    }
}

proof fn lemma_expand_dup<H: EdgeDistanceHeuristic>(
    h: &H,
    lhs: &CodeMetadata,
    rhs: &CodeMetadata,
    sa: RunState,
    sb: RunState,
    j: int,
    x: QueuedView,
    cands: Seq<(u64, u64)>,
    k: nat,
)
    requires
        dup_at(sa.0, sb.0, j, x),
        sa.1 == sb.1,
        sa.2 == sb.2,
        sa.3 == sb.3,
    ensures
        dup_state(expand(h, lhs, rhs, sa, cands, k), expand(h, lhs, rhs, sb, cands, k)),
    decreases cands.len() - k,
{
    if k >= cands.len() {
        assert(dup_at(sa.0, sb.0, j, x));
    } else {
        let q = cands[k as int];
        if !sa.3.contains(q) && !(exists|b: u64| sa.1.contains((q.0, b))) && !sa.2.contains(q.1) {
            let y = star_item(h, lhs, rhs, q);
            let na = (sa.0.push(y), sa.1, sa.2, sa.3.insert(q));
            let nb = (sb.0.push(y), sb.1, sb.2, sb.3.insert(q));
            assert(nb.0 =~= na.0.insert(j, x));
            let i = choose|i: int| 0 <= i < j && sa.0[i] == x;
            assert(na.0[i] == x);
            lemma_expand_dup(h, lhs, rhs, na, nb, j, x, cands, k + 1);
        } else {
            lemma_expand_dup(h, lhs, rhs, sa, sb, j, x, cands, k + 1);
        }
    }
}

proof fn lemma_step_dup<H: EdgeDistanceHeuristic>(
    h: &H,
    lhs: &CodeMetadata,
    rhs: &CodeMetadata,
    sa: RunState,
    sb: RunState,
)
    requires
        dup_state(sa, sb),
    ensures
        step(h, lhs, rhs, sa) == step(h, lhs, rhs, sb) || dup_state(
            step(h, lhs, rhs, sa),
            step(h, lhs, rhs, sb),
        ),
{
    let (j, x) = choose|j: int, x: QueuedView| dup_at(sa.0, sb.0, j, x);
    let i = choose|i: int| 0 <= i < j && sa.0[i] == x;
    lemma_first_min_dup(sa.0, sb.0, j, x, i);
    let ia = first_min(sa.0);
    let ib = first_min(sb.0);
    let it = sa.0[ia];
    assert(sb.0[ib] == it);
    let q = it.0;
    let ra = sa.0.remove(ia);
    let rb = sb.0.remove(ib);
    let drop = conflicts(sa.1, sa.2, q);
    let w = if drop {
        q
    } else {
        swap(q)
    };
    if x.0 == q || x.0 == w {
        if ia < j {
            assert(rb =~= ra.insert(j - 1, x));
            if i == ia {
                assert(keep_view(ra.insert(j - 1, x), q, w) =~= keep_view(ra, q, w)) by {
                    let t = ra.take(j - 1);
                    let u = ra.skip(j - 1);
                    assert(ra =~= t + u);
                    assert(ra.insert(j - 1, x) =~= t + (seq![x] + u));
                    lemma_keep_view_concat(t, u, q, w);
                    lemma_keep_view_concat(t, seq![x] + u, q, w);
                    lemma_keep_view_concat(seq![x], u, q, w);
                    assert(seq![x].drop_first() =~= Seq::<QueuedView>::empty());
                    lemma_keep_view_single(x, q, w);
                    assert(keep_view(seq![x], q, w) + keep_view(u, q, w) =~= keep_view(u, q, w));
                }
            } else {
                let i2 = if i < ia {
                    i
                } else {
                    i - 1
                };
                assert(ra[i2] == x);
                lemma_keep_view_dup(ra, j - 1, x, i2, q, w);
            }
        } else {
            assert(rb =~= ra.insert(j, x));
            assert(ra[i] == x);
            lemma_keep_view_dup(ra, j, x, i, q, w);
        }
        assert(keep_view(rb, q, w) == keep_view(ra, q, w));
    } else {
        let (jr, ir) = if ia < j {
            (j - 1, if i < ia {
                i
            } else {
                i - 1
            })
        } else {
            (j, i)
        };
        assert(i != ia);
        assert(rb =~= ra.insert(jr, x));
        assert(ra[ir] == x);
        lemma_keep_view_dup(ra, jr, x, ir, q, w);
        let jj = keep_view(ra.take(jr), q, w).len() as int;
        if drop {
            assert(dup_at(keep_view(ra, q, w), keep_view(rb, q, w), jj, x));
        } else {
            let ca = (keep_view(ra, q, w), sa.1.insert(q), sa.2.insert(q.1), sa.3);
            let cb = (keep_view(rb, q, w), sb.1.insert(q), sb.2.insert(q.1), sb.3);
            lemma_expand_dup(h, lhs, rhs, ca, cb, jj, x, it.2, 0);
        }
    }
}

proof fn lemma_run_dup<H: EdgeDistanceHeuristic>(
    h: &H,
    lhs: &CodeMetadata,
    rhs: &CodeMetadata,
    sa: RunState,
    sb: RunState,
    n: nat,
)
    requires
        dup_state(sa, sb),
    ensures
        run(h, lhs, rhs, sa, n) == run(h, lhs, rhs, sb, n),
    decreases n,
{
    let (j, x) = choose|j: int, x: QueuedView| dup_at(sa.0, sb.0, j, x);
    let i = choose|i: int| 0 <= i < j && sa.0[i] == x;
    assert(sa.0.len() > 0 && sb.0.len() > 0);
    if n > 0 {
        lemma_step_dup(h, lhs, rhs, sa, sb);
        if step(h, lhs, rhs, sa) != step(h, lhs, rhs, sb) {
            lemma_run_dup(h, lhs, rhs, step(h, lhs, rhs, sa), step(h, lhs, rhs, sb), (n - 1) as nat);
        }
    }
}

proof fn lemma_seed_from<H: EdgeDistanceHeuristic>(
    h: &H,
    lhs: &CodeMetadata,
    rhs: &CodeMetadata,
    st: RunState,
    seeds: Seq<(u64, u64)>,
    k: nat,
)
    requires
        k <= seeds.len(),
    ensures
        seed_from(h, lhs, rhs, st, seeds, k) == (
            st.0 + seeds.skip(k as int).map_values(|q: (u64, u64)| star_item(h, lhs, rhs, q)),
            st.1,
            st.2,
            st.3.union(seeds.skip(k as int).to_set()),
        ),
    decreases seeds.len() - k,
{
    let g = |q: (u64, u64)| star_item(h, lhs, rhs, q);
    if k == seeds.len() {
        assert(seeds.skip(k as int).map_values(g) =~= Seq::<QueuedView>::empty());
        assert(st.0 + seeds.skip(k as int).map_values(g) =~= st.0);
        assert(st.3.union(seeds.skip(k as int).to_set()) =~= st.3);
    } else {
        let next = (st.0.push(g(seeds[k as int])), st.1, st.2, st.3.insert(seeds[k as int]));
        lemma_seed_from(h, lhs, rhs, next, seeds, k + 1);
        assert(next.0 + seeds.skip(k + 1 as int).map_values(g) =~= st.0 + seeds.skip(k as int).map_values(
            g,
        ));
        assert forall|y: (u64, u64)|
            next.3.union(seeds.skip(k + 1 as int).to_set()).contains(y) == st.3.union(
                seeds.skip(k as int).to_set(),
            ).contains(y) by {
            if seeds.skip(k + 1 as int).contains(y) {
                let t = seeds.skip(k + 1 as int);
                let m = choose|m: int| 0 <= m < t.len() && t[m] == y;
                assert(seeds.skip(k as int)[m + 1] == y);
            }
            if y == seeds[k as int] {
                assert(seeds.skip(k as int)[0] == y);
            }
            if seeds.skip(k as int).contains(y) {
                let t = seeds.skip(k as int);
                let m = choose|m: int| 0 <= m < t.len() && t[m] == y;
                if m > 0 {
                    assert(seeds.skip(k + 1 as int)[m - 1] == y);
                }
            }
        }
        assert(next.3.union(seeds.skip(k + 1 as int).to_set()) =~= st.3.union(seeds.skip(k as int).to_set()));
    }
}

/// Submitting a seed a second time, anywhere after its first submission, leaves the committed
/// pairs unchanged: the run with the repeated seed commits what the run without it commits.
pub proof fn lemma_duplicate_seed<H: EdgeDistanceHeuristic>(
    h: &H,
    lhs: &CodeMetadata,
    rhs: &CodeMetadata,
    seeds: Seq<(u64, u64)>,
    i: int,
    j: int,
)
    requires
        0 <= i < j < seeds.len(),
        seeds[i] == seeds[j],
    ensures
        matching_result(h, lhs, rhs, seeds) == matching_result(h, lhs, rhs, seeds.remove(j)),
{
    let g = |q: (u64, u64)| star_item(h, lhs, rhs, q);
    let e: RunState = (Seq::empty(), Set::empty(), Set::empty(), Set::empty());
    let s1 = seeds.remove(j);
    lemma_seed_from(h, lhs, rhs, e, seeds, 0);
    lemma_seed_from(h, lhs, rhs, e, s1, 0);
    assert(seeds.skip(0) =~= seeds);
    assert(s1.skip(0) =~= s1);
    let sb = initial_state(h, lhs, rhs, seeds);
    let sa = initial_state(h, lhs, rhs, s1);
    assert(sb.0 =~= seeds.map_values(g));
    assert(sa.0 =~= s1.map_values(g));
    assert(seeds.to_set() =~= s1.to_set()) by {
        assert forall|y: (u64, u64)| seeds.contains(y) implies s1.contains(y) by {
            let m = choose|m: int| 0 <= m < seeds.len() && seeds[m] == y;
            if m < j {
                assert(s1[m] == y);
            } else if m == j {
                assert(s1[i] == y);
            } else {
                assert(s1[m - 1] == y);
            }
        }
        assert forall|y: (u64, u64)| s1.contains(y) implies seeds.contains(y) by {
            let m = choose|m: int| 0 <= m < s1.len() && s1[m] == y;
            if m < j {
                assert(seeds[m] == y);
            } else {
                assert(seeds[m + 1] == y);
            }
        }
    }
    assert(sa.3 =~= sb.3);
    let x = g(seeds[j]);
    assert(sb.0 =~= sa.0.insert(j, x));
    assert(sa.0[i] == x);
    assert(dup_at(sa.0, sb.0, j, x));
    assert(dup_state(sa, sb));
    lemma_run_dup(h, lhs, rhs, sa, sb, step_bound(lhs, rhs, seeds));
}

/// Any two mappings that are strictly ascending and hold the same pairs list them alike.
pub proof fn lemma_sorted_unique(a: Seq<(u64, u64)>, b: Seq<(u64, u64)>)
    requires
        forall|i: int, j: int| 0 <= i < j < a.len() ==> pair_lt(a[i], a[j]),
        forall|i: int, j: int| 0 <= i < j < b.len() ==> pair_lt(b[i], b[j]),
        a.to_set() == b.to_set(),
    ensures
        a == b,
    decreases a.len(),
{
    if a.len() == 0 {
        if b.len() > 0 {
            assert(b.to_set().contains(b[0]));
        }
        assert(a =~= b);
    } else if b.len() == 0 {
        assert(a.to_set().contains(a[0]));
    } else {
        assert(a.to_set().contains(a[0]) && b.to_set().contains(b[0]));
        let i = choose|i: int| 0 <= i < b.len() && b[i] == a[0];
        let j = choose|j: int| 0 <= j < a.len() && a[j] == b[0];
        if i > 0 {
            assert(pair_lt(b[0], b[i]));
            if j > 0 {
                assert(pair_lt(a[0], a[j]));
            }
        }
        if j > 0 && i == 0 {
            assert(pair_lt(a[0], a[j]));
        }
        assert(a[0] == b[0]);
        let a1 = a.drop_first();
        let b1 = b.drop_first();
        assert forall|x: (u64, u64)| a1.to_set().contains(x) == b1.to_set().contains(x) by {
            if a1.contains(x) {
                let k = choose|k: int| 0 <= k < a1.len() && a1[k] == x;
                assert(pair_lt(a[0], a[k + 1]));
                assert(b.to_set().contains(x));
                let m = choose|m: int| 0 <= m < b.len() && b[m] == x;
                assert(m != 0);
                assert(b1[m - 1] == x);
            }
            if b1.contains(x) {
                let k = choose|k: int| 0 <= k < b1.len() && b1[k] == x;
                assert(pair_lt(b[0], b[k + 1]));
                assert(a.to_set().contains(x));
                let m = choose|m: int| 0 <= m < a.len() && a[m] == x;
                assert(m != 0);
                assert(a1[m - 1] == x);
            }
        }
        assert(a1.to_set() =~= b1.to_set());
        lemma_sorted_unique(a1, b1);
        assert(a =~= seq![a[0]] + a1);
        assert(b =~= seq![b[0]] + b1);
    }
}

/// Two runs of matching over the same inputs with the same heuristic commit the same pairs,
/// list them in the same order, and so give the same CSV text.
pub proof fn lemma_runs_agree<H: EdgeDistanceHeuristic>(
    h: &H,
    lhs: &CodeMetadata,
    rhs: &CodeMetadata,
    seeds: Seq<(u64, u64)>,
    m1: &Mapping,
    m2: &Mapping,
    base_l: u64,
    base_r: u64,
)
    requires
        m1.wf(),
        m2.wf(),
        m1@ == matching_result(h, lhs, rhs, seeds),
        m2@ == matching_result(h, lhs, rhs, seeds),
    ensures
        m1.seq() == m2.seq(),
        csv_lines(m1.seq(), base_l, base_r) == csv_lines(m2.seq(), base_l, base_r),
{
    lemma_sorted_unique(m1.set@, m2.set@);
}

/// Performs call graph matching from the given seed pairs with the given heuristic: best-first
/// propagation that repeatedly commits the pending pair of least star distance and queues the
/// candidates of its star match that are new and whose addresses are both still free.
///
/// The result is exactly `matching_result`: among pending pairs of equal distance, the one
/// queued first is taken first, and a pair whose left address already has a partner or whose
/// right address is already taken is dropped. The result is one-to-one. Every seed ends up
/// committed, or its swapped pair does, or a committed pair shares an address with it; every
/// other committed pair joins a call target of the left graph with a call target of the
/// right graph, and is a candidate of the star match of another committed pair.
pub fn belief_prop<H: EdgeDistanceHeuristic>(
    lhs: &CodeMetadata,
    rhs: &CodeMetadata,
    seeds: &[(u64, u64)],
    heuristics: &H,
) -> (r: Mapping)
    requires
        lhs.wf(),
        rhs.wf(),
        lhs.covers_targets(),
        rhs.covers_targets(),
        degrees_fit(lhs, rhs),
    ensures
        r.wf(),
        forall|p: (u64, u64), q: (u64, u64)|
            #[trigger] r@.contains(p) && #[trigger] r@.contains(q) && (p.0 == q.0 || p.1 == q.1)
                ==> p == q,
        forall|k: int|
            0 <= k < seeds@.len() ==> r@.contains(#[trigger] seeds@[k]) || r@.contains(
                swap(seeds@[k]),
            ) || exists|p: (u64, u64)|
                r@.contains(p) && (p.0 == seeds@[k].0 || p.1 == seeds@[k].1),
        forall|p: (u64, u64)|
            #[trigger] r@.contains(p) ==> seeds@.contains(p) || (is_target(
                lhs.graph_spec()@,
                p.0,
            ) && is_target(rhs.graph_spec()@, p.1)),
        forall|p: (u64, u64)|
            #[trigger] r@.contains(p) ==> seeds@.contains(p) || proposed(heuristics, lhs, rhs, r@, p),
        r@ == matching_result(heuristics, lhs, rhs, seeds@),
{
    let ghost gl = lhs.graph_spec()@;
    let ghost gr = rhs.graph_spec()@;
    let ghost universe = pairs_of(lhs.graph_spec().targets(), rhs.graph_spec().targets());
    proof {
        lhs.graph_spec().lemma_targets(0);
        rhs.graph_spec().lemma_targets(0);
        lemma_pairs_finite(lhs.graph_spec().targets(), rhs.graph_spec().targets());
    }
    let ctx = MatchContext::new(lhs, rhs);
    let mut pending: Vec<PendingItem> = Vec::new();
    let mut matching = Mapping::new();
    let mut matching_rhs = AddrSet::new();
    let mut computed = PairSet::new();
    let mut s: usize = 0;
    proof {
        assert(view_queue(pending@) =~= Seq::<QueuedView>::empty());
    }
    while s < seeds.len()
        invariant
            s <= seeds@.len(),
            matching.wf(),
            matching@ == Set::<(u64, u64)>::empty(),
            addr_set_contents(matching_rhs) == Set::<u64>::empty(),
            pending@.len() == s,
            view_queue(pending@).map_values(|it: QueuedView| it.0) == seeds@.take(s as int),
            seed_from(
                heuristics,
                lhs,
                rhs,
                exec_state(pending@, matching@, addr_set_contents(matching_rhs), pair_set_contents(computed)),
                seeds@,
                s as nat,
            ) == initial_state(heuristics, lhs, rhs, seeds@),
            ctx.lhs_sizes() == lhs.sizes(),
            ctx.rhs_sizes() == rhs.sizes(),
            lhs.wf(),
            rhs.wf(),
            lhs.covers_targets(),
            rhs.covers_targets(),
            degrees_fit(lhs, rhs),
            gl == lhs.graph_spec()@,
            gr == rhs.graph_spec()@,
            forall|k: int| 0 <= k < s ==> pair_set_contents(computed).contains(#[trigger] seeds@[k]),
            forall|q: (u64, u64)| #[trigger]
                pair_set_contents(computed).contains(q) ==> seeds@.contains(q) && queued(
                    pending@,
                    q,
                ),
            forall|k: int|
                0 <= k < pending@.len() ==> pair_set_contents(computed).contains(
                    (#[trigger] pending@[k]).pair,
                ),
            forall|k: int, m: int|
                0 <= k < pending@.len() && 0 <= m < pending@[k].mappings@.len() ==> is_target(
                    gl,
                    (#[trigger] pending@[k].mappings@[m]).0,
                ) && is_target(gr, pending@[k].mappings@[m].1),
            forall|k: int|
                0 <= k < pending@.len() ==> (#[trigger] pending@[k]).mappings@ == candidates(
                    heuristics,
                    lhs,
                    rhs,
                    pending@[k].pair,
                ),
        decreases seeds@.len() - s,
    {
        let pair = seeds[s];
        let star0 = lhs.call_graph().get_star(pair.0);
        let star1 = rhs.call_graph().get_star(pair.1);
        proof {
            lemma_star_inputs(lhs, rhs, pair.0, pair.1);
        }
        let (dist, map) = match_star(star0, star1, heuristics, ctx);
        proof {
            let labels = heuristics.labels_spec(
                out_edges(gl, pair.0),
                out_edges(gr, pair.1),
                lhs.sizes(),
                rhs.sizes(),
            );
            lemma_candidates(gl, gr, pair.0, pair.1, labels.0, labels.1);
        }
        let ghost before = pending@;
        computed.insert(pair);
        pending.push(PendingItem::new(pair, dist, map));
        proof {
            assert(pending@[before.len() as int].pair == pair);
            assert forall|q: (u64, u64)| #[trigger]
                pair_set_contents(computed).contains(q) implies seeds@.contains(q) && queued(
                pending@,
                q,
            ) by {
                if q == pair {
                    assert(seeds@[s as int] == q);
                } else {
                    let k = choose|k: int| 0 <= k < before.len() && (#[trigger] before[k]).pair == q;
                    assert(pending@[k].pair == q);
                }
            }
            assert forall|k: int, m: int|
                0 <= k < pending@.len() && 0 <= m < pending@[k].mappings@.len() implies is_target(
                gl,
                (#[trigger] pending@[k].mappings@[m]).0,
            ) && is_target(gr, pending@[k].mappings@[m].1) by {
                if k < before.len() {
                    assert(pending@[k] == before[k]);
                }
            }
            assert forall|k: int| 0 <= k < pending@.len() implies (#[trigger] pending@[k]).mappings@
                == candidates(heuristics, lhs, rhs, pending@[k].pair) by {
                if k < before.len() {
                    assert(pending@[k] == before[k]);
                }
            }
            assert(item_view(pending@[before.len() as int]) == star_item(heuristics, lhs, rhs, pair));
            assert(view_queue(pending@) =~= view_queue(before).push(star_item(heuristics, lhs, rhs, pair)));
            assert(view_queue(pending@).map_values(|it: QueuedView| it.0) =~= seeds@.take(s + 1));
        }
        s += 1;
    }
    proof {
        assert(seed_from(
            heuristics,
            lhs,
            rhs,
            exec_state(pending@, matching@, addr_set_contents(matching_rhs), pair_set_contents(computed)),
            seeds@,
            s as nat,
        ) == exec_state(pending@, matching@, addr_set_contents(matching_rhs), pair_set_contents(computed)));
        vstd::set_lib::lemma_len_subset(universe.difference(pair_set_contents(computed)), universe);
        assert(seeds@.take(s as int) =~= seeds@);
    }
    let ghost mut fuel: nat = step_bound(lhs, rhs, seeds@);
    loop
        invariant
            ctx.lhs_sizes() == lhs.sizes(),
            ctx.rhs_sizes() == rhs.sizes(),
            lhs.wf(),
            rhs.wf(),
            lhs.covers_targets(),
            rhs.covers_targets(),
            degrees_fit(lhs, rhs),
            gl == lhs.graph_spec()@,
            gr == rhs.graph_spec()@,
            universe.finite(),
            universe == pairs_of(lhs.graph_spec().targets(), rhs.graph_spec().targets()),
            matching.wf(),
            run(
                heuristics,
                lhs,
                rhs,
                exec_state(pending@, matching@, addr_set_contents(matching_rhs), pair_set_contents(computed)),
                fuel,
            ) == matching_result(heuristics, lhs, rhs, seeds@),
            fuel >= queued_pairs(view_queue(pending@)).len() + universe.difference(
                pair_set_contents(computed),
            ).len(),
            forall|k: int| 0 <= k < seeds@.len() ==> pair_set_contents(computed).contains(#[trigger] seeds@[k]),
            forall|k: int|
                0 <= k < pending@.len() ==> pair_set_contents(computed).contains(
                    (#[trigger] pending@[k]).pair,
                ),
            forall|k: int, m: int|
                0 <= k < pending@.len() && 0 <= m < pending@[k].mappings@.len() ==> is_target(
                    gl,
                    (#[trigger] pending@[k].mappings@[m]).0,
                ) && is_target(gr, pending@[k].mappings@[m].1),
            forall|k: int|
                0 <= k < pending@.len() ==> (#[trigger] pending@[k]).mappings@ == candidates(
                    heuristics,
                    lhs,
                    rhs,
                    pending@[k].pair,
                ),
            forall|q: (u64, u64)| #[trigger]
                pair_set_contents(computed).contains(q) ==> matching@.contains(q)
                    || matching@.contains(swap(q)) || queued(pending@, q) || conflicts(
                    matching@,
                    addr_set_contents(matching_rhs),
                    q,
                ),
            forall|p: (u64, u64), q: (u64, u64)|
                #[trigger] matching@.contains(p) && #[trigger] matching@.contains(q) && (p.0 == q.0
                    || p.1 == q.1) ==> p == q,
            forall|b: u64| #[trigger]
                addr_set_contents(matching_rhs).contains(b) <==> exists|a: u64| matching@.contains((a, b)),
            forall|q: (u64, u64)| #[trigger]
                matching@.contains(q) ==> pair_set_contents(computed).contains(q),
            forall|q: (u64, u64)| #[trigger]
                pair_set_contents(computed).contains(q) ==> seeds@.contains(q) || (is_target(
                    gl,
                    q.0,
                ) && is_target(gr, q.1)),
            forall|q: (u64, u64)| #[trigger]
                pair_set_contents(computed).contains(q) ==> seeds@.contains(q) || proposed(
                    heuristics,
                    lhs,
                    rhs,
                    matching@,
                    q,
                ),
        ensures
            matching.wf(),
            pending@.len() == 0,
            matching@ == matching_result(heuristics, lhs, rhs, seeds@),
            forall|k: int| 0 <= k < seeds@.len() ==> pair_set_contents(computed).contains(#[trigger] seeds@[k]),
            forall|q: (u64, u64)| #[trigger]
                pair_set_contents(computed).contains(q) ==> matching@.contains(q)
                    || matching@.contains(swap(q)) || queued(pending@, q) || conflicts(
                    matching@,
                    addr_set_contents(matching_rhs),
                    q,
                ),
            forall|p: (u64, u64), q: (u64, u64)|
                #[trigger] matching@.contains(p) && #[trigger] matching@.contains(q) && (p.0 == q.0
                    || p.1 == q.1) ==> p == q,
            forall|b: u64| #[trigger]
                addr_set_contents(matching_rhs).contains(b) <==> exists|a: u64| matching@.contains((a, b)),
            forall|q: (u64, u64)| #[trigger]
                matching@.contains(q) ==> pair_set_contents(computed).contains(q),
            forall|q: (u64, u64)| #[trigger]
                pair_set_contents(computed).contains(q) ==> seeds@.contains(q) || (is_target(
                    gl,
                    q.0,
                ) && is_target(gr, q.1)),
            forall|q: (u64, u64)| #[trigger]
                pair_set_contents(computed).contains(q) ==> seeds@.contains(q) || proposed(
                    heuristics,
                    lhs,
                    rhs,
                    matching@,
                    q,
                ),
        decreases universe.difference(pair_set_contents(computed)).len(), pending@.len(),
    {
        if pending.len() == 0 {
            proof {
                assert(view_queue(pending@).len() == 0);
            }
            break;
        }
        let ghost queue0 = pending@;
        let ghost st0 = exec_state(
            pending@,
            matching@,
            addr_set_contents(matching_rhs),
            pair_set_contents(computed),
        );
        let idx = min_index(&pending);
        proof {
            let v = view_queue(queue0);
            assert forall|k: int| 0 <= k < v.len() implies v[idx as int].1 <= #[trigger] v[k].1 by {
                assert(queue0[idx as int].dist <= queue0[k].dist);
            }
            assert forall|k: int| 0 <= k < idx implies v[idx as int].1 < #[trigger] v[k].1 by {
                assert(queue0[idx as int].dist < queue0[k].dist);
            }
            lemma_first_min(v, idx as int);
        }
        let item = pending.remove(idx);
        let ghost queue1 = pending@;
        let ghost matching0 = matching@;
        let ghost r0 = addr_set_contents(matching_rhs);
        let drop = matching.has_first(item.pair.0) || matching_rhs.contains(item.pair.1);
        let w = if drop {
            item.pair
        } else {
            (item.pair.1, item.pair.0)
        };
        if !drop {
            matching.insert(item.pair);
            matching_rhs.insert(item.pair.1);
            proof {
                assert forall|p: (u64, u64), q: (u64, u64)|
                    #[trigger] matching@.contains(p) && #[trigger] matching@.contains(q) && (p.0
                        == q.0 || p.1 == q.1) implies p == q by {
                    if p != q && (p == item.pair || q == item.pair) {
                        let o = if p == item.pair {
                            q
                        } else {
                            p
                        };
                        assert(matching0.contains(o));
                        if o.0 == item.pair.0 {
                            assert(exists|b: u64| matching0.contains((item.pair.0, b)));
                        } else {
                            assert(r0.contains(o.1));
                        }
                    }
                }
                assert forall|b: u64| #[trigger]
                    addr_set_contents(matching_rhs).contains(b) <==> exists|a: u64|
                        matching@.contains((a, b)) by {
                    if b == item.pair.1 {
                        assert(matching@.contains((item.pair.0, b)));
                    }
                    if exists|a: u64| matching@.contains((a, b)) {
                        let a = choose|a: u64| matching@.contains((a, b));
                        if (a, b) != item.pair {
                            assert(matching0.contains((a, b)));
                        }
                    }
                    if r0.contains(b) {
                        let a = choose|a: u64| matching0.contains((a, b));
                        assert(matching@.contains((a, b)));
                    }
                }
            }
        }
        purge(&mut pending, item.pair, w);
        proof {
            lemma_keep(queue1, item.pair, w);
            assert(item == queue0[idx as int]);
            assert forall|k: int| 0 <= k < queue1.len() implies #[trigger] queue1[k] == queue0[if k
                < idx {
                k
            } else {
                k + 1
            }] by {}
            assert forall|k: int|
                0 <= k < pending@.len() implies pair_set_contents(computed).contains(
                (#[trigger] pending@[k]).pair,
            ) by {
                let x = pending@[k];
                lemma_keep_sub(queue1, item.pair, k, w);
                let j = choose|j: int| 0 <= j < queue1.len() && queue1[j] == x;
                assert(queue1[j] == queue0[if j < idx {
                    j
                } else {
                    j + 1
                }]);
            }
            assert forall|k: int, m: int|
                0 <= k < pending@.len() && 0 <= m < pending@[k].mappings@.len() implies is_target(
                gl,
                (#[trigger] pending@[k].mappings@[m]).0,
            ) && is_target(gr, pending@[k].mappings@[m].1) by {
                let x = pending@[k];
                lemma_keep_sub(queue1, item.pair, k, w);
                let j = choose|j: int| 0 <= j < queue1.len() && queue1[j] == x;
                let j0 = if j < idx {
                    j
                } else {
                    j + 1
                };
                assert(queue1[j] == queue0[j0]);
                assert(queue0[j0].mappings@[m] == x.mappings@[m]);
            }
            assert forall|k: int| 0 <= k < pending@.len() implies (#[trigger] pending@[k]).mappings@
                == candidates(heuristics, lhs, rhs, pending@[k].pair) by {
                let x = pending@[k];
                lemma_keep_sub(queue1, item.pair, k, w);
                let j = choose|j: int| 0 <= j < queue1.len() && queue1[j] == x;
                let j0 = if j < idx {
                    j
                } else {
                    j + 1
                };
                assert(queue1[j] == queue0[j0]);
            }
            assert forall|q: (u64, u64)| #[trigger]
                pair_set_contents(computed).contains(q) implies seeds@.contains(q) || proposed(
                heuristics,
                lhs,
                rhs,
                matching@,
                q,
            ) by {
                if !seeds@.contains(q) {
                    assert(proposed(heuristics, lhs, rhs, matching0, q));
                    let p = choose|p: (u64, u64)|
                        matching0.contains(p) && #[trigger] candidates(heuristics, lhs, rhs, p).contains(q);
                    assert(matching@.contains(p));
                }
            }
            if !drop {
                assert(matching@.contains(item.pair));
            }
            assert(item.mappings@ == candidates(heuristics, lhs, rhs, item.pair));
            lemma_keep_view(queue1, item.pair, w);
            assert(view_queue(queue1) =~= view_queue(queue0).remove(idx as int));
            assert(view_queue(queue0)[idx as int] == item_view(item));
            assert(drop == conflicts(matching0, r0, item.pair));
            if drop {
                assert(step(heuristics, lhs, rhs, st0) == exec_state(
                    pending@,
                    matching@,
                    addr_set_contents(matching_rhs),
                    pair_set_contents(computed),
                ));
            } else {
                assert(step(heuristics, lhs, rhs, st0) == expand(
                    heuristics,
                    lhs,
                    rhs,
                    exec_state(pending@, matching@, addr_set_contents(matching_rhs), pair_set_contents(computed)),
                    item.mappings@,
                    0,
                ));
            }
            assert forall|q: (u64, u64)| #[trigger]
                pair_set_contents(computed).contains(q) implies matching@.contains(q)
                || matching@.contains(swap(q)) || queued(pending@, q) || conflicts(
                    matching@,
                    addr_set_contents(matching_rhs),
                    q,
                ) by {
                if conflicts(matching0, r0, q) {
                    if exists|b: u64| matching0.contains((q.0, b)) {
                        let b = choose|b: u64| matching0.contains((q.0, b));
                        assert(matching@.contains((q.0, b)));
                    }
                } else if !(matching@.contains(q) || matching@.contains(swap(q))) && queued(queue0, q) {
                    let k = choose|k: int| 0 <= k < queue0.len() && (#[trigger] queue0[k]).pair == q;
                    if k == idx {
                    } else {
                        let k1 = if k < idx {
                            k
                        } else {
                            k - 1
                        };
                        assert(queue1[k1] == queue0[k]);
                        if purged(queue1[k1], item.pair, w) {
                            if q == swap(item.pair) {
                                assert(swap(q) == item.pair);
                            }
                        } else {
                            assert(keep(queue1, item.pair, w).contains(queue1[k1]));
                            let j = choose|j: int|
                                0 <= j < pending@.len() && pending@[j] == queue1[k1];
                            assert(pending@[j].pair == q);
                        }
                    }
                }
            }
        }
        let ghost queue2 = pending@;
        proof {
            let f = |it: QueuedView| it.0;
            let q0 = queued_pairs(view_queue(queue0));
            let q2 = queued_pairs(view_queue(queue2));
            vstd::seq_lib::seq_to_set_is_finite(view_queue(queue0).map_values(f));
            vstd::seq_lib::seq_to_set_is_finite(view_queue(queue2).map_values(f));
            assert(view_queue(queue0).map_values(f)[idx as int] == item.pair);
            assert(q0.contains(item.pair));
            assert forall|x: (u64, u64)| q2.contains(x) implies q0.remove(item.pair).contains(x) by {
                let k = choose|k: int|
                    0 <= k < view_queue(queue2).map_values(f).len() && view_queue(queue2).map_values(
                        f,
                    )[k] == x;
                assert(queue2[k].pair == x);
                lemma_keep_sub(queue1, item.pair, k, w);
                let j = choose|j: int| 0 <= j < queue1.len() && queue1[j] == queue2[k];
                let j0 = if j < idx {
                    j
                } else {
                    j + 1
                };
                assert(queue1[j] == queue0[j0]);
                assert(view_queue(queue0).map_values(f)[j0] == x);
            }
            vstd::set_lib::lemma_len_subset(q2, q0.remove(item.pair));
        }
        let ghost computed0 = pair_set_contents(computed);
        let mut k: usize = 0;
        while !drop && k < item.mappings.len()
            invariant
                ctx.lhs_sizes() == lhs.sizes(),
                ctx.rhs_sizes() == rhs.sizes(),
                lhs.wf(),
                rhs.wf(),
                lhs.covers_targets(),
                rhs.covers_targets(),
                degrees_fit(lhs, rhs),
                gl == lhs.graph_spec()@,
                gr == rhs.graph_spec()@,
                universe.finite(),
                universe == pairs_of(lhs.graph_spec().targets(), rhs.graph_spec().targets()),
                matching.wf(),
                k <= item.mappings@.len(),
                forall|m: int|
                    0 <= m < item.mappings@.len() ==> is_target(gl, (#[trigger] item.mappings@[m]).0)
                        && is_target(gr, item.mappings@[m].1),
                computed0.subset_of(pair_set_contents(computed)),
                universe.difference(pair_set_contents(computed)).len() + (pending@.len()
                    - queue2.len()) == universe.difference(computed0).len(),
                pending@.len() >= queue2.len(),
                forall|k: int| 0 <= k < seeds@.len() ==> pair_set_contents(computed).contains(#[trigger] seeds@[k]),
                forall|k: int|
                    0 <= k < pending@.len() ==> pair_set_contents(computed).contains(
                        (#[trigger] pending@[k]).pair,
                    ),
                forall|k: int, m: int|
                    0 <= k < pending@.len() && 0 <= m < pending@[k].mappings@.len() ==> is_target(
                        gl,
                        (#[trigger] pending@[k].mappings@[m]).0,
                    ) && is_target(gr, pending@[k].mappings@[m].1),
                forall|k: int|
                    0 <= k < pending@.len() ==> (#[trigger] pending@[k]).mappings@ == candidates(
                        heuristics,
                        lhs,
                        rhs,
                        pending@[k].pair,
                    ),
                forall|q: (u64, u64)| #[trigger]
                    pair_set_contents(computed).contains(q) ==> seeds@.contains(q) || proposed(
                        heuristics,
                        lhs,
                        rhs,
                        matching@,
                        q,
                    ),
                !drop ==> matching@.contains(item.pair),
                drop ==> k == 0 && pending@ == queue2 && pair_set_contents(computed) == computed0,
                drop ==> step(heuristics, lhs, rhs, st0) == exec_state(
                    queue2,
                    matching@,
                    addr_set_contents(matching_rhs),
                    computed0,
                ),
                item.mappings@ == candidates(heuristics, lhs, rhs, item.pair),
                queued_pairs(view_queue(pending@)).finite(),
                queued_pairs(view_queue(pending@)).len() <= queued_pairs(view_queue(queue2)).len() + (
                pending@.len() - queue2.len()),
                !drop ==> expand(
                    heuristics,
                    lhs,
                    rhs,
                    exec_state(pending@, matching@, addr_set_contents(matching_rhs), pair_set_contents(computed)),
                    item.mappings@,
                    k as nat,
                ) == step(heuristics, lhs, rhs, st0),
                forall|q: (u64, u64)| #[trigger]
                    pair_set_contents(computed).contains(q) ==> matching@.contains(q)
                        || matching@.contains(swap(q)) || queued(pending@, q) || conflicts(
                    matching@,
                    addr_set_contents(matching_rhs),
                    q,
                ),
                forall|p: (u64, u64), q: (u64, u64)|
                    #[trigger] matching@.contains(p) && #[trigger] matching@.contains(q) && (p.0 == q.0
                        || p.1 == q.1) ==> p == q,
                forall|b: u64| #[trigger]
                    addr_set_contents(matching_rhs).contains(b) <==> exists|a: u64| matching@.contains((a, b)),
                forall|q: (u64, u64)| #[trigger]
                    matching@.contains(q) ==> pair_set_contents(computed).contains(q),
                forall|q: (u64, u64)| #[trigger]
                    pair_set_contents(computed).contains(q) ==> seeds@.contains(q) || (is_target(
                        gl,
                        q.0,
                    ) && is_target(gr, q.1)),
            decreases item.mappings@.len() - k,
        {
            let mapping = item.mappings[k];
            if !computed.contains(mapping) && !matching.has_first(mapping.0)
                && !matching_rhs.contains(mapping.1) {
                let star0 = lhs.call_graph().get_star(mapping.0);
                let star1 = rhs.call_graph().get_star(mapping.1);
                proof {
                    lemma_star_inputs(lhs, rhs, mapping.0, mapping.1);
                }
                let (dist, candidate_mappings) = match_star(star0, star1, heuristics, ctx);
                proof {
                    let labels = heuristics.labels_spec(
                        out_edges(gl, mapping.0),
                        out_edges(gr, mapping.1),
                        lhs.sizes(),
                        rhs.sizes(),
                    );
                    lemma_candidates(gl, gr, mapping.0, mapping.1, labels.0, labels.1);
                    lemma_target_in_universe(lhs, rhs, mapping);
                    lemma_measure_step(universe, pair_set_contents(computed), mapping);
                }
                let ghost before = pending@;
                computed.insert(mapping);
                pending.push(PendingItem::new(mapping, dist, candidate_mappings));
                proof {
                    assert(pending@[before.len() as int].pair == mapping);
                    assert forall|q: (u64, u64)| #[trigger]
                        pair_set_contents(computed).contains(q) implies matching@.contains(q)
                        || matching@.contains(swap(q)) || queued(pending@, q) || conflicts(
                    matching@,
                    addr_set_contents(matching_rhs),
                    q,
                ) by {
                        if q != mapping && queued(before, q) {
                            let j = choose|j: int| 0 <= j < before.len() && (#[trigger] before[j]).pair == q;
                            assert(pending@[j].pair == q);
                        }
                    }
                    assert forall|k: int, m: int|
                        0 <= k < pending@.len() && 0 <= m < pending@[k].mappings@.len() implies is_target(
                        gl,
                        (#[trigger] pending@[k].mappings@[m]).0,
                    ) && is_target(gr, pending@[k].mappings@[m].1) by {
                        if k < before.len() {
                            assert(pending@[k] == before[k]);
                        }
                    }
                    assert forall|k: int| 0 <= k < pending@.len() implies (#[trigger] pending@[k]).mappings@
                        == candidates(heuristics, lhs, rhs, pending@[k].pair) by {
                        if k < before.len() {
                            assert(pending@[k] == before[k]);
                        }
                    }
                    assert(candidates(heuristics, lhs, rhs, item.pair)[k as int] == mapping);
                    assert(candidates(heuristics, lhs, rhs, item.pair).contains(mapping));
                    assert(proposed(heuristics, lhs, rhs, matching@, mapping));
                    assert(item_view(pending@[before.len() as int]) == star_item(heuristics, lhs, rhs, mapping));
                    assert(view_queue(pending@) =~= view_queue(before).push(star_item(heuristics, lhs, rhs, mapping)));
                    assert(queued_pairs(view_queue(pending@)) =~= queued_pairs(view_queue(before)).insert(
                        mapping,
                    )) by {
                        let f = |it: QueuedView| it.0;
                        assert(view_queue(pending@).map_values(f) =~= view_queue(before).map_values(
                            f,
                        ).push(mapping));
                        assert forall|x: (u64, u64)| #[trigger]
                            view_queue(pending@).map_values(f).contains(x) == (view_queue(
                                before,
                            ).map_values(f).contains(x) || x == mapping) by {
                            let vp = view_queue(pending@).map_values(f);
                            let vb = view_queue(before).map_values(f);
                            if vb.contains(x) {
                                let k = choose|k: int| 0 <= k < vb.len() && vb[k] == x;
                                assert(vp[k] == x);
                            }
                            if x == mapping {
                                assert(vp[vb.len() as int] == x);
                            }
                            if vp.contains(x) {
                                let k = choose|k: int| 0 <= k < vp.len() && vp[k] == x;
                                if k < vb.len() {
                                    assert(vb[k] == x);
                                }
                            }
                        }
                    }
                }
            }
            k += 1;
        }
        proof {
            let st1 = exec_state(
                pending@,
                matching@,
                addr_set_contents(matching_rhs),
                pair_set_contents(computed),
            );
            assert(st1 == step(heuristics, lhs, rhs, st0));
            assert(queue2.len() < queue0.len());
            assert(fuel >= 1);
            assert(run(heuristics, lhs, rhs, st0, fuel) == run(heuristics, lhs, rhs, st1, (fuel - 1) as nat));
            fuel = (fuel - 1) as nat;
        }
    }
    proof {
        assert forall|k: int| 0 <= k < seeds@.len() implies matching@.contains(#[trigger] seeds@[k])
            || matching@.contains(swap(seeds@[k])) || exists|p: (u64, u64)|
            matching@.contains(p) && (p.0 == seeds@[k].0 || p.1 == seeds@[k].1) by {
            let sd = seeds@[k];
            assert(pair_set_contents(computed).contains(sd));
            if conflicts(matching@, addr_set_contents(matching_rhs), sd) {
                if exists|b: u64| matching@.contains((sd.0, b)) {
                    let b = choose|b: u64| matching@.contains((sd.0, b));
                    assert(matching@.contains((sd.0, b)));
                } else {
                    assert(addr_set_contents(matching_rhs).contains(sd.1));
                    let a = choose|a: u64| matching@.contains((a, sd.1));
                    assert(matching@.contains((a, sd.1)));
                }
            }
        }
    }
    matching
}

proof fn lemma_keep_sub(s: Seq<PendingItem>, p: (u64, u64), k: int, w: (u64, u64))
    requires
        0 <= k < keep(s, p, w).len(),
    ensures
        s.contains(keep(s, p, w)[k]),
        !purged(keep(s, p, w)[k], p, w),
    decreases s.len(),
{
    let t = s.drop_first();
    if purged(s[0], p, w) {
        lemma_keep_sub(t, p, k, w);
        let j = choose|j: int| 0 <= j < t.len() && t[j] == keep(t, p, w)[k];
        assert(s[j + 1] == t[j]);
    } else if k == 0 {
        assert(s[0] == keep(s, p, w)[0]);
    } else {
        lemma_keep_sub(t, p, k - 1, w);
        let j = choose|j: int| 0 <= j < t.len() && t[j] == keep(t, p, w)[k - 1];
        assert(s[j + 1] == t[j]);
    }
}

proof fn lemma_target_in_universe(lhs: &CodeMetadata, rhs: &CodeMetadata, q: (u64, u64))
    requires
        lhs.wf(),
        rhs.wf(),
        is_target(lhs.graph_spec()@, q.0),
        is_target(rhs.graph_spec()@, q.1),
    ensures
        pairs_of(lhs.graph_spec().targets(), rhs.graph_spec().targets()).contains(q),
{
    let gl = lhs.graph_spec()@;
    let gr = rhs.graph_spec()@;
    let (a, i) = choose|a: u64, i: int| gl.dom().contains(a) && 0 <= i < gl[a].len() && #[trigger] gl[a][i] == q.0;
    let (b, j) = choose|b: u64, j: int| gr.dom().contains(b) && 0 <= j < gr[b].len() && #[trigger] gr[b][j] == q.1;
    lhs.graph_spec().lemma_targets(a);
    rhs.graph_spec().lemma_targets(b);
    assert(out_edges(gl, a)[i] == q.0);
    assert(out_edges(gr, b)[j] == q.1);
}

proof fn lemma_measure_step(u: Set<(u64, u64)>, c: Set<(u64, u64)>, q: (u64, u64))
    requires
        u.finite(),
        u.contains(q),
        !c.contains(q),
    ensures
        u.difference(c.insert(q)).len() + 1 == u.difference(c).len(),
{
    assert(u.difference(c.insert(q)) =~= u.difference(c).remove(q));
    assert(u.difference(c).contains(q));
}

/// The upper-case hexadecimal digit of `d`.
pub open spec fn hex_char(d: nat) -> char {
    if d == 0 {
        '0'
    } else if d == 1 {
        '1'
    } else if d == 2 {
        '2'
    } else if d == 3 {
        '3'
    } else if d == 4 {
        '4'
    } else if d == 5 {
        '5'
    } else if d == 6 {
        '6'
    } else if d == 7 {
        '7'
    } else if d == 8 {
        '8'
    } else if d == 9 {
        '9'
    } else if d == 10 {
        'A'
    } else if d == 11 {
        'B'
    } else if d == 12 {
        'C'
    } else if d == 13 {
        'D'
    } else if d == 14 {
        'E'
    } else {
        'F'
    }
}

/// `n` in upper-case hexadecimal, without leading zeros.
pub open spec fn hex_digits(n: nat) -> Seq<char>
    decreases n,
{
    if n < 16 {
        seq![hex_char(n)]
    } else {
        hex_digits(n / 16).push(hex_char(n % 16))
    }
}

/// One line of the CSV form of a mapping: both absolute addresses in hexadecimal.
pub open spec fn csv_line(p: (u64, u64), base_l: u64, base_r: u64) -> Seq<char> {
    hex_digits((base_l + p.0) as nat) + seq![',', ' '] + hex_digits((base_r + p.1) as nat) + seq!['\n']
}

/// The CSV form of a sequence of pairs, one line each, in order.
pub open spec fn csv_lines(s: Seq<(u64, u64)>, base_l: u64, base_r: u64) -> Seq<char>
    decreases s.len(),
{
    if s.len() == 0 {
        Seq::empty()
    } else {
        csv_lines(s.drop_last(), base_l, base_r) + csv_line(s.last(), base_l, base_r)
    }
}

fn hex_digit(d: u64) -> (r: &'static str)
    requires
        d < 16,
    ensures
        r@ == seq![hex_char(d as nat)],
{
    proof {
        reveal_strlit("0");
        reveal_strlit("1");
        reveal_strlit("2");
        reveal_strlit("3");
        reveal_strlit("4");
        reveal_strlit("5");
        reveal_strlit("6");
        reveal_strlit("7");
        reveal_strlit("8");
        reveal_strlit("9");
        reveal_strlit("A");
        reveal_strlit("B");
        reveal_strlit("C");
        reveal_strlit("D");
        reveal_strlit("E");
        reveal_strlit("F");
    }
    if d == 0 {
        "0"
    } else if d == 1 {
        "1"
    } else if d == 2 {
        "2"
    } else if d == 3 {
        "3"
    } else if d == 4 {
        "4"
    } else if d == 5 {
        "5"
    } else if d == 6 {
        "6"
    } else if d == 7 {
        "7"
    } else if d == 8 {
        "8"
    } else if d == 9 {
        "9"
    } else if d == 10 {
        "A"
    } else if d == 11 {
        "B"
    } else if d == 12 {
        "C"
    } else if d == 13 {
        "D"
    } else if d == 14 {
        "E"
    } else {
        "F"
    }
}

/// Appends `n` in upper-case hexadecimal.
fn push_hex(out: &mut String, n: u64)
    ensures
        final(out)@ == old(out)@ + hex_digits(n as nat),
    decreases n,
{
    if n >= 16 {
        push_hex(out, n / 16);
    }
    out.append(hex_digit(n % 16));
    proof {
        if n >= 16 {
            assert(old(out)@ + hex_digits(n as nat) =~= old(out)@ + hex_digits((n / 16) as nat) + seq![
                hex_char((n % 16) as nat),
            ]);
        } else {
            assert(n % 16 == n);
        }
    }
}

impl Mapping {
    /// Returns the CSV form of the mapping: one line `<lhs>, <rhs>` per pair, in ascending
    /// order, with each address made absolute by its side's base and written in upper-case
    /// hexadecimal.
    pub fn format(&self, segment_base_lhs: u64, segment_base_rhs: u64) -> (r: String)
        requires
            forall|k: int|
                0 <= k < self.seq().len() ==> segment_base_lhs + (#[trigger] self.seq()[k]).0
                    <= u64::MAX && segment_base_rhs + self.seq()[k].1 <= u64::MAX,
        ensures
            r@ == csv_lines(self.seq(), segment_base_lhs, segment_base_rhs),
    {
        let mut out = String::new();
        let mut k: usize = 0;
        proof {
            reveal_strlit(", ");
            reveal_strlit("\n");
            assert(self.set@.take(0) =~= Seq::<(u64, u64)>::empty());
        }
        while k < self.set.len()
            invariant
                k <= self.set@.len(),
                self.seq() == self.set@,
                forall|k: int|
                    0 <= k < self.seq().len() ==> segment_base_lhs + (#[trigger] self.seq()[k]).0
                        <= u64::MAX && segment_base_rhs + self.seq()[k].1 <= u64::MAX,
                out@ == csv_lines(self.set@.take(k as int), segment_base_lhs, segment_base_rhs),
            decreases self.set@.len() - k,
        {
            let (l, r) = self.set[k];
            let ghost before = out@;
            push_hex(&mut out, segment_base_lhs + l);
            out.append(", ");
            push_hex(&mut out, segment_base_rhs + r);
            out.append("\n");
            proof {
                reveal_strlit(", ");
                reveal_strlit("\n");
                assert(self.set@.take(k + 1).drop_last() =~= self.set@.take(k as int));
                assert(out@ =~= before + csv_line((l, r), segment_base_lhs, segment_base_rhs));
            }
            k += 1;
        }
        proof {
            assert(self.set@.take(k as int) =~= self.set@);
        }
        out
    }
}

} // verus!
