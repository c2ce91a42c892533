use crate::levenshtein::{lev_distance, levenshtein_matrix, LevenshteinMatrix};
use crate::match_star::MatchContext;
use vstd::prelude::*;

verus! {

/// Inputs a heuristic accepts: every target has metadata on its side, and the label matrix
/// and the label counters fit in memory.
pub open spec fn label_inputs_ok(
    lhs: Seq<u64>,
    rhs: Seq<u64>,
    lsizes: Map<u64, nat>,
    rsizes: Map<u64, nat>,
) -> bool {
    &&& forall|i: int| 0 <= i < lhs.len() ==> lsizes.dom().contains(#[trigger] lhs[i])
    &&& forall|j: int| 0 <= j < rhs.len() ==> rsizes.dom().contains(#[trigger] rhs[j])
    &&& (lhs.len() + 1) * (rhs.len() + 1) <= usize::MAX
    &&& 3 * lhs.len() + rhs.len() < usize::MAX
}

/// A heuristic for computing the distance between edges: it labels the two edge sequences
/// so that edges of the same kind share a label, and compares the labels.
pub trait EdgeDistanceHeuristic {
    /// The labels of the left and of the right edges.
    spec fn labels_spec(
        &self,
        lhs: Seq<u64>,
        rhs: Seq<u64>,
        lsizes: Map<u64, nat>,
        rsizes: Map<u64, nat>,
    ) -> (Seq<usize>, Seq<usize>);

    /// Labels the edges and computes the Levenshtein matrix of the two label sequences.
    fn label(&self, lhs: &[u64], rhs: &[u64], ctx: MatchContext<'_>) -> (r: LevenshteinMatrix)
        requires
            label_inputs_ok(lhs@, rhs@, ctx.lhs_sizes(), ctx.rhs_sizes()),
        ensures
            r.wf(),
            r.source().len() == lhs@.len(),
            r.target().len() == rhs@.len(),
            (r.source(), r.target()) == self.labels_spec(
                lhs@,
                rhs@,
                ctx.lhs_sizes(),
                ctx.rhs_sizes(),
            ),
    ;
}

/// A heuristic that combines two heuristics: the one whose labels give the smaller distance
/// wins, the first on a tie.
pub struct Combined<H, T>(H, T);

impl<H, T> Combined<H, T> {
    /// The first heuristic.
    pub closed spec fn first(&self) -> H {
        self.0
    }

    /// The second heuristic.
    pub closed spec fn second(&self) -> T {
        self.1
    }

    /// Creates a new combined heuristic.
    pub fn new(lhs: H, rhs: T) -> (r: Self)
        ensures
            r.first() == lhs,
            r.second() == rhs,
    {
        Combined(lhs, rhs)
    }
}

impl<H: EdgeDistanceHeuristic, T: EdgeDistanceHeuristic> EdgeDistanceHeuristic for Combined<H, T> {
    closed spec fn labels_spec(
        &self,
        lhs: Seq<u64>,
        rhs: Seq<u64>,
        lsizes: Map<u64, nat>,
        rsizes: Map<u64, nat>,
    ) -> (Seq<usize>, Seq<usize>) {
        let a = self.0.labels_spec(lhs, rhs, lsizes, rsizes);
        let b = self.1.labels_spec(lhs, rhs, lsizes, rsizes);
        if lev_distance(a.0, a.1) <= lev_distance(b.0, b.1) {
            a
        } else {
            b
        }
    }

    fn label(&self, lhs: &[u64], rhs: &[u64], ctx: MatchContext<'_>) -> (r: LevenshteinMatrix) {
        let mat1 = self.0.label(lhs, rhs, ctx);
        let mat2 = self.1.label(lhs, rhs, ctx);
        proof {
            mat1.lemma_wf();
            mat2.lemma_wf();
        }
        if mat1.distance() <= mat2.distance() {
            mat1
        } else {
            mat2
        }
    }
}

/// The combination's labels are those of the heuristic whose labels give the smaller distance,
/// the first on a tie; so their distance is no larger than either heuristic's.
pub proof fn lemma_combined_monotone<H: EdgeDistanceHeuristic, T: EdgeDistanceHeuristic>(
    c: &Combined<H, T>,
    lhs: Seq<u64>,
    rhs: Seq<u64>,
    lsizes: Map<u64, nat>,
    rsizes: Map<u64, nat>,
)
    ensures
        ({
            let r = c.labels_spec(lhs, rhs, lsizes, rsizes);
            let a = c.first().labels_spec(lhs, rhs, lsizes, rsizes);
            let b = c.second().labels_spec(lhs, rhs, lsizes, rsizes);
            &&& r == (if lev_distance(a.0, a.1) <= lev_distance(b.0, b.1) {
                a
            } else {
                b
            })
            &&& lev_distance(r.0, r.1) <= lev_distance(a.0, a.1)
            &&& lev_distance(r.0, r.1) <= lev_distance(b.0, b.1)
        }),
{
}

/// The distinct elements of `xs`, in the order of their first occurrence.
pub open spec fn firsts(xs: Seq<u64>) -> Seq<u64>
    decreases xs.len(),
{
    if xs.len() == 0 {
        Seq::empty()
    } else {
        let p = firsts(xs.drop_last());
        if p.contains(xs.last()) {
            p
        } else {
            p.push(xs.last())
        }
    }
}

/// The position of the first occurrence of `a` in `s`.
pub open spec fn pos_in(s: Seq<u64>, a: u64) -> nat
    decreases s.len(),
{
    if s.len() == 0 || s[0] == a {
        0
    } else {
        1 + pos_in(s.drop_first(), a)
    }
}

/// Each element labelled with the rank of its first occurrence.
pub open spec fn call_order_labels(xs: Seq<u64>) -> Seq<usize> {
    Seq::new(xs.len(), |i: int| pos_in(firsts(xs), xs[i]) as usize)
}

proof fn lemma_pos_in(s: Seq<u64>, k: int)
    requires
        s.no_duplicates(),
        0 <= k < s.len(),
    ensures
        pos_in(s, s[k]) == k,
    decreases s.len(),
{
    if k > 0 {
        assert(s[0] != s[k]);
        lemma_pos_in(s.drop_first(), k - 1);
    }
}

proof fn lemma_firsts(xs: Seq<u64>)
    ensures
        firsts(xs).no_duplicates(),
        forall|i: int| 0 <= i < xs.len() ==> firsts(xs).contains(#[trigger] xs[i]),
        forall|k: int| 0 <= k < firsts(xs).len() ==> xs.contains(#[trigger] firsts(xs)[k]),
        firsts(xs).len() <= xs.len(),
    decreases xs.len(),
{
    if xs.len() > 0 {
        let ys = xs.drop_last();
        lemma_firsts(ys);
        assert forall|i: int| 0 <= i < xs.len() implies firsts(xs).contains(#[trigger] xs[i]) by {
            if i < ys.len() {
                assert(firsts(ys).contains(ys[i]));
                let k = choose|k: int| 0 <= k < firsts(ys).len() && firsts(ys)[k] == ys[i];
                assert(firsts(xs)[k] == xs[i]);
            } else {
                if !firsts(ys).contains(xs.last()) {
                    assert(firsts(xs)[firsts(ys).len() as int] == xs.last());
                }
            }
        }
        assert forall|k: int| 0 <= k < firsts(xs).len() implies xs.contains(
            #[trigger] firsts(xs)[k],
        ) by {
            if k < firsts(ys).len() {
                assert(firsts(xs)[k] == firsts(ys)[k]);
                let i = choose|i: int| 0 <= i < ys.len() && ys[i] == firsts(ys)[k];
                assert(xs[i] == firsts(xs)[k]);
            } else {
                assert(xs[xs.len() - 1] == firsts(xs)[k]);
            }
        }
    }
}

proof fn lemma_pos_in_first(s: Seq<u64>, a: u64, i: int)
    requires
        0 <= i < s.len(),
        s[i] == a,
    ensures
        pos_in(s, a) <= i,
        s[pos_in(s, a) as int] == a,
        forall|m: int| 0 <= m < pos_in(s, a) ==> s[m] != a,
    decreases s.len(),
{
    if s[0] != a {
        lemma_pos_in_first(s.drop_first(), a, i - 1);
        assert forall|m: int| 0 <= m < pos_in(s, a) implies s[m] != a by {
            if m > 0 {
                assert(s[m] == s.drop_first()[m - 1]);
            }
        }
    }
}

proof fn lemma_firsts_prefix(xs: Seq<u64>, k: int)
    requires
        0 <= k <= xs.len(),
    ensures
        firsts(xs.take(k)).len() <= firsts(xs).len(),
        forall|m: int|
            0 <= m < firsts(xs.take(k)).len() ==> firsts(xs)[m] == #[trigger] firsts(xs.take(k))[m],
    decreases xs.len(),
{
    if k == xs.len() {
        assert(xs.take(k) =~= xs);
    } else {
        let ys = xs.drop_last();
        assert(xs.take(k) =~= ys.take(k));
        lemma_firsts_prefix(ys, k);
    }
}

/// Labelling by call order gives one label per element, and the label of `xs[i]` is the
/// position of `xs[i]` among the distinct elements of `xs` in the order they first occur:
/// the number of distinct elements before the first occurrence of `xs[i]`.
pub proof fn lemma_call_order_stability(xs: Seq<u64>)
    requires
        xs.len() <= usize::MAX,
    ensures
        call_order_labels(xs).len() == xs.len(),
        firsts(xs).no_duplicates(),
        forall|i: int|
            0 <= i < xs.len() ==> {
                &&& call_order_labels(xs)[i] < firsts(xs).len()
                &&& firsts(xs)[call_order_labels(xs)[i] as int] == xs[i]
            },
        forall|i: int|
            0 <= i < xs.len() ==> #[trigger] call_order_labels(xs)[i] == xs.take(
                pos_in(xs, xs[i]) as int,
            ).to_set().len(),
{
    lemma_firsts(xs);
    assert forall|i: int| 0 <= i < xs.len() implies #[trigger] call_order_labels(xs)[i] == xs.take(
        pos_in(xs, xs[i]) as int,
    ).to_set().len() by {
        let a = xs[i];
        lemma_pos_in_first(xs, a, i);
        let f = pos_in(xs, a) as int;
        let pre = xs.take(f);
        lemma_firsts(pre);
        assert(!pre.contains(a)) by {
            if pre.contains(a) {
                let m = choose|m: int| 0 <= m < pre.len() && pre[m] == a;
                assert(xs[m] == a);
            }
        }
        assert(!firsts(pre).contains(a));
        assert(xs.take(f + 1).drop_last() =~= pre);
        assert(firsts(xs.take(f + 1)) == firsts(pre).push(a));
        lemma_firsts_prefix(xs, f + 1);
        let l = firsts(pre).len() as int;
        assert(firsts(xs.take(f + 1))[l] == a);
        assert(firsts(xs)[l] == a);
        lemma_pos_in(firsts(xs), l);
        firsts(pre).unique_seq_to_set();
        assert(firsts(pre).to_set() =~= pre.to_set()) by {
            assert forall|y: u64| pre.contains(y) implies firsts(pre).contains(y) by {
                let m = choose|m: int| 0 <= m < pre.len() && pre[m] == y;
                assert(firsts(pre).contains(pre[m]));
            }
            assert forall|y: u64| firsts(pre).contains(y) implies pre.contains(y) by {
                let m = choose|m: int| 0 <= m < firsts(pre).len() && firsts(pre)[m] == y;
                assert(pre.contains(firsts(pre)[m]));
            }
        }
        assert(l <= xs.len());
    }
    assert forall|i: int| 0 <= i < xs.len() implies {
        &&& call_order_labels(xs)[i] < firsts(xs).len()
        &&& firsts(xs)[call_order_labels(xs)[i] as int] == xs[i]
    } by {
        assert(firsts(xs).contains(xs[i]));
        let k = choose|k: int| 0 <= k < firsts(xs).len() && firsts(xs)[k] == xs[i];
        lemma_pos_in(firsts(xs), k);
        assert(call_order_labels(xs)[i] == k);
    }
}

/// A heuristic that labels edges based on the order of calls.
pub struct CallOrder;

impl CallOrder {
    /// Labels each edge with the rank at which its target first occurs.
    pub fn labels(slice: &[u64]) -> (r: Vec<usize>)
        ensures
            r@ == call_order_labels(slice@),
    {
        let ghost xs = slice@;
        let mut seen: Vec<u64> = Vec::new();
        let mut out: Vec<usize> = Vec::new();
        let mut i: usize = 0;
        while i < slice.len()
            invariant
                i <= xs.len(),
                xs == slice@,
                seen@ == firsts(xs.take(i as int)),
                seen@.len() <= i,
                out@.len() == i,
                forall|j: int|
                    0 <= j < i ==> out@[j] < seen@.len() && seen@[#[trigger] out@[j] as int]
                        == xs[j],
            decreases xs.len() - i,
        {
            proof {
                lemma_firsts(xs.take(i as int));
                assert(xs.take(i + 1).drop_last() =~= xs.take(i as int));
            }
            let addr = slice[i];
            let mut k: usize = 0;
            while k < seen.len() && seen[k] != addr
                invariant
                    k <= seen@.len(),
                    forall|m: int| 0 <= m < k ==> seen@[m] != addr,
                decreases seen@.len() - k,
            {
                k += 1;
            }
            if k == seen.len() {
                proof {
                    assert(!seen@.contains(addr));
                }
                seen.push(addr);
            }
            out.push(k);
            i += 1;
        }
        proof {
            assert(xs.take(xs.len() as int) =~= xs);
            lemma_firsts(xs);
            assert forall|j: int| 0 <= j < xs.len() implies out@[j] == call_order_labels(xs)[j] by {
                lemma_pos_in(seen@, out@[j] as int);
            }
            assert(out@ =~= call_order_labels(xs));
        }
        out
    }
}

impl EdgeDistanceHeuristic for CallOrder {
    open spec fn labels_spec(
        &self,
        lhs: Seq<u64>,
        rhs: Seq<u64>,
        lsizes: Map<u64, nat>,
        rsizes: Map<u64, nat>,
    ) -> (Seq<usize>, Seq<usize>) {
        (call_order_labels(lhs), call_order_labels(rhs))
    }

    fn label(&self, lhs: &[u64], rhs: &[u64], ctx: MatchContext<'_>) -> (r: LevenshteinMatrix) {
        let l = Self::labels(lhs);
        let r = Self::labels(rhs);
        levenshtein_matrix(l.as_slice(), r.as_slice())
    }
}


/// The opcode counts of the targets of a sequence of edges.
pub open spec fn sizes_of(edges: Seq<u64>, sizes: Map<u64, nat>) -> Seq<nat> {
    Seq::new(edges.len(), |i: int| sizes[edges[i]])
}

/// The largest element, 0 for an empty sequence.
pub open spec fn max_of(s: Seq<nat>) -> nat
    decreases s.len(),
{
    if s.len() == 0 {
        0
    } else {
        let m = max_of(s.drop_last());
        if s.last() > m {
            s.last()
        } else {
            m
        }
    }
}

/// The denominator of the relative sizes of one side: its largest size, or 1 when that is 0
/// (all weights are then 0).
pub open spec fn denom(s: Seq<nat>) -> nat {
    if max_of(s) == 0 {
        1
    } else {
        max_of(s)
    }
}

/// The distance between the relative size of left edge `i` and that of right edge `j`,
/// scaled by the product of the two denominators (the scale is the same for all pairs, so
/// comparisons are those of the relative sizes).
pub open spec fn wdiff(ll: Seq<nat>, lr: Seq<nat>, i: int, j: int) -> nat {
    let a = ll[i] * denom(lr);
    let b = lr[j] * denom(ll);
    if a >= b {
        (a - b) as nat
    } else {
        (b - a) as nat
    }
}

/// Where index `x` enters an order sorted by size: before the first entry of larger size.
pub open spec fn insert_pos(order: Seq<usize>, lens: Seq<nat>, x: usize) -> nat
    decreases order.len(),
{
    if order.len() == 0 || lens[order[0] as int] > lens[x as int] {
        0
    } else {
        1 + insert_pos(order.drop_first(), lens, x)
    }
}

/// The indices `0..n` in ascending order of `lens`, equal sizes in index order.
pub open spec fn size_order(lens: Seq<nat>, n: nat) -> Seq<usize>
    decreases n,
{
    if n == 0 {
        Seq::empty()
    } else {
        let o = size_order(lens, (n - 1) as nat);
        o.insert(insert_pos(o, lens, (n - 1) as usize) as int, (n - 1) as usize)
    }
}

/// From position `q` of the right order, the position after the run of right edges that are
/// each strictly closer to left edge `il` than `d`.
pub open spec fn advance(ll: Seq<nat>, lr: Seq<nat>, or: Seq<usize>, il: int, q: nat, d: nat) -> nat
    decreases or.len() - q,
{
    if q < or.len() && wdiff(ll, lr, il, or[q as int] as int) < d {
        advance(ll, lr, or, il, q + 1, d)
    } else {
        q
    }
}

/// The parallel walk over the two sorted orders from left position `p` and right position
/// `q`, with counter `c` and the labels so far: each left edge is paired with the next right
/// edge, or with the last of a run of right edges strictly closer to it; both get the left
/// edge's index as label. The walk ends when either order is exhausted.
pub open spec fn walk(
    ll: Seq<nat>,
    lr: Seq<nat>,
    ol: Seq<usize>,
    or: Seq<usize>,
    p: nat,
    q: nat,
    c: nat,
    l1: Seq<usize>,
    l2: Seq<usize>,
) -> (nat, Seq<usize>, Seq<usize>)
    decreases ol.len() - p,
{
    if p >= ol.len() || q >= or.len() {
        (c, l1, l2)
    } else {
        let il = ol[p as int];
        let d = wdiff(ll, lr, il as int, or[q as int] as int);
        let q2 = advance(ll, lr, or, il as int, q + 1, d);
        let ir = or[q2 - 1];
        let c2: nat = if il >= c {
            (il + 1) as nat
        } else {
            c + 1
        };
        walk(ll, lr, ol, or, p + 1, q2, c2, l1.update(il as int, il), l2.update(ir as int, il))
    }
}

/// From position `k` on, each entry still unassigned (`usize::MAX`) gets the next counter
/// value; returns the labels and the counter after them.
pub open spec fn fill_from(s: Seq<usize>, k: nat, c: nat) -> (Seq<usize>, nat)
    decreases s.len() - k,
{
    if k >= s.len() {
        (s, c)
    } else if s[k as int] == usize::MAX {
        fill_from(s.update(k as int, c as usize), k + 1, c + 1)
    } else {
        fill_from(s, k + 1, c)
    }
}

/// A sequence of `n` unassigned labels.
pub open spec fn unassigned(n: nat) -> Seq<usize> {
    Seq::new(n, |i: int| usize::MAX)
}

/// The labels by relative code size: matched edges share the left edge's index, and the
/// others get fresh labels from the counter on, left side first.
pub open spec fn code_size_labels(
    lhs: Seq<u64>,
    rhs: Seq<u64>,
    lsizes: Map<u64, nat>,
    rsizes: Map<u64, nat>,
) -> (Seq<usize>, Seq<usize>) {
    let ll = sizes_of(lhs, lsizes);
    let lr = sizes_of(rhs, rsizes);
    let ol = size_order(ll, ll.len());
    let or = size_order(lr, lr.len());
    let w = walk(ll, lr, ol, or, 0, 0, 0, unassigned(ll.len()), unassigned(lr.len()));
    let f1 = fill_from(w.1, 0, w.0);
    let f2 = fill_from(w.2, 0, f1.1);
    (f1.0, f2.0)
}

proof fn lemma_insert_pos(order: Seq<usize>, lens: Seq<nat>, x: usize, k: int)
    requires
        0 <= k <= order.len(),
        forall|m: int| 0 <= m < k ==> lens[#[trigger] order[m] as int] <= lens[x as int],
        k == order.len() || lens[order[k] as int] > lens[x as int],
    ensures
        insert_pos(order, lens, x) == k,
    decreases order.len(),
{
    if k > 0 {
        assert(lens[order[0] as int] <= lens[x as int]);
        let rest = order.drop_first();
        assert forall|m: int| 0 <= m < k - 1 implies lens[#[trigger] rest[m] as int]
            <= lens[x as int] by {
            assert(rest[m] == order[m + 1]);
        }
        lemma_insert_pos(rest, lens, x, k - 1);
    }
}

proof fn lemma_insert_pos_bound(order: Seq<usize>, lens: Seq<nat>, x: usize)
    ensures
        insert_pos(order, lens, x) <= order.len(),
    decreases order.len(),
{
    if order.len() > 0 {
        lemma_insert_pos_bound(order.drop_first(), lens, x);
    }
}

proof fn lemma_size_order(lens: Seq<nat>, n: nat)
    requires
        n <= usize::MAX,
    ensures
        size_order(lens, n).len() == n,
        forall|k: int| 0 <= k < n ==> #[trigger] size_order(lens, n)[k] < n,
    decreases n,
{
    if n > 0 {
        let o = size_order(lens, (n - 1) as nat);
        lemma_size_order(lens, (n - 1) as nat);
        lemma_insert_pos_bound(o, lens, (n - 1) as usize);
        let pos = insert_pos(o, lens, (n - 1) as usize) as int;
        assert forall|k: int| 0 <= k < n implies #[trigger] size_order(lens, n)[k] < n by {
            if k < pos {
                assert(size_order(lens, n)[k] == o[k]);
            } else if k > pos {
                assert(size_order(lens, n)[k] == o[k - 1]);
            }
        }
    }
}

/// A heuristic that labels edges based on the relative number of opcodes.
pub struct RelativeCodeSize;

/// The opcode counts of the targets, read from the metadata.
fn target_sizes(edges: &[u64], meta: &crate::object::CodeMetadata) -> (r: Vec<usize>)
    requires
        forall|i: int| 0 <= i < edges@.len() ==> meta.sizes().dom().contains(#[trigger] edges@[i]),
    ensures
        r@.len() == edges@.len(),
        forall|i: int| 0 <= i < edges@.len() ==> r@[i] as nat == #[trigger] sizes_of(edges@, meta.sizes())[i],
{
    let mut out: Vec<usize> = Vec::new();
    let mut i: usize = 0;
    while i < edges.len()
        invariant
            i <= edges@.len(),
            out@.len() == i,
            forall|k: int| 0 <= k < edges@.len() ==> meta.sizes().dom().contains(#[trigger] edges@[k]),
            forall|k: int| 0 <= k < i ==> out@[k] as nat == #[trigger] sizes_of(edges@, meta.sizes())[k],
        decreases edges@.len() - i,
    {
        let f = meta.get_function(edges[i]);
        match f {
            Some(f) => {
                out.push(f.opcodes().len());
            },
            None => {
                proof {
                    assert(meta.sizes().dom().contains(edges@[i as int]));
                }
                out.push(0);
            },
        }
        i += 1;
    }
    out
}

/// The sizes as a sequence of naturals.
pub open spec fn as_nats(s: Seq<usize>) -> Seq<nat> {
    Seq::new(s.len(), |i: int| s[i] as nat)
}

/// The denominator of one side's relative sizes.
fn denominator(lens: &Vec<usize>) -> (r: usize)
    ensures
        r as nat == denom(as_nats(lens@)),
        r >= 1,
{
    let ghost ls = as_nats(lens@);
    let mut m: usize = 0;
    let mut i: usize = 0;
    while i < lens.len()
        invariant
            i <= lens@.len(),
            ls == as_nats(lens@),
            m as nat == max_of(ls.take(i as int)),
        decreases lens@.len() - i,
    {
        proof {
            assert(ls.take(i + 1).drop_last() =~= ls.take(i as int));
        }
        if lens[i] > m {
            m = lens[i];
        }
        i += 1;
    }
    proof {
        assert(ls.take(lens@.len() as int) =~= ls);
    }
    if m == 0 {
        1
    } else {
        m
    }
}

/// The stable order of the indices by size.
fn sort_by_size(lens: &Vec<usize>) -> (r: Vec<usize>)
    ensures
        r@ == size_order(as_nats(lens@), lens@.len()),
{
    let ghost ls = as_nats(lens@);
    let mut order: Vec<usize> = Vec::new();
    let mut i: usize = 0;
    while i < lens.len()
        invariant
            i <= lens@.len(),
            ls == as_nats(lens@),
            order@ == size_order(ls, i as nat),
        decreases lens@.len() - i,
    {
        proof {
            lemma_size_order(ls, i as nat);
        }
        let mut k: usize = 0;
        while k < order.len() && lens[order[k]] <= lens[i]
            invariant
                k <= order@.len(),
                order@.len() == i,
                i < lens@.len(),
                ls == as_nats(lens@),
                forall|m: int| 0 <= m < order@.len() ==> #[trigger] order@[m] < i,
                forall|m: int| 0 <= m < k ==> ls[#[trigger] order@[m] as int] <= ls[i as int],
            decreases order@.len() - k,
        {
            k += 1;
        }
        proof {
            lemma_insert_pos(order@, ls, i, k as int);
        }
        order.insert(k, i);
        i += 1;
    }
    order
}

/// The scaled distance between the relative sizes `a / da` and `b / db`.
fn weight_diff(a: usize, da: usize, b: usize, db: usize) -> (r: u128)
    ensures
        r as int == if a * db >= b * da {
            a * db - b * da
        } else {
            b * da - a * db
        },
{
    proof {
        assert((a as int) * (db as int) <= 0xFFFF_FFFF_FFFF_FFFF * 0xFFFF_FFFF_FFFF_FFFF) by (nonlinear_arith)
            requires
                a <= 0xFFFF_FFFF_FFFF_FFFF,
                db <= 0xFFFF_FFFF_FFFF_FFFF,
        ;
        assert((b as int) * (da as int) <= 0xFFFF_FFFF_FFFF_FFFF * 0xFFFF_FFFF_FFFF_FFFF) by (nonlinear_arith)
            requires
                b <= 0xFFFF_FFFF_FFFF_FFFF,
                da <= 0xFFFF_FFFF_FFFF_FFFF,
        ;
    }
    let x = (a as u128) * (db as u128);
    let y = (b as u128) * (da as u128);
    if x >= y {
        x - y
    } else {
        y - x
    }
}


/// `n` unassigned labels.
fn unassigned_labels(n: usize) -> (r: Vec<usize>)
    ensures
        r@ == unassigned(n as nat),
{
    let mut v: Vec<usize> = Vec::new();
    let mut i: usize = 0;
    while i < n
        invariant
            i <= n,
            v@ == unassigned(i as nat),
        decreases n - i,
    {
        v.push(usize::MAX);
        i += 1;
        proof {
            assert(v@ =~= unassigned(i as nat));
        }
    }
    v
}

/// Gives each unassigned label the next counter value, from `c` on; returns the counter after.
fn fill_labels(labels: &mut Vec<usize>, c: usize) -> (r: usize)
    requires
        c + old(labels)@.len() < usize::MAX,
    ensures
        (final(labels)@, r as nat) == fill_from(old(labels)@, 0, c as nat),
        final(labels)@.len() == old(labels)@.len(),
        r <= c + old(labels)@.len(),
{
    let ghost start = labels@;
    let ghost c0 = c;
    let mut c = c;
    let mut k: usize = 0;
    while k < labels.len()
        invariant
            k <= labels@.len(),
            labels@.len() == start.len(),
            c0 + start.len() < usize::MAX,
            c <= c0 + k,
            fill_from(labels@, k as nat, c as nat) == fill_from(start, 0, c0 as nat),
        decreases labels@.len() - k,
    {
        if labels[k] == usize::MAX {
            labels.set(k, c);
            c += 1;
        }
        k += 1;
    }
    c
}

impl RelativeCodeSize {
    /// Labels the edges of both sides by the relative number of opcodes of their targets.
    pub fn labels(&self, lhs: &[u64], rhs: &[u64], ctx: MatchContext<'_>) -> (r: (
        Vec<usize>,
        Vec<usize>,
    ))
        requires
            label_inputs_ok(lhs@, rhs@, ctx.lhs_sizes(), ctx.rhs_sizes()),
        ensures
            (r.0@, r.1@) == code_size_labels(lhs@, rhs@, ctx.lhs_sizes(), ctx.rhs_sizes()),
            r.0@.len() == lhs@.len(),
            r.1@.len() == rhs@.len(),
    {
        let lens1 = target_sizes(lhs, ctx.lhs_metadata());
        let lens2 = target_sizes(rhs, ctx.rhs_metadata());
        let ghost ll = sizes_of(lhs@, ctx.lhs_sizes());
        let ghost lr = sizes_of(rhs@, ctx.rhs_sizes());
        proof {
            assert(as_nats(lens1@) =~= ll);
            assert(as_nats(lens2@) =~= lr);
        }
        let d1 = denominator(&lens1);
        let d2 = denominator(&lens2);
        let order1 = sort_by_size(&lens1);
        let order2 = sort_by_size(&lens2);
        let ghost ol = order1@;
        let ghost or = order2@;
        let n1 = lens1.len();
        let n2 = lens2.len();
        proof {
            lemma_size_order(ll, n1 as nat);
            lemma_size_order(lr, n2 as nat);
        }
        let mut labels1 = unassigned_labels(n1);
        let mut labels2 = unassigned_labels(n2);
        let ghost goal = walk(ll, lr, ol, or, 0, 0, 0, unassigned(n1 as nat), unassigned(n2 as nat));
        let mut p: usize = 0;
        let mut q: usize = 0;
        let mut c: usize = 0;
        while p < n1 && q < n2
            invariant
                n1 == ll.len(),
                n2 == lr.len(),
                lens1@.len() == n1,
                lens2@.len() == n2,
                as_nats(lens1@) == ll,
                as_nats(lens2@) == lr,
                d1 as nat == denom(ll),
                d2 as nat == denom(lr),
                order1@ == ol,
                order2@ == or,
                ol.len() == n1,
                or.len() == n2,
                forall|k: int| 0 <= k < n1 ==> #[trigger] ol[k] < n1,
                forall|k: int| 0 <= k < n2 ==> #[trigger] or[k] < n2,
                labels1@.len() == n1,
                labels2@.len() == n2,
                p <= n1,
                q <= n2,
                c <= n1 + p,
                3 * n1 + n2 < usize::MAX,
                walk(ll, lr, ol, or, p as nat, q as nat, c as nat, labels1@, labels2@) == goal,
            decreases n1 - p,
        {
            let il = order1[p];
            let mut ir = order2[q];
            let d = weight_diff(lens1[il], d1, lens2[ir], d2);
            let ghost q0 = q;
            proof {
                assert(lens1@[il as int] as nat == ll[il as int]);
                assert(lens2@[ir as int] as nat == lr[ir as int]);
                assert(d as nat == wdiff(ll, lr, il as int, ir as int));
            }
            q += 1;
            while q < n2 && weight_diff(lens1[il], d1, lens2[order2[q]], d2) < d
                invariant
                    n1 == ll.len(),
                    n2 == lr.len(),
                    lens1@.len() == n1,
                    lens2@.len() == n2,
                    as_nats(lens1@) == ll,
                    as_nats(lens2@) == lr,
                    d1 as nat == denom(ll),
                    d2 as nat == denom(lr),
                    order2@ == or,
                    or.len() == n2,
                    forall|k: int| 0 <= k < n2 ==> #[trigger] or[k] < n2,
                    il < n1,
                    q0 < q <= n2,
                    ir == or[q - 1],
                    advance(ll, lr, or, il as int, q as nat, d as nat) == advance(
                        ll,
                        lr,
                        or,
                        il as int,
                        (q0 + 1) as nat,
                        d as nat,
                    ),
                decreases n2 - q,
            {
                proof {
                    assert(lens1@[il as int] as nat == ll[il as int]);
                    assert(lens2@[or[q as int] as int] as nat == lr[or[q as int] as int]);
                }
                ir = order2[q];
                q += 1;
            }
            proof {
                if q < n2 {
                    assert(lens1@[il as int] as nat == ll[il as int]);
                    assert(lens2@[or[q as int] as int] as nat == lr[or[q as int] as int]);
                }
                assert(advance(ll, lr, or, il as int, q as nat, d as nat) == q);
            }
            labels1.set(il, il);
            labels2.set(ir, il);
            c = if il >= c {
                il + 1
            } else {
                c + 1
            };
            p += 1;
        }
        let c1 = fill_labels(&mut labels1, c);
        let c2 = fill_labels(&mut labels2, c1);
        (labels1, labels2)
    }
}

impl EdgeDistanceHeuristic for RelativeCodeSize {
    open spec fn labels_spec(
        &self,
        lhs: Seq<u64>,
        rhs: Seq<u64>,
        lsizes: Map<u64, nat>,
        rsizes: Map<u64, nat>,
    ) -> (Seq<usize>, Seq<usize>) {
        code_size_labels(lhs, rhs, lsizes, rsizes)
    }

    fn label(&self, lhs: &[u64], rhs: &[u64], ctx: MatchContext<'_>) -> (r: LevenshteinMatrix) {
        let (labels_l, labels_r) = self.labels(lhs, rhs, ctx);
        levenshtein_matrix(labels_l.as_slice(), labels_r.as_slice())
    }
}

} // verus!
