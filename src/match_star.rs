use crate::graph::Star;
use crate::heuristics::{label_inputs_ok, EdgeDistanceHeuristic};
use crate::levenshtein::{backtrack_step, lev_distance, Edit};
use crate::object::CodeMetadata;
use vstd::prelude::*;

verus! {

/// The two sides of a match: the metadata of the left and of the right object code.
#[derive(Clone, Copy)]
pub struct MatchContext<'a> {
    lhs: &'a CodeMetadata,
    rhs: &'a CodeMetadata,
}

impl<'a> MatchContext<'a> {
    /// Opcode counts of the functions on the left.
    pub closed spec fn lhs_sizes(&self) -> Map<u64, nat> {
        self.lhs.sizes()
    }

    /// Opcode counts of the functions on the right.
    pub closed spec fn rhs_sizes(&self) -> Map<u64, nat> {
        self.rhs.sizes()
    }

    /// Creates a context over the two sides.
    pub fn new(lhs: &'a CodeMetadata, rhs: &'a CodeMetadata) -> (r: Self)
        ensures
            r.lhs_sizes() == lhs.sizes(),
            r.rhs_sizes() == rhs.sizes(),
    {
        MatchContext { lhs, rhs }
    }

    /// Returns the metadata of the left side.
    pub fn lhs_metadata(&self) -> (r: &'a CodeMetadata)
        ensures
            r.sizes() == self.lhs_sizes(),
    {
        self.lhs
    }

    /// Returns the metadata of the right side.
    pub fn rhs_metadata(&self) -> (r: &'a CodeMetadata)
        ensures
            r.sizes() == self.rhs_sizes(),
    {
        self.rhs
    }
}

/// The candidate pairs of a star match, read off the backtrack from cell `(x, y)` of the
/// distance table of the labels `s` and `t`: a kept or substituted edge pairs the left edge
/// and the right edge at the cell the step moves to; deletions and insertions pair nothing.
pub open spec fn star_pairs(
    s: Seq<usize>,
    t: Seq<usize>,
    el: Seq<u64>,
    er: Seq<u64>,
    x: nat,
    y: nat,
) -> Seq<(u64, u64)>
    decreases x + y,
{
    if x == 0 && y == 0 {
        Seq::empty()
    } else {
        let (e, x2, y2) = backtrack_step(s, t, x, y);
        if x2 + y2 < x + y {
            match e {
                Edit::Noop => seq![(el[x2 as int], er[y2 as int])] + star_pairs(s, t, el, er, x2, y2),
                Edit::Substitute(_) => seq![(el[x2 as int], er[y2 as int])] + star_pairs(
                    s,
                    t,
                    el,
                    er,
                    x2,
                    y2,
                ),
                _ => star_pairs(s, t, el, er, x2, y2),
            }
        } else {
            Seq::empty()
        }
    }
}

/// Every candidate pair joins a left edge target and a right edge target.
pub proof fn lemma_star_pairs_targets(
    s: Seq<usize>,
    t: Seq<usize>,
    el: Seq<u64>,
    er: Seq<u64>,
    x: nat,
    y: nat,
)
    requires
        x <= el.len(),
        y <= er.len(),
    ensures
        forall|k: int|
            0 <= k < star_pairs(s, t, el, er, x, y).len() ==> el.contains(
                (#[trigger] star_pairs(s, t, el, er, x, y)[k]).0,
            ) && er.contains(star_pairs(s, t, el, er, x, y)[k].1),
    decreases x + y,
{
    if !(x == 0 && y == 0) {
        let (e, x2, y2) = backtrack_step(s, t, x, y);
        if x2 + y2 < x + y {
            lemma_star_pairs_targets(s, t, el, er, x2, y2);
            let sp = star_pairs(s, t, el, er, x, y);
            let rest = star_pairs(s, t, el, er, x2, y2);
            match e {
                Edit::Noop | Edit::Substitute(_) => {
                    assert forall|k: int| 0 <= k < sp.len() implies el.contains(
                        (#[trigger] sp[k]).0,
                    ) && er.contains(sp[k].1) by {
                        if k == 0 {
                            assert(el[x2 as int] == sp[k].0);
                            assert(er[y2 as int] == sp[k].1);
                        } else {
                            assert(sp[k] == rest[k - 1]);
                        }
                    }
                },
                _ => {},
            }
        }
    }
}

/// Matches two stars: labels their edges with the heuristic and derives candidate pairs from
/// an optimal edit script. Returns the distance and the candidates, from the tail of the edge
/// sequences towards the head.
pub fn match_star<H: EdgeDistanceHeuristic>(
    star0: Star,
    star1: Star,
    heuristics: &H,
    ctx: MatchContext<'_>,
) -> (r: (usize, Vec<(u64, u64)>))
    requires
        label_inputs_ok(star0.edges_spec(), star1.edges_spec(), ctx.lhs_sizes(), ctx.rhs_sizes()),
    ensures
        ({
            let el = star0.edges_spec();
            let er = star1.edges_spec();
            let labels = heuristics.labels_spec(el, er, ctx.lhs_sizes(), ctx.rhs_sizes());
            &&& r.0 == lev_distance(labels.0, labels.1)
            &&& r.1@ == star_pairs(labels.0, labels.1, el, er, el.len(), er.len())
        }),
{
    let e_l = star0.edges();
    let e_r = star1.edges();
    let ghost el = e_l@;
    let ghost er = e_r@;
    let mat = heuristics.label(e_l, e_r, ctx);
    let ghost ls = mat.source();
    let ghost rs = mat.target();
    proof {
        mat.lemma_wf();
    }
    let dist = mat.distance();
    let mut it = mat.edits();
    let mut i: usize = e_l.len();
    let mut j: usize = e_r.len();
    let mut out: Vec<(u64, u64)> = Vec::new();
    proof {
        it.lemma_bounds();
    }
    loop
        invariant
            it.inv(),
            it.matrix() == mat,
            mat.source() == ls,
            mat.target() == rs,
            ls.len() == el.len(),
            rs.len() == er.len(),
            e_l@ == el,
            e_r@ == er,
            i == it.position(),
            j == it.row(),
            out@ + star_pairs(ls, rs, el, er, i as nat, j as nat) == star_pairs(
                ls,
                rs,
                el,
                er,
                el.len(),
                er.len(),
            ),
        ensures
            out@ == star_pairs(ls, rs, el, er, el.len(), er.len()),
        decreases it.remaining().len(),
    {
        proof {
            it.lemma_bounds();
        }
        let ghost before = star_pairs(ls, rs, el, er, i as nat, j as nat);
        match it.next() {
            None => {
                proof {
                    assert(out@ =~= out@ + before);
                }
                break;
            },
            Some(edit) => {
                proof {
                    it.lemma_bounds();
                }
                match edit {
                    Edit::Noop | Edit::Substitute(_) => {
                        i -= 1;
                        j -= 1;
                        out.push((e_l[i], e_r[j]));
                        proof {
                            assert(before == seq![(el[i as int], er[j as int])] + star_pairs(
                                ls,
                                rs,
                                el,
                                er,
                                i as nat,
                                j as nat,
                            ));
                            assert(out@ + star_pairs(ls, rs, el, er, i as nat, j as nat)
                                =~= out@.drop_last() + before);
                        }
                    },
                    Edit::Delete => {
                        i -= 1;
                    },
                    Edit::Insert(_) => {
                        j -= 1;
                    },
                }
            },
        }
    }
    (dist, out)
}

} // verus!
