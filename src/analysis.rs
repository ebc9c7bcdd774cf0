//! The beam-search e-class analysis: how the cost set of an e-node is made
//! from the cost sets of its children, and how two e-classes' cost sets are
//! merged.

use vstd::prelude::*;
use crate::cost_set::{
    CostSet, add_lib_view, bounded, cross_view, dominance_reduced, inc_view, max_full, prune_view,
    unify_view, lemma_bounded_cross, lemma_bounded_unify,
    lemma_max_full,
};
use crate::lib_sel::{LibSelView, intro_view};

verus! {

/// The views of a list of cost sets.
pub open spec fn set_views(cs: Seq<CostSet>) -> Seq<Seq<LibSelView>> {
    cs.map_values(|c: CostSet| c@)
}

/// The sum of the largest full costs of the cost sets in `cs`.
pub open spec fn cost_bound(cs: Seq<Seq<LibSelView>>) -> nat
    decreases cs.len(),
{
    if cs.len() == 0 {
        0
    } else {
        cost_bound(cs.drop_last()) + max_full(cs.last())
    }
}

/// The children's cost sets crossed from left to right, each intermediate
/// result cut to its `inter` best selections.
pub open spec fn cross_fold(cs: Seq<Seq<LibSelView>>, inter: nat) -> Seq<LibSelView>
    decreases cs.len(),
{
    if cs.len() == 0 {
        Seq::empty()
    } else if cs.len() == 1 {
        cs[0]
    } else {
        prune_view(cross_view(cross_fold(cs.drop_last(), inter), cs.last()), inter)
    }
}

/// The cost set of an e-node that binds no library, from its children's
/// cost sets: one node for a leaf; the child's set, one node dearer, for a
/// unary node; otherwise the children crossed, reduced, cut to `beam`
/// selections, and one node dearer.
pub open spec fn make_view(cs: Seq<Seq<LibSelView>>, beam: nat, inter: nat) -> Seq<LibSelView> {
    if cs.len() == 0 {
        seq![intro_view()]
    } else if cs.len() == 1 {
        inc_view(cs[0])
    } else {
        inc_view(prune_view(unify_view(cross_fold(cs, inter)), beam))
    }
}

/// The cost set of a library binding `lib` whose value has the cost set
/// `value` and whose body has the cost set `body`.
pub open spec fn make_lib_view(
    lib: usize,
    value: Seq<LibSelView>,
    body: Seq<LibSelView>,
    beam: nat,
) -> Seq<LibSelView> {
    prune_view(unify_view(add_lib_view(body, lib, value)), beam)
}

/// The cost set of `to` after the cost set `from` of another e-class was
/// merged into it.
pub open spec fn merge_view(to: Seq<LibSelView>, from: Seq<LibSelView>, beam: nat) -> Seq<LibSelView> {
    prune_view(unify_view(crate::cost_set::insert_all(to, from)), beam)
}

/// The parameters of the analysis.
#[derive(Debug, Clone, Copy)]
pub struct PartialLibCost {
    /// The number of selections kept per e-class.
    beam_size: usize,
    /// The number of selections kept between two crossings of children.
    inter_beam_size: usize,
    /// The number of libraries learned per step.
    lps: usize,
    /// Whether the extra partial-order reduction is asked for.
    extra_por: bool,
}

impl PartialLibCost {
    /// The analysis that keeps `beam_size` selections per e-class, and as
    /// many between two crossings.
    pub fn new(beam_size: usize) -> (r: PartialLibCost)
        ensures
            r.beam_size() == beam_size,
            r.inter_beam_size() == beam_size,
            r.lps() == 1,
            !r.extra_por(),
    {
        PartialLibCost { beam_size, inter_beam_size: beam_size, lps: 1, extra_por: false }
    }

    /// The analysis with every parameter given.
    pub fn with_params(beam_size: usize, inter_beam_size: usize, lps: usize, extra_por: bool) -> (r:
        PartialLibCost)
        ensures
            r.beam_size() == beam_size,
            r.inter_beam_size() == inter_beam_size,
            r.lps() == lps,
            r.extra_por() == extra_por,
    {
        PartialLibCost { beam_size, inter_beam_size, lps, extra_por }
    }

    /// The number of selections kept per e-class.
    #[verifier::when_used_as_spec(spec_beam_size)]
    pub fn beam_size(&self) -> (r: usize)
        ensures
            r == self.spec_beam_size(),
    {
        self.beam_size
    }

    pub closed spec fn spec_beam_size(&self) -> usize {
        self.beam_size
    }

    /// The number of selections kept between two crossings.
    #[verifier::when_used_as_spec(spec_inter_beam_size)]
    pub fn inter_beam_size(&self) -> (r: usize)
        ensures
            r == self.spec_inter_beam_size(),
    {
        self.inter_beam_size
    }

    pub closed spec fn spec_inter_beam_size(&self) -> usize {
        self.inter_beam_size
    }

    /// The number of libraries learned per step.
    #[verifier::when_used_as_spec(spec_lps)]
    pub fn lps(&self) -> (r: usize)
        ensures
            r == self.spec_lps(),
    {
        self.lps
    }

    pub closed spec fn spec_lps(&self) -> usize {
        self.lps
    }

    /// Whether the extra partial-order reduction is asked for.
    #[verifier::when_used_as_spec(spec_extra_por)]
    pub fn extra_por(&self) -> (r: bool)
        ensures
            r == self.spec_extra_por(),
    {
        self.extra_por
    }

    pub closed spec fn spec_extra_por(&self) -> bool {
        self.extra_por
    }

    /// Merges the cost set `from` of another e-class into `to`: the two are
    /// combined, reduced and cut to the beam size.
    pub fn merge(&self, to: &mut CostSet, from: CostSet)
        requires
            old(to).wf(),
            from.wf(),
        ensures
            final(to)@ == merge_view(old(to)@, from@, self.beam_size() as nat),
            final(to).wf(),
            dominance_reduced(final(to)@),
            final(to)@.len() <= self.beam_size(),
    {
        to.combine(from);
        to.unify();
        to.prune(self.beam_size);
    }

    /// The cost set of a library binding: the body's selections with the
    /// library `lib` added at each cost of its value, reduced and cut to the
    /// beam size.
    pub fn make_lib(&self, lib: usize, value: &CostSet, body: &CostSet) -> (r: CostSet)
        requires
            value.wf(),
            body.wf(),
            max_full(value@) + max_full(body@) <= usize::MAX,
        ensures
            r@ == make_lib_view(lib, value@, body@, self.beam_size() as nat),
            r.wf(),
            dominance_reduced(r@),
            r@.len() <= self.beam_size(),
    {
        proof {
            lemma_max_full(value@);
            lemma_max_full(body@);
            assert forall|i: int, j: int|
                0 <= i < value@.len() && 0 <= j < body@.len() implies #[trigger] body@[j].full_cost
                + #[trigger] value@[i].expr_cost <= usize::MAX by {
                assert(value@[i].wf());
            }
        }
        let mut e = body.add_lib(lib, value);
        e.unify();
        e.prune(self.beam_size);
        e
    }

    /// The cost set of an e-node that binds no library, from the cost sets
    /// of its children in order.
    pub fn make(&self, children: &[CostSet]) -> (r: CostSet)
        requires
            forall|i: int| 0 <= i < children@.len() ==> (#[trigger] children@[i]).wf(),
            cost_bound(set_views(children@)) + 1 <= usize::MAX,
        ensures
            r@ == make_view(
                set_views(children@),
                self.beam_size() as nat,
                self.inter_beam_size() as nat,
            ),
            r.wf(),
            children@.len() != 1 ==> dominance_reduced(r@),
            children@.len() == 1 && dominance_reduced(children@[0]@) ==> dominance_reduced(r@),
            children@.len() >= 2 ==> r@.len() <= self.beam_size(),
    {
        let ghost cs = set_views(children@);
        if children.len() == 0 {
            return CostSet::intro_op();
        }
        if children.len() == 1 {
            let mut e = children[0].clone();
            proof {
                lemma_max_full(cs[0]);
                assert(cs.take(1).drop_last() =~= Seq::<Seq<LibSelView>>::empty());
                lemma_cost_bound_prefix(cs, 1);
            }
            e.inc_cost();
            return e;
        }
        let mut e = children[0].clone();
        let mut i: usize = 1;
        proof {
            assert(cs.take(1).drop_last() =~= Seq::<Seq<LibSelView>>::empty());
            lemma_max_full(cs[0]);
        }
        while i < children.len()
            invariant
                1 <= i <= cs.len(),
                cs == set_views(children@),
                forall|k: int| 0 <= k < children@.len() ==> (#[trigger] children@[k]).wf(),
                cost_bound(cs) + 1 <= usize::MAX,
                e@ == cross_fold(cs.take(i as int), self.inter_beam_size() as nat),
                e.wf(),
                bounded(e@, cost_bound(cs.take(i as int))),
            decreases cs.len() - i,
        {
            proof {
                let t = cs.take(i + 1);
                assert(t.drop_last() =~= cs.take(i as int));
                assert(t.last() == cs[i as int]);
                assert(children@[i as int].wf());
                lemma_max_full(cs[i as int]);
                lemma_cost_bound_prefix(cs, i + 1);
                assert forall|a: int, b: int|
                    0 <= a < e@.len() && 0 <= b < children@[i as int]@.len() implies #[trigger] e@[a].full_cost
                    + #[trigger] children@[i as int]@[b].full_cost <= usize::MAX by {
                }
                lemma_bounded_cross(e@, cs[i as int], cost_bound(cs.take(i as int)), max_full(cs[i as int]));
            }
            e = e.cross(&children[i]);
            e.prune(self.inter_beam_size);
            i += 1;
        }
        proof {
            assert(cs.take(i as int) =~= cs);
            lemma_bounded_unify(e@, cost_bound(cs));
        }
        e.unify();
        e.prune(self.beam_size);
        e.inc_cost();
        e
    }
}

/// The sum of the bounds of a prefix is at most the sum of all.
pub proof fn lemma_cost_bound_prefix(cs: Seq<Seq<LibSelView>>, j: int)
    requires
        0 <= j <= cs.len(),
    ensures
        cost_bound(cs.take(j)) <= cost_bound(cs),
    decreases cs.len() - j,
{
    if j < cs.len() {
        assert(cs.take(j + 1).drop_last() =~= cs.take(j));
        lemma_cost_bound_prefix(cs, j + 1);
    } else {
        assert(cs.take(j) =~= cs);
    }
}

} // verus!
