//! A `CostSet` is the frontier of library selections kept for an e-class:
//! `LibSel`s in ascending order of full cost.

use vstd::prelude::*;
use crate::lib_sel::{LibSel, LibSelView, intro_view};

verus! {

/// Every selection in `s` is well formed.
pub open spec fn all_wf(s: Seq<LibSelView>) -> bool {
    forall|i: int| 0 <= i < s.len() ==> (#[trigger] s[i]).wf()
}

/// `s` is in ascending order of full cost.
pub open spec fn sorted_by_cost(s: Seq<LibSelView>) -> bool {
    forall|i: int, j: int| 0 <= i < j < s.len() ==> #[trigger] s[i].full_cost <= #[trigger] s[j].full_cost
}

/// No selection of `s` is dominated by one that comes before it.
pub open spec fn dominance_reduced(s: Seq<LibSelView>) -> bool {
    forall|i: int, j: int| 0 <= i < j < s.len() ==> !(#[trigger] s[i]).is_subset(#[trigger] s[j])
}

/// `x` inserted into `s` after the last element whose full cost is at most
/// that of `x`: a stable insertion by full cost.
pub open spec fn insert_sorted(s: Seq<LibSelView>, x: LibSelView) -> Seq<LibSelView>
    decreases s.len(),
{
    if s.len() == 0 {
        seq![x]
    } else if x.full_cost < s.last().full_cost {
        insert_sorted(s.drop_last(), x).push(s.last())
    } else {
        s.push(x)
    }
}

/// The elements of `xs`, in order, inserted into `s` by `insert_sorted`.
pub open spec fn insert_all(s: Seq<LibSelView>, xs: Seq<LibSelView>) -> Seq<LibSelView>
    decreases xs.len(),
{
    if xs.len() == 0 {
        s
    } else {
        insert_sorted(insert_all(s, xs.drop_last()), xs.last())
    }
}

/// `a` combined with each element of `bs`, in order.
pub open spec fn cross_row(a: LibSelView, bs: Seq<LibSelView>) -> Seq<LibSelView> {
    bs.map_values(|b: LibSelView| a.combine(b))
}

/// Every pair of an element of `xs` and one of `ys`, combined, in the order
/// of `xs` first.
pub open spec fn cross_pairs(xs: Seq<LibSelView>, ys: Seq<LibSelView>) -> Seq<LibSelView>
    decreases xs.len(),
{
    if xs.len() == 0 {
        Seq::empty()
    } else {
        cross_pairs(xs.drop_last(), ys) + cross_row(xs.last(), ys)
    }
}

/// The cross product of two cost sets, sorted stably by full cost.
pub open spec fn cross_view(xs: Seq<LibSelView>, ys: Seq<LibSelView>) -> Seq<LibSelView> {
    insert_all(Seq::empty(), cross_pairs(xs, ys))
}

/// Each element of `ts` with the library `lib` added at body cost `cost`.
pub open spec fn add_lib_row(ts: Seq<LibSelView>, lib: usize, cost: usize) -> Seq<LibSelView> {
    ts.map_values(|t: LibSelView| t.add_lib(lib, cost))
}

/// For each element of `costs` in order, every element of `ts` with `lib`
/// added at the expression cost of that element.
pub open spec fn add_lib_pairs(ts: Seq<LibSelView>, lib: usize, costs: Seq<LibSelView>) -> Seq<LibSelView>
    decreases costs.len(),
{
    if costs.len() == 0 {
        Seq::empty()
    } else {
        add_lib_pairs(ts, lib, costs.drop_last()) + add_lib_row(ts, lib, costs.last().expr_cost as usize)
    }
}

/// The selections of `ts` with library `lib` introduced, its body's cost
/// taken from each selection of `costs`, sorted stably by full cost.
pub open spec fn add_lib_view(ts: Seq<LibSelView>, lib: usize, costs: Seq<LibSelView>) -> Seq<LibSelView> {
    insert_all(Seq::empty(), add_lib_pairs(ts, lib, costs))
}

/// `s` without every element that a kept element before it dominates.
pub open spec fn unify_view(s: Seq<LibSelView>) -> Seq<LibSelView>
    decreases s.len(),
{
    if s.len() == 0 {
        s
    } else {
        let r = unify_view(s.drop_last());
        if exists|k: int| 0 <= k < r.len() && (#[trigger] r[k]).is_subset(s.last()) {
            r
        } else {
            r.push(s.last())
        }
    }
}

/// The first `n` elements of `s`, or all of them where there are fewer.
pub open spec fn prune_view(s: Seq<LibSelView>, n: nat) -> Seq<LibSelView> {
    if s.len() <= n {
        s
    } else {
        s.take(n as int)
    }
}

/// Every element of `s` with one more node in its expression.
pub open spec fn inc_view(s: Seq<LibSelView>) -> Seq<LibSelView> {
    s.map_values(|l: LibSelView| l.inc_cost())
}

/// The views of the elements of `v`.
pub open spec fn views(v: Seq<LibSel>) -> Seq<LibSelView> {
    v.map_values(|l: LibSel| l@)
}

/// Inserting `x` at a position `p` that splits `s` into the elements of cost
/// at most that of `x` and the later ones of greater cost is `insert_sorted`.
pub proof fn lemma_insert_sorted_at(s: Seq<LibSelView>, x: LibSelView, p: int)
    requires
        0 <= p <= s.len(),
        forall|k: int| p <= k < s.len() ==> x.full_cost < #[trigger] s[k].full_cost,
        p == 0 || s[p - 1].full_cost <= x.full_cost,
    ensures
        insert_sorted(s, x) == s.insert(p, x),
    decreases s.len(),
{
    if s.len() == 0 {
        assert(s.insert(p, x) =~= seq![x]);
    } else if x.full_cost < s.last().full_cost {
        let d = s.drop_last();
        assert(p < s.len());
        lemma_insert_sorted_at(d, x, p);
        assert(s.insert(p, x) =~= d.insert(p, x).push(s.last()));
    } else {
        assert(p == s.len());
        assert(s.insert(p, x) =~= s.push(x));
    }
}

/// Inserting one more element after `xs` is one more `insert_sorted`.
pub proof fn lemma_insert_all_push(s: Seq<LibSelView>, xs: Seq<LibSelView>, x: LibSelView)
    ensures
        insert_all(s, xs.push(x)) == insert_sorted(insert_all(s, xs), x),
{
    assert(xs.push(x).drop_last() =~= xs);
}

/// No selection of `s` has a full cost above `b`.
pub open spec fn bounded(s: Seq<LibSelView>, b: nat) -> bool {
    forall|k: int| 0 <= k < s.len() ==> #[trigger] s[k].full_cost <= b
}

/// The largest full cost in `s`, or zero for an empty `s`.
pub open spec fn max_full(s: Seq<LibSelView>) -> nat
    decreases s.len(),
{
    if s.len() == 0 {
        0
    } else if max_full(s.drop_last()) < s.last().full_cost {
        s.last().full_cost
    } else {
        max_full(s.drop_last())
    }
}

/// `max_full` bounds every full cost of `s`.
pub proof fn lemma_max_full(s: Seq<LibSelView>)
    ensures
        bounded(s, max_full(s)),
    decreases s.len(),
{
    if s.len() > 0 {
        lemma_max_full(s.drop_last());
        assert forall|k: int| 0 <= k < s.len() implies #[trigger] s[k].full_cost <= max_full(s) by {
            if k < s.len() - 1 {
                assert(s.drop_last()[k] == s[k]);
            }
        }
    }
}

/// Insertion keeps a bound that the new element meets.
pub proof fn lemma_bounded_insert_sorted(s: Seq<LibSelView>, x: LibSelView, b: nat)
    requires
        bounded(s, b),
        x.full_cost <= b,
    ensures
        bounded(insert_sorted(s, x), b),
    decreases s.len(),
{
    if s.len() > 0 && x.full_cost < s.last().full_cost {
        let d = s.drop_last();
        lemma_bounded_insert_sorted(d, x, b);
        let r = insert_sorted(d, x);
        assert forall|k: int| 0 <= k < r.push(s.last()).len() implies #[trigger] r.push(s.last())[k].full_cost <= b by {
            if k < r.len() {
                assert(r.push(s.last())[k] == r[k]);
            }
        }
    }
}

/// Inserting elements that meet a bound keeps it.
pub proof fn lemma_bounded_insert_all(s: Seq<LibSelView>, xs: Seq<LibSelView>, b: nat)
    requires
        bounded(s, b),
        bounded(xs, b),
    ensures
        bounded(insert_all(s, xs), b),
    decreases xs.len(),
{
    if xs.len() > 0 {
        lemma_bounded_insert_all(s, xs.drop_last(), b);
        lemma_bounded_insert_sorted(insert_all(s, xs.drop_last()), xs.last(), b);
    }
}

/// Each pair of the cross product costs at most the two bounds together.
pub proof fn lemma_bounded_cross(xs: Seq<LibSelView>, ys: Seq<LibSelView>, bx: nat, by: nat)
    requires
        all_wf(xs),
        all_wf(ys),
        bounded(xs, bx),
        bounded(ys, by),
    ensures
        bounded(cross_view(xs, ys), bx + by),
{
    lemma_bounded_cross_pairs(xs, ys, bx, by);
    lemma_bounded_insert_all(Seq::empty(), cross_pairs(xs, ys), bx + by);
}

proof fn lemma_bounded_cross_pairs(xs: Seq<LibSelView>, ys: Seq<LibSelView>, bx: nat, by: nat)
    requires
        all_wf(xs),
        all_wf(ys),
        bounded(xs, bx),
        bounded(ys, by),
    ensures
        bounded(cross_pairs(xs, ys), bx + by),
    decreases xs.len(),
{
    if xs.len() > 0 {
        let d = xs.drop_last();
        assert forall|k: int| 0 <= k < d.len() implies (#[trigger] d[k]).wf() && d[k].full_cost <= bx by {
            assert(d[k] == xs[k]);
        }
        lemma_bounded_cross_pairs(d, ys, bx, by);
        let row = cross_row(xs.last(), ys);
        assert forall|k: int| 0 <= k < row.len() implies #[trigger] row[k].full_cost <= bx + by by {
            crate::lib_sel::lemma_combine_cost(xs.last(), ys[k]);
        }
        let all = cross_pairs(d, ys) + row;
        assert forall|k: int| 0 <= k < all.len() implies #[trigger] all[k].full_cost <= bx + by by {
            if k < cross_pairs(d, ys).len() {
                assert(all[k] == cross_pairs(d, ys)[k]);
            } else {
                assert(all[k] == row[k - cross_pairs(d, ys).len()]);
            }
        }
    }
}

/// Removing dominated selections keeps a bound.
pub proof fn lemma_bounded_unify(s: Seq<LibSelView>, b: nat)
    requires
        bounded(s, b),
    ensures
        bounded(unify_view(s), b),
    decreases s.len(),
{
    if s.len() > 0 {
        let d = s.drop_last();
        assert forall|k: int| 0 <= k < d.len() implies #[trigger] d[k].full_cost <= b by {
            assert(d[k] == s[k]);
        }
        lemma_bounded_unify(d, b);
        let r = unify_view(d);
        assert forall|k: int| 0 <= k < r.push(s.last()).len() implies #[trigger] r.push(s.last())[k].full_cost <= b by {
            if k < r.len() {
                assert(r.push(s.last())[k] == r[k]);
            }
        }
    }
}

/// Each element of an insertion is the inserted one or was there before.
pub proof fn lemma_insert_sorted_members(s: Seq<LibSelView>, x: LibSelView)
    ensures
        forall|k: int|
            0 <= k < insert_sorted(s, x).len() ==> #[trigger] insert_sorted(s, x)[k] == x
                || s.contains(insert_sorted(s, x)[k]),
    decreases s.len(),
{
    if s.len() > 0 {
        let d = s.drop_last();
        lemma_insert_sorted_members(d, x);
        let r = insert_sorted(s, x);
        assert forall|k: int| 0 <= k < r.len() implies #[trigger] r[k] == x || s.contains(r[k]) by {
            if x.full_cost < s.last().full_cost {
                let q = insert_sorted(d, x);
                if k < q.len() {
                    assert(r[k] == q[k]);
                    if q[k] != x {
                        let m = choose|m: int| 0 <= m < d.len() && d[m] == q[k];
                        assert(s[m] == q[k]);
                    }
                } else {
                    assert(r[k] == s[s.len() - 1]);
                }
            } else {
                if k < s.len() {
                    assert(r[k] == s[k]);
                }
            }
        }
    }
}

/// Each element of `insert_all(s, xs)` is an element of `s` or of `xs`.
pub proof fn lemma_insert_all_members(s: Seq<LibSelView>, xs: Seq<LibSelView>)
    ensures
        forall|k: int|
            0 <= k < insert_all(s, xs).len() ==> s.contains(#[trigger] insert_all(s, xs)[k])
                || xs.contains(insert_all(s, xs)[k]),
    decreases xs.len(),
{
    if xs.len() > 0 {
        let d = xs.drop_last();
        lemma_insert_all_members(s, d);
        let q = insert_all(s, d);
        lemma_insert_sorted_members(q, xs.last());
        let r = insert_all(s, xs);
        assert forall|k: int| 0 <= k < r.len() implies s.contains(#[trigger] r[k]) || xs.contains(r[k]) by {
            if r[k] == xs.last() {
                assert(xs[xs.len() - 1] == r[k]);
            } else {
                let m = choose|m: int| 0 <= m < q.len() && q[m] == r[k];
                if !s.contains(q[m]) {
                    let n = choose|n: int| 0 <= n < d.len() && d[n] == q[m];
                    assert(xs[n] == r[k]);
                }
            }
        }
    }
}

/// `e` holds every library entry of `t` and names the library `lib`.
pub open spec fn extends_with(e: LibSelView, t: LibSelView, lib: usize) -> bool {
    &&& crate::lib_sel::has_lib(e.libs, lib)
    &&& forall|m: int| 0 <= m < t.libs.len() ==> e.libs.contains(#[trigger] t.libs[m])
}

/// `e` extends some selection of `ts` with the library `lib`.
pub open spec fn extends_some(e: LibSelView, ts: Seq<LibSelView>, lib: usize) -> bool {
    exists|j: int| 0 <= j < ts.len() && extends_with(e, #[trigger] ts[j], lib)
}

proof fn lemma_add_lib_pairs_extend(ts: Seq<LibSelView>, lib: usize, costs: Seq<LibSelView>)
    ensures
        forall|k: int|
            0 <= k < add_lib_pairs(ts, lib, costs).len() ==> extends_some(
                #[trigger] add_lib_pairs(ts, lib, costs)[k],
                ts,
                lib,
            ),
    decreases costs.len(),
{
    if costs.len() > 0 {
        let d = costs.drop_last();
        lemma_add_lib_pairs_extend(ts, lib, d);
        let p = add_lib_pairs(ts, lib, d);
        let c = costs.last().expr_cost as usize;
        let all = add_lib_pairs(ts, lib, costs);
        assert(all == p + add_lib_row(ts, lib, c));
        assert forall|k: int| 0 <= k < all.len() implies extends_some(#[trigger] all[k], ts, lib) by {
            if k < p.len() {
                assert(all[k] == p[k]);
            } else {
                let j = k - p.len();
                let t = ts[j];
                let e = t.add_lib(lib, c);
                assert(all[k] == e);
                if !crate::lib_sel::has_lib(t.libs, lib) {
                    assert(e.libs[t.libs.len() as int].0 == lib);
                    assert forall|m: int| 0 <= m < t.libs.len() implies e.libs.contains(#[trigger] t.libs[m]) by {
                        assert(e.libs[m] == t.libs[m]);
                    }
                } else {
                    assert forall|m: int| 0 <= m < t.libs.len() implies t.libs.contains(#[trigger] t.libs[m]) by {
                    }
                }
                assert(extends_with(e, ts[j], lib));
            }
        }
    }
}

/// Every selection that adding the library `lib` yields names `lib` and
/// holds every library entry of some selection it was made from.
pub proof fn lemma_add_lib_extends(ts: Seq<LibSelView>, lib: usize, costs: Seq<LibSelView>)
    ensures
        forall|k: int|
            0 <= k < add_lib_view(ts, lib, costs).len() ==> extends_some(
                #[trigger] add_lib_view(ts, lib, costs)[k],
                ts,
                lib,
            ),
{
    let xs = add_lib_pairs(ts, lib, costs);
    lemma_add_lib_pairs_extend(ts, lib, costs);
    lemma_insert_all_members(Seq::empty(), xs);
    let r = add_lib_view(ts, lib, costs);
    assert forall|k: int| 0 <= k < r.len() implies extends_some(#[trigger] r[k], ts, lib) by {
        let m = choose|m: int| 0 <= m < xs.len() && xs[m] == r[k];
        assert(extends_some(xs[m], ts, lib));
    }
}

/// Inserts `ls` into the ascending list `set` after every element of full
/// cost at most its own.
fn insert_by_cost(set: &mut Vec<LibSel>, ls: LibSel)
    requires
        sorted_by_cost(views(old(set)@)),
        all_wf(views(old(set)@)),
        ls@.wf(),
    ensures
        views(final(set)@) == insert_sorted(views(old(set)@), ls@),
        sorted_by_cost(views(final(set)@)),
        all_wf(views(final(set)@)),
{
    let ghost s = views(set@);
    let mut p: usize = set.len();
    while p > 0 && set[p - 1].full_cost() > ls.full_cost()
        invariant
            p <= set.len(),
            s == views(set@),
            forall|k: int| p <= k < s.len() ==> ls@.full_cost < #[trigger] s[k].full_cost,
        decreases p,
    {
        p = p - 1;
    }
    proof {
        lemma_insert_sorted_at(s, ls@, p as int);
    }
    let ghost x = ls@;
    set.insert(p, ls);
    assert(views(set@) =~= s.insert(p as int, x));
}

/// A frontier of library selections, ascending by full cost.
#[derive(Debug)]
pub struct CostSet {
    set: Vec<LibSel>,
}

impl View for CostSet {
    type V = Seq<LibSelView>;

    closed spec fn view(&self) -> Seq<LibSelView> {
        views(self.set@)
    }
}

impl Clone for CostSet {
    fn clone(&self) -> (r: CostSet)
        ensures
            r@ == self@,
    {
        let mut set: Vec<LibSel> = Vec::new();
        let mut i: usize = 0;
        while i < self.set.len()
            invariant
                i <= self.set.len(),
                views(set@) == views(self.set@).take(i as int),
            decreases self.set.len() - i,
        {
            let c = self.set[i].clone();
            assert(c@ == self.set@[i as int]@);
            let ghost prev = set@;
            set.push(c);
            assert(views(set@) =~= views(prev).push(c@));
            i += 1;
            assert(views(set@) =~= views(self.set@).take(i as int));
        }
        assert(views(self.set@).take(i as int) =~= views(self.set@));
        CostSet { set }
    }
}

impl CostSet {
    /// Every selection is well formed and the list ascends by full cost.
    pub open spec fn wf(&self) -> bool {
        &&& all_wf(self@)
        &&& sorted_by_cost(self@)
    }

    /// The cost set of a leaf: the one selection with no library and an
    /// expression of one node.
    pub fn intro_op() -> (r: CostSet)
        ensures
            r@ == seq![intro_view()],
            r.wf(),
            dominance_reduced(r@),
            r@.len() == 1,
    {
        let mut set: Vec<LibSel> = Vec::new();
        set.push(LibSel::intro_op());
        let r = CostSet { set };
        assert(r@ =~= seq![intro_view()]);
        r
    }

    /// The number of selections.
    pub fn len(&self) -> (r: usize)
        ensures
            r == self@.len(),
    {
        self.set.len()
    }

    /// The selection at position `i`.
    pub fn get(&self, i: usize) -> (r: &LibSel)
        requires
            i < self@.len(),
        ensures
            r@ == self@[i as int],
    {
        &self.set[i]
    }

    /// The selection of lowest full cost, which comes first; `None` for an
    /// empty set.
    pub fn best(&self) -> (r: Option<&LibSel>)
        ensures
            self@.len() == 0 ==> r is None,
            self@.len() > 0 ==> r is Some && r->Some_0@ == self@[0],
            self.wf() && r is Some ==> forall|i: int|
                0 <= i < self@.len() ==> r->Some_0@.full_cost <= #[trigger] self@[i].full_cost,
    {
        if self.set.len() == 0 {
            None
        } else {
            Some(&self.set[0])
        }
    }

    /// The largest full cost of a selection, or zero where there is none.
    pub fn max_full_cost(&self) -> (r: usize)
        ensures
            r == max_full(self@),
    {
        let mut m: usize = 0;
        let mut i: usize = 0;
        while i < self.set.len()
            invariant
                i <= self@.len(),
                m == max_full(self@.take(i as int)),
            decreases self@.len() - i,
        {
            proof {
                assert(self@.take(i + 1).drop_last() =~= self@.take(i as int));
                assert(self@[i as int] == self.set@[i as int]@);
            }
            if m < self.set[i].full_cost() {
                m = self.set[i].full_cost();
            }
            i += 1;
        }
        assert(self@.take(i as int) =~= self@);
        m
    }

    /// Every selection of `self` combined with every selection of `other`,
    /// sorted stably by full cost; nothing is removed.
    pub fn cross(&self, other: &CostSet) -> (r: CostSet)
        requires
            self.wf(),
            other.wf(),
            forall|i: int, j: int|
                0 <= i < self@.len() && 0 <= j < other@.len() ==> #[trigger] self@[i].full_cost
                    + #[trigger] other@[j].full_cost <= usize::MAX,
        ensures
            r@ == cross_view(self@, other@),
            r.wf(),
    {
        let ghost xs = self@;
        let ghost ys = other@;
        let mut set: Vec<LibSel> = Vec::new();
        let mut i: usize = 0;
        assert(cross_pairs(xs.take(0), ys) =~= Seq::<LibSelView>::empty());
        while i < self.set.len()
            invariant
                i <= xs.len(),
                xs == self@,
                ys == other@,
                self.wf(),
                other.wf(),
                forall|a: int, b: int|
                    0 <= a < xs.len() && 0 <= b < ys.len() ==> #[trigger] xs[a].full_cost
                        + #[trigger] ys[b].full_cost <= usize::MAX,
                views(set@) == insert_all(Seq::empty(), cross_pairs(xs.take(i as int), ys)),
                sorted_by_cost(views(set@)),
                all_wf(views(set@)),
            decreases xs.len() - i,
        {
            let ghost done = cross_pairs(xs.take(i as int), ys);
            let mut j: usize = 0;
            assert(done + cross_row(xs[i as int], ys.take(0)) =~= done);
            while j < other.set.len()
                invariant
                    i < xs.len(),
                    j <= ys.len(),
                    xs == self@,
                    ys == other@,
                    self.wf(),
                    other.wf(),
                    forall|a: int, b: int|
                        0 <= a < xs.len() && 0 <= b < ys.len() ==> #[trigger] xs[a].full_cost
                            + #[trigger] ys[b].full_cost <= usize::MAX,
                    views(set@) == insert_all(
                        Seq::empty(),
                        done + cross_row(xs[i as int], ys.take(j as int)),
                    ),
                    sorted_by_cost(views(set@)),
                    all_wf(views(set@)),
                decreases ys.len() - j,
            {
                proof {
                    assert(xs[i as int] == self.set@[i as int]@);
                    assert(ys[j as int] == other.set@[j as int]@);
                    assert(xs[i as int].wf());
                    assert(ys[j as int].wf());
                    assert(xs[i as int].full_cost + ys[j as int].full_cost <= usize::MAX);
                }
                let ls = self.set[i].combine(&other.set[j]);
                proof {
                    let before = done + cross_row(xs[i as int], ys.take(j as int));
                    assert(done + cross_row(xs[i as int], ys.take(j + 1)) =~= before.push(ls@));
                    lemma_insert_all_push(Seq::empty(), before, ls@);
                }
                insert_by_cost(&mut set, ls);
                j += 1;
            }
            proof {
                assert(ys.take(j as int) =~= ys);
                assert(xs.take(i + 1).drop_last() =~= xs.take(i as int));
                assert(xs.take(i + 1).last() == xs[i as int]);
            }
            i += 1;
        }
        assert(xs.take(i as int) =~= xs);
        CostSet { set }
    }

    /// For each selection of `cost` in order, every selection of `self` with
    /// the library `lib` added at the expression cost of that selection,
    /// sorted stably by full cost.
    pub fn add_lib(&self, lib: usize, cost: &CostSet) -> (r: CostSet)
        requires
            self.wf(),
            cost.wf(),
            forall|i: int, j: int|
                0 <= i < cost@.len() && 0 <= j < self@.len() ==> #[trigger] self@[j].full_cost
                    + #[trigger] cost@[i].expr_cost <= usize::MAX,
        ensures
            r@ == add_lib_view(self@, lib, cost@),
            r.wf(),
    {
        let ghost ts = self@;
        let ghost cs = cost@;
        let mut set: Vec<LibSel> = Vec::new();
        let mut i: usize = 0;
        assert(add_lib_pairs(ts, lib, cs.take(0)) =~= Seq::<LibSelView>::empty());
        while i < cost.set.len()
            invariant
                i <= cs.len(),
                ts == self@,
                cs == cost@,
                self.wf(),
                cost.wf(),
                forall|a: int, b: int|
                    0 <= a < cs.len() && 0 <= b < ts.len() ==> #[trigger] ts[b].full_cost
                        + #[trigger] cs[a].expr_cost <= usize::MAX,
                views(set@) == insert_all(Seq::empty(), add_lib_pairs(ts, lib, cs.take(i as int))),
                sorted_by_cost(views(set@)),
                all_wf(views(set@)),
            decreases cs.len() - i,
        {
            let ghost done = add_lib_pairs(ts, lib, cs.take(i as int));
            let ghost c = cs[i as int].expr_cost as usize;
            let mut j: usize = 0;
            assert(done + add_lib_row(ts.take(0), lib, c) =~= done);
            while j < self.set.len()
                invariant
                    i < cs.len(),
                    j <= ts.len(),
                    ts == self@,
                    cs == cost@,
                    c == cs[i as int].expr_cost as usize,
                    self.wf(),
                    cost.wf(),
                    forall|a: int, b: int|
                        0 <= a < cs.len() && 0 <= b < ts.len() ==> #[trigger] ts[b].full_cost
                            + #[trigger] cs[a].expr_cost <= usize::MAX,
                    views(set@) == insert_all(
                        Seq::empty(),
                        done + add_lib_row(ts.take(j as int), lib, c),
                    ),
                    sorted_by_cost(views(set@)),
                    all_wf(views(set@)),
                decreases ts.len() - j,
            {
                proof {
                    assert(ts[j as int] == self.set@[j as int]@);
                    assert(cs[i as int] == cost.set@[i as int]@);
                    assert(ts[j as int].wf());
                    assert(ts[j as int].full_cost + cs[i as int].expr_cost <= usize::MAX);
                }
                let ls = self.set[j].add_lib(lib, &cost.set[i]);
                proof {
                    let before = done + add_lib_row(ts.take(j as int), lib, c);
                    assert(done + add_lib_row(ts.take(j + 1), lib, c) =~= before.push(ls@));
                    lemma_insert_all_push(Seq::empty(), before, ls@);
                }
                insert_by_cost(&mut set, ls);
                j += 1;
            }
            proof {
                assert(ts.take(j as int) =~= ts);
                assert(cs.take(i + 1).drop_last() =~= cs.take(i as int));
                assert(cs.take(i + 1).last() == cs[i as int]);
            }
            i += 1;
        }
        assert(cs.take(i as int) =~= cs);
        CostSet { set }
    }

    /// Merges the ascending list `other` into `self`, element by element,
    /// without removing any.
    pub fn combine(&mut self, other: CostSet)
        requires
            old(self).wf(),
            other.wf(),
        ensures
            final(self)@ == insert_all(old(self)@, other@),
            final(self).wf(),
    {
        let ghost s0 = self@;
        let ghost ys = other@;
        let mut i: usize = 0;
        assert(ys.take(0) =~= Seq::<LibSelView>::empty());
        while i < other.set.len()
            invariant
                i <= ys.len(),
                ys == other@,
                other.wf(),
                self@ == insert_all(s0, ys.take(i as int)),
                self.wf(),
            decreases ys.len() - i,
        {
            let ls = other.set[i].clone();
            proof {
                assert(ys.take(i + 1) =~= ys.take(i as int).push(ls@));
                lemma_insert_all_push(s0, ys.take(i as int), ls@);
            }
            insert_by_cost(&mut self.set, ls);
            i += 1;
        }
        assert(ys.take(i as int) =~= ys);
    }

    /// Removes every selection that a kept selection before it dominates.
    pub fn unify(&mut self)
        requires
            old(self).wf(),
        ensures
            final(self)@ == unify_view(old(self)@),
            final(self).wf(),
            dominance_reduced(final(self)@),
    {
        let ghost s = self@;
        let mut kept: Vec<LibSel> = Vec::new();
        let mut i: usize = 0;
        assert(s.take(0) =~= Seq::<LibSelView>::empty());
        while i < self.set.len()
            invariant
                i <= s.len(),
                s == self@,
                self.wf(),
                views(kept@) == unify_view(s.take(i as int)),
                sorted_by_cost(views(kept@)),
                all_wf(views(kept@)),
                dominance_reduced(views(kept@)),
                i > 0 && kept@.len() > 0 ==> views(kept@).last().full_cost <= s[i - 1].full_cost,
            decreases s.len() - i,
        {
            let ghost r = views(kept@);
            let mut dominated = false;
            let mut k: usize = 0;
            while k < kept.len()
                invariant
                    i < s.len(),
                    s == self@,
                    r == views(kept@),
                    k <= r.len(),
                    dominated ==> exists|m: int| 0 <= m < r.len() && (#[trigger] r[m]).is_subset(s[i as int]),
                    !dominated ==> forall|m: int| 0 <= m < k ==> !(#[trigger] r[m]).is_subset(s[i as int]),
                decreases r.len() - k,
            {
                if kept[k].is_subset(&self.set[i]) {
                    assert(r[k as int].is_subset(s[i as int]));
                    dominated = true;
                }
                k += 1;
            }
            proof {
                assert(s.take(i + 1).drop_last() =~= s.take(i as int));
                assert(s.take(i + 1).last() == s[i as int]);
            }
            if !dominated {
                let c = self.set[i].clone();
                kept.push(c);
                assert(views(kept@) =~= r.push(s[i as int]));
            }
            i += 1;
        }
        assert(s.take(i as int) =~= s);
        self.set = kept;
    }

    /// Counts one more node in the expression of every selection.
    pub fn inc_cost(&mut self)
        requires
            old(self).wf(),
            forall|i: int| 0 <= i < old(self)@.len() ==> #[trigger] old(self)@[i].full_cost < usize::MAX,
        ensures
            final(self)@ == inc_view(old(self)@),
            final(self).wf(),
            dominance_reduced(old(self)@) ==> dominance_reduced(final(self)@),
    {
        let ghost s = self@;
        let mut out: Vec<LibSel> = Vec::new();
        let mut i: usize = 0;
        while i < self.set.len()
            invariant
                i <= s.len(),
                s == self@,
                self.wf(),
                forall|a: int| 0 <= a < s.len() ==> #[trigger] s[a].full_cost < usize::MAX,
                views(out@) == inc_view(s.take(i as int)),
            decreases s.len() - i,
        {
            let mut c = self.set[i].clone();
            proof {
                assert(s[i as int] == self.set@[i as int]@);
                assert(s[i as int].wf());
                assert(s[i as int].full_cost < usize::MAX);
            }
            c.inc_cost();
            let ghost prev = views(out@);
            out.push(c);
            assert(views(out@) =~= prev.push(c@));
            assert(inc_view(s.take(i + 1)) =~= inc_view(s.take(i as int)).push(s[i as int].inc_cost()));
            i += 1;
        }
        assert(s.take(i as int) =~= s);
        self.set = out;
    }

    /// Keeps only the first `n` selections, those of lowest full cost.
    pub fn prune(&mut self, n: usize)
        requires
            old(self).wf(),
        ensures
            final(self)@ == prune_view(old(self)@, n as nat),
            final(self).wf(),
            final(self)@.len() <= n,
            dominance_reduced(old(self)@) ==> dominance_reduced(final(self)@),
    {
        let ghost s = self@;
        if self.set.len() > n {
            self.set.truncate(n);
            assert(self@ =~= s.take(n as int));
        }
    }
}

} // verus!
