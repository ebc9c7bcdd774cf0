//! A `LibSel` is one point on the frontier of library choices for an e-class:
//! a set of library functions, the cost of the expression that uses them, and
//! the total cost once every library body is charged once.

use vstd::prelude::*;

verus! {

/// Whether some entry of `libs` names the library `id`.
pub open spec fn has_lib(libs: Seq<(usize, usize)>, id: usize) -> bool {
    exists|i: int| 0 <= i < libs.len() && #[trigger] libs[i].0 == id
}

/// No library id occurs twice in `libs`.
pub open spec fn ids_unique(libs: Seq<(usize, usize)>) -> bool {
    forall|i: int, j: int| 0 <= i < j < libs.len() ==> #[trigger] libs[i].0 != #[trigger] libs[j].0
}

/// The sum of the body costs of the entries of `libs`.
pub open spec fn libs_cost(libs: Seq<(usize, usize)>) -> nat
    decreases libs.len(),
{
    if libs.len() == 0 {
        0
    } else {
        libs_cost(libs.drop_last()) + (libs.last().1 as nat)
    }
}

/// The entries of `b` whose library is not already named in `a`, appended to
/// `a`: the union of two selections, where a library named by both keeps the
/// body cost it has in `a`.
pub open spec fn union_libs(a: Seq<(usize, usize)>, b: Seq<(usize, usize)>) -> Seq<(usize, usize)> {
    a + b.filter(|e: (usize, usize)| !has_lib(a, e.0))
}

/// The mathematical content of a `LibSel`.
pub struct LibSelView {
    /// Pairs of a library id and the cost of that library's body.
    pub libs: Seq<(usize, usize)>,
    /// The cost of the expression, library bodies not counted.
    pub expr_cost: nat,
    /// The cost of the expression plus each library body once.
    pub full_cost: nat,
}

impl LibSelView {
    /// Library ids are distinct and the full cost is the expression cost
    /// plus the cost of every library body.
    pub open spec fn wf(self) -> bool {
        &&& ids_unique(self.libs)
        &&& self.full_cost == self.expr_cost + libs_cost(self.libs)
    }

    /// `self` is uniformly at least as good as `other`: it uses no library
    /// that `other` does not use, and its expression costs no more.
    pub open spec fn is_subset(self, other: LibSelView) -> bool {
        &&& forall|i: int| 0 <= i < self.libs.len() ==> other.libs.contains(#[trigger] self.libs[i])
        &&& self.expr_cost <= other.expr_cost
    }

    /// The selection for a node whose two parts use `self` and `other`.
    pub open spec fn combine(self, other: LibSelView) -> LibSelView {
        let libs = union_libs(self.libs, other.libs);
        let expr_cost = self.expr_cost + other.expr_cost;
        LibSelView { libs, expr_cost, full_cost: expr_cost + libs_cost(libs) }
    }

    /// `self` with the library `lib`, of body cost `cost`, added; a library
    /// that is already there is neither added nor charged again.
    pub open spec fn add_lib(self, lib: usize, cost: usize) -> LibSelView {
        if has_lib(self.libs, lib) {
            self
        } else {
            LibSelView {
                libs: self.libs.push((lib, cost)),
                expr_cost: self.expr_cost,
                full_cost: self.full_cost + (cost as nat),
            }
        }
    }

    /// `self` with one more node in the expression.
    pub open spec fn inc_cost(self) -> LibSelView {
        LibSelView {
            libs: self.libs,
            expr_cost: self.expr_cost + 1,
            full_cost: self.full_cost + 1,
        }
    }
}

/// Taking one more entry of `s` adds that entry's cost.
pub proof fn lemma_libs_cost_take_step(s: Seq<(usize, usize)>, j: int)
    requires
        0 <= j < s.len(),
    ensures
        libs_cost(s.take(j + 1)) == libs_cost(s.take(j)) + (s[j].1 as nat),
{
    assert(s.take(j + 1).drop_last() =~= s.take(j));
}

/// A prefix of `s` costs no more than `s`.
pub proof fn lemma_libs_cost_prefix(s: Seq<(usize, usize)>, j: int)
    requires
        0 <= j <= s.len(),
    ensures
        libs_cost(s.take(j)) <= libs_cost(s),
    decreases s.len() - j,
{
    if j < s.len() {
        lemma_libs_cost_take_step(s, j);
        lemma_libs_cost_prefix(s, j + 1);
    } else {
        assert(s.take(j) =~= s);
    }
}

/// The cost of two lists of entries, one after the other, is the sum of
/// their costs.
pub proof fn lemma_libs_cost_append(a: Seq<(usize, usize)>, c: Seq<(usize, usize)>)
    ensures
        libs_cost(a + c) == libs_cost(a) + libs_cost(c),
    decreases c.len(),
{
    if c.len() > 0 {
        lemma_libs_cost_append(a, c.drop_last());
        assert((a + c).drop_last() =~= a + c.drop_last());
    } else {
        assert(a + c =~= a);
    }
}

/// Leaving entries out costs no more.
pub proof fn lemma_libs_cost_filter(b: Seq<(usize, usize)>, pred: spec_fn((usize, usize)) -> bool)
    ensures
        libs_cost(b.filter(pred)) <= libs_cost(b),
    decreases b.len(),
{
    reveal(Seq::filter);
    if b.len() > 0 {
        lemma_libs_cost_filter(b.drop_last(), pred);
        let f = b.drop_last().filter(pred);
        if pred(b.last()) {
            assert(f.push(b.last()).drop_last() =~= f);
        }
    }
}

/// Combining two well-formed selections costs at most their two full
/// costs together.
pub proof fn lemma_combine_cost(a: LibSelView, b: LibSelView)
    requires
        a.wf(),
        b.wf(),
    ensures
        a.combine(b).full_cost <= a.full_cost + b.full_cost,
{
    let pred = |e: (usize, usize)| !has_lib(a.libs, e.0);
    lemma_libs_cost_append(a.libs, b.libs.filter(pred));
    lemma_libs_cost_filter(b.libs, pred);
}

/// The selection of a leaf: no library, and an expression of one node.
pub open spec fn intro_view() -> LibSelView {
    LibSelView { libs: Seq::empty(), expr_cost: 1, full_cost: 1 }
}

/// A selection of library functions with the cost of the expression that
/// uses them and the total cost.
#[derive(Debug)]
pub struct LibSel {
    libs: Vec<(usize, usize)>,
    expr_cost: usize,
    full_cost: usize,
}

impl View for LibSel {
    type V = LibSelView;

    closed spec fn view(&self) -> LibSelView {
        LibSelView {
            libs: self.libs@,
            expr_cost: self.expr_cost as nat,
            full_cost: self.full_cost as nat,
        }
    }
}

/// A copy of `libs`, entry by entry.
fn copy_libs(libs: &Vec<(usize, usize)>) -> (r: Vec<(usize, usize)>)
    ensures
        r@ == libs@,
{
    let mut r: Vec<(usize, usize)> = Vec::new();
    let mut i: usize = 0;
    while i < libs.len()
        invariant
            i <= libs.len(),
            r@ == libs@.take(i as int),
        decreases libs.len() - i,
    {
        r.push(libs[i]);
        i += 1;
        assert(r@ =~= libs@.take(i as int));
    }
    assert(libs@.take(i as int) =~= libs@);
    r
}

/// Whether `libs` holds the entry `e`.
fn contains_entry(libs: &Vec<(usize, usize)>, e: (usize, usize)) -> (r: bool)
    ensures
        r == libs@.contains(e),
{
    let mut i: usize = 0;
    while i < libs.len()
        invariant
            i <= libs.len(),
            forall|k: int| 0 <= k < i ==> libs@[k] != e,
        decreases libs.len() - i,
    {
        if libs[i].0 == e.0 && libs[i].1 == e.1 {
            assert(libs@[i as int] == e);
            return true;
        }
        i += 1;
    }
    false
}

/// Whether some entry of `libs` names the library `id`.
fn contains_lib(libs: &Vec<(usize, usize)>, id: usize) -> (r: bool)
    ensures
        r == has_lib(libs@, id),
{
    let mut i: usize = 0;
    while i < libs.len()
        invariant
            i <= libs.len(),
            forall|k: int| 0 <= k < i ==> libs@[k].0 != id,
        decreases libs.len() - i,
    {
        if libs[i].0 == id {
            assert(libs@[i as int].0 == id);
            return true;
        }
        i += 1;
    }
    false
}

impl Clone for LibSel {
    fn clone(&self) -> (r: LibSel)
        ensures
            r@ == self@,
    {
        LibSel { libs: copy_libs(&self.libs), expr_cost: self.expr_cost, full_cost: self.full_cost }
    }
}

impl LibSel {
    /// The selection of a leaf.
    pub fn intro_op() -> (r: LibSel)
        ensures
            r@ == intro_view(),
            r@.wf(),
    {
        let r = LibSel { libs: Vec::new(), expr_cost: 1, full_cost: 1 };
        assert(r@.libs =~= Seq::<(usize, usize)>::empty());
        r
    }

    /// The library entries: pairs of a library id and its body cost.
    pub fn libs(&self) -> (r: &Vec<(usize, usize)>)
        ensures
            r@ == self@.libs,
    {
        &self.libs
    }

    /// The cost of the expression, library bodies not counted.
    pub fn expr_cost(&self) -> (r: usize)
        ensures
            r == self@.expr_cost,
    {
        self.expr_cost
    }

    /// The cost of the expression plus each library body once.
    pub fn full_cost(&self) -> (r: usize)
        ensures
            r == self@.full_cost,
    {
        self.full_cost
    }

    /// Whether `self` is uniformly at least as good as `other`.
    pub fn is_subset(&self, other: &LibSel) -> (r: bool)
        ensures
            r == self@.is_subset(other@),
    {
        if self.expr_cost > other.expr_cost {
            return false;
        }
        let mut i: usize = 0;
        while i < self.libs.len()
            invariant
                i <= self.libs.len(),
                forall|k: int| 0 <= k < i ==> other.libs@.contains(#[trigger] self.libs@[k]),
            decreases self.libs.len() - i,
        {
            if !contains_entry(&other.libs, self.libs[i]) {
                assert(!other@.libs.contains(self@.libs[i as int]));
                return false;
            }
            i += 1;
        }
        true
    }

    /// The selection for a node whose two parts use `self` and `other`: the
    /// union of the libraries, and the sum of the expression costs.
    pub fn combine(&self, other: &LibSel) -> (r: LibSel)
        requires
            self@.wf(),
            other@.wf(),
            self@.full_cost + other@.full_cost <= usize::MAX,
        ensures
            r@ == self@.combine(other@),
            r@.wf(),
    {
        let ghost a = self.libs@;
        let ghost b = other.libs@;
        let ghost pred = |e: (usize, usize)| !has_lib(a, e.0);
        let mut libs = copy_libs(&self.libs);
        let mut libs_sum: usize = self.full_cost - self.expr_cost;
        let mut j: usize = 0;
        assert(b.take(0).filter(pred) =~= Seq::<(usize, usize)>::empty()) by {
            reveal(Seq::filter);
        }
        assert(libs@ =~= a + b.take(0).filter(pred));
        while j < other.libs.len()
            invariant
                j <= b.len(),
                a == self.libs@,
                b == other.libs@,
                pred == (|e: (usize, usize)| !has_lib(a, e.0)),
                ids_unique(a),
                ids_unique(b),
                libs@ == a + b.take(j as int).filter(pred),
                libs_sum == libs_cost(libs@),
                libs_cost(libs@) <= libs_cost(a) + libs_cost(b.take(j as int)),
                libs_cost(a) + libs_cost(b) <= usize::MAX,
                ids_unique(libs@),
                forall|k: int|
                    0 <= k < libs@.len() ==> has_lib(a, #[trigger] libs@[k].0) || has_lib(
                        b.take(j as int),
                        libs@[k].0,
                    ),
            decreases b.len() - j,
        {
            let e = other.libs[j];
            proof {
                lemma_libs_cost_take_step(b, j as int);
                lemma_libs_cost_prefix(b, j as int + 1);
                reveal(Seq::filter);
                assert(b.take(j + 1).drop_last() =~= b.take(j as int));
                assert(b.take(j + 1).last() == e);
            }
            let ghost old_libs = libs@;
            if !contains_lib(&self.libs, e.0) {
                proof {
                    assert forall|k: int| 0 <= k < old_libs.len() implies old_libs[k].0 != e.0 by {
                        if has_lib(b.take(j as int), old_libs[k].0) {
                            let m = choose|m: int|
                                0 <= m < j && #[trigger] b.take(j as int)[m].0 == old_libs[k].0;
                            assert(b[m].0 != b[j as int].0);
                        }
                    }
                }
                libs.push(e);
                libs_sum = libs_sum + e.1;
                proof {
                    assert(libs@.drop_last() =~= old_libs);
                    assert(libs@ =~= a + b.take(j + 1).filter(pred));
                    assert forall|k: int|
                        0 <= k < libs@.len() implies has_lib(a, #[trigger] libs@[k].0) || has_lib(
                        b.take(j + 1),
                        libs@[k].0,
                    ) by {
                        if k < old_libs.len() {
                            if has_lib(b.take(j as int), old_libs[k].0) {
                                let m = choose|m: int|
                                    0 <= m < j && #[trigger] b.take(j as int)[m].0 == old_libs[k].0;
                                assert(b.take(j + 1)[m].0 == old_libs[k].0);
                            }
                        } else {
                            assert(b.take(j + 1)[j as int].0 == libs@[k].0);
                        }
                    }
                }
            } else {
                proof {
                    assert(libs@ =~= a + b.take(j + 1).filter(pred));
                    assert forall|k: int|
                        0 <= k < libs@.len() implies has_lib(a, #[trigger] libs@[k].0) || has_lib(
                        b.take(j + 1),
                        libs@[k].0,
                    ) by {
                        if has_lib(b.take(j as int), libs@[k].0) {
                            let m = choose|m: int|
                                0 <= m < j && #[trigger] b.take(j as int)[m].0 == libs@[k].0;
                            assert(b.take(j + 1)[m].0 == libs@[k].0);
                        }
                    }
                }
            }
            j += 1;
        }
        assert(b.take(j as int) =~= b);
        let expr_cost = self.expr_cost + other.expr_cost;
        LibSel { libs, expr_cost, full_cost: expr_cost + libs_sum }
    }

    /// `self` with the library `lib` added, its body costing what the
    /// expression of `cost` costs; a library already there is not charged
    /// again.
    pub fn add_lib(&self, lib: usize, cost: &LibSel) -> (r: LibSel)
        requires
            self@.wf(),
            self@.full_cost + cost@.expr_cost <= usize::MAX,
        ensures
            r@ == self@.add_lib(lib, cost@.expr_cost as usize),
            r@.wf(),
    {
        let mut libs = copy_libs(&self.libs);
        if contains_lib(&libs, lib) {
            LibSel { libs, expr_cost: self.expr_cost, full_cost: self.full_cost }
        } else {
            libs.push((lib, cost.expr_cost));
            assert(libs@.drop_last() =~= self.libs@);
            LibSel { libs, expr_cost: self.expr_cost, full_cost: self.full_cost + cost.expr_cost }
        }
    }

    /// Counts one more node in the expression.
    pub fn inc_cost(&mut self)
        requires
            old(self)@.wf(),
            old(self)@.full_cost < usize::MAX,
        ensures
            final(self)@ == old(self)@.inc_cost(),
            final(self)@.wf(),
    {
        self.expr_cost = self.expr_cost + 1;
        self.full_cost = self.full_cost + 1;
    }
}

} // verus!
