//! A graded bank: values filed under integer grades, taken out lowest grade
//! first, in insertion order within a grade.
use std::collections::BTreeMap;
use vstd::prelude::*;
use vstd::std_specs::btree::increasing_seq;
use vstd::std_specs::cmp::OrdSpec;
use vstd::std_specs::iter::IteratorSpec;

verus! {

broadcast use vstd::std_specs::btree::group_btree_axioms;

/// The grades in strictly increasing order.
pub open spec fn increasing(s: Seq<usize>) -> bool {
    forall|i: int, j: int| 0 <= i < j < s.len() ==> s[i] < s[j]
}

/// The number of values filed under the grades of `gs`.
pub open spec fn total_in<V>(m: Map<usize, Seq<V>>, gs: Seq<usize>) -> nat
    decreases gs.len(),
{
    if gs.len() == 0 {
        0
    } else {
        total_in(m, gs.drop_last()) + m[gs.last()].len()
    }
}

/// The groups after the additions of `ops` (grade, value) to an empty bank,
/// each as `add` files it.
pub open spec fn filed<V>(ops: Seq<(usize, V)>) -> Map<usize, Seq<V>>
    decreases ops.len(),
{
    if ops.len() == 0 {
        Map::empty()
    } else {
        let m = filed(ops.drop_last());
        let g = ops.last().0;
        m.insert(
            g,
            if m.contains_key(g) {
                m[g]
            } else {
                Seq::empty()
            }.push(ops.last().1),
        )
    }
}

/// The values that `ops` adds under grade `g`, oldest first.
pub open spec fn added_under<V>(ops: Seq<(usize, V)>, g: usize) -> Seq<V>
    decreases ops.len(),
{
    if ops.len() == 0 {
        Seq::empty()
    } else if ops.last().0 == g {
        added_under(ops.drop_last(), g).push(ops.last().1)
    } else {
        added_under(ops.drop_last(), g)
    }
}

/// Frontier ordering: after any interleaving of additions, a grade is filed
/// exactly when something was added under it, it holds exactly the values
/// added under it, oldest first, and the grades listed in increasing order
/// start with the lowest grade filed.
pub proof fn lemma_frontier_order<V>(ops: Seq<(usize, V)>, gs: Seq<usize>)
    requires
        increasing(gs),
        gs.to_set() == filed(ops).dom(),
    ensures
        forall|g: usize|
            filed(ops).contains_key(g) <==> exists|i: int| 0 <= i < ops.len() && (#[trigger] ops[i]).0 == g,
        forall|g: usize| #[trigger] filed(ops).contains_key(g) ==> filed(ops)[g] == added_under(ops, g),
        forall|g: usize| #[trigger] filed(ops).contains_key(g) ==> gs.len() > 0 && gs[0] <= g,
{
    lemma_filed(ops);
    assert forall|g: usize| #[trigger] filed(ops).contains_key(g) implies gs.len() > 0 && gs[0]
        <= g by {
        assert(gs.to_set().contains(g));
        let k = choose|k: int| 0 <= k < gs.len() && gs[k] == g;
        if k > 0 {
            assert(gs[0] < gs[k]);
        }
    }
}

proof fn lemma_filed<V>(ops: Seq<(usize, V)>)
    ensures
        forall|g: usize|
            filed(ops).contains_key(g) <==> exists|i: int| 0 <= i < ops.len() && (#[trigger] ops[i]).0 == g,
        forall|g: usize| #[trigger] filed(ops).contains_key(g) ==> filed(ops)[g] == added_under(ops, g),
        forall|g: usize| !(#[trigger] filed(ops).contains_key(g)) ==> added_under(ops, g).len() == 0,
    decreases ops.len(),
{
    if ops.len() > 0 {
        let p = ops.drop_last();
        lemma_filed(p);
        assert forall|g: usize| #[trigger] filed(ops).contains_key(g) implies exists|i: int|
            0 <= i < ops.len() && (#[trigger] ops[i]).0 == g by {
            if g != ops.last().0 {
                assert(filed(p).contains_key(g));
                let i = choose|i: int| 0 <= i < p.len() && (#[trigger] p[i]).0 == g;
                assert(0 <= i < p.len());
                assert(ops[i] == p[i]);
            } else {
                assert(ops[ops.len() - 1].0 == g);
            }
        }
        assert forall|i: int| 0 <= i < ops.len() implies filed(ops).contains_key(
            (#[trigger] ops[i]).0,
        ) by {
            if i < p.len() {
                assert(p[i] == ops[i]);
                assert(filed(p).contains_key(p[i].0));
            }
        }
        assert forall|g: usize| !(#[trigger] filed(ops).contains_key(g)) implies added_under(
            ops,
            g,
        ).len() == 0 by {
            assert(g != ops.last().0);
            assert(!filed(p).contains_key(g));
        }
        assert forall|g: usize| #[trigger] filed(ops).contains_key(g) implies filed(ops)[g]
            == added_under(ops, g) by {
            if g != ops.last().0 {
                assert(filed(p).contains_key(g));
            } else if !filed(p).contains_key(g) {
                assert(added_under(p, g) =~= Seq::<V>::empty());
            }
        }
    }
}

/// Where the grades still to visit begin: the `k`-th grade, or past them all.
pub open spec fn cut_at(grades: Seq<usize>, k: int) -> int {
    if k < grades.len() {
        grades[k] as int
    } else {
        usize::MAX + 1
    }
}


/// The values that `keep` answers `true` for.
pub open spec fn kept_by<V, F: Fn(&V) -> bool>(keep: F) -> spec_fn(V) -> bool {
    |v: V| keep.ensures((&v,), true)
}

/// The bank with each group filtered by `p`, order kept, and grades left
/// empty removed.
pub open spec fn filtered<V>(m: Map<usize, Seq<V>>, p: spec_fn(V) -> bool) -> Map<usize, Seq<V>> {
    Map::new(|g: usize| m.contains_key(g) && m[g].filter(p).len() > 0, |g: usize| m[g].filter(p))
}

/// Values grouped by grade; each group keeps insertion order.
pub struct Grader<V> {
    data: BTreeMap<usize, Vec<V>>,
}

impl<V> View for Grader<V> {
    type V = Map<usize, Seq<V>>;

    closed spec fn view(&self) -> Map<usize, Seq<V>> {
        self.data@.map_values(|row: Vec<V>| row@)
    }
}

impl<V> Grader<V> {
    /// No grade holds an empty group.
    pub closed spec fn wf(&self) -> bool {
        forall|g: usize| #[trigger] self.data@.contains_key(g) ==> self.data@[g]@.len() > 0
    }

    pub fn new() -> (r: Self)
        ensures
            r.wf(),
            r@ == Map::<usize, Seq<V>>::empty(),
    {
        let r = Grader { data: BTreeMap::new() };
        assert(r@ =~= Map::<usize, Seq<V>>::empty());
        r
    }

    /// Removes every value.
    pub fn clear(&mut self)
        ensures
            final(self).wf(),
            final(self)@ == Map::<usize, Seq<V>>::empty(),
    {
        self.data.clear();
        assert(self@ =~= Map::<usize, Seq<V>>::empty());
    }

    /// The number of values under all grades (at most `usize::MAX`).
    pub fn len(&self) -> (r: usize)
        ensures
            exists|gs: Seq<usize>|
                increasing(gs) && gs.to_set() == self@.dom() && r as nat == if total_in(self@, gs)
                    <= usize::MAX {
                    total_in(self@, gs)
                } else {
                    usize::MAX as nat
                },
    {
        let grades = self.grades();
        let mut sum: usize = 0;
        let mut i: usize = 0;
        while i < grades.len()
            invariant
                i <= grades@.len(),
                increasing(grades@),
                grades@.to_set() == self@.dom(),
                sum as nat == if total_in(self@, grades@.subrange(0, i as int)) <= usize::MAX {
                    total_in(self@, grades@.subrange(0, i as int))
                } else {
                    usize::MAX as nat
                },
            decreases grades@.len() - i,
        {
            let g = grades[i];
            proof {
                assert(grades@.to_set().contains(g));
                assert(self.data@.contains_key(g));
            }
            let n = match self.data.get(&g) {
                Some(row) => row.len(),
                None => 0,
            };
            proof {
                let next = grades@.subrange(0, i + 1);
                assert(next.drop_last() =~= grades@.subrange(0, i as int));
                assert(n == self@[g].len());
            }
            sum = sum.saturating_add(n);
            i = i + 1;
        }
        assert(grades@.subrange(0, grades@.len() as int) =~= grades@);
        sum
    }

    /// The number of grades that hold values.
    pub fn grade_num(&self) -> (r: usize)
        ensures
            r == self@.dom().len(),
    {
        assert(self@.dom() =~= self.data@.dom());
        self.data.len()
    }

    /// Files `value` last under `grade`.
    pub fn add(&mut self, grade: usize, value: V)
        requires
            old(self).wf(),
        ensures
            final(self).wf(),
            final(self)@ == old(self)@.insert(
                grade,
                if old(self)@.contains_key(grade) {
                    old(self)@[grade]
                } else {
                    Seq::empty()
                }.push(value),
            ),
    {
        let mut row = match self.data.remove(&grade) {
            Some(row) => row,
            None => Vec::new(),
        };
        row.push(value);
        self.data.insert(grade, row);
        proof {
            assert(self@ =~= old(self)@.insert(
                grade,
                if old(self)@.contains_key(grade) {
                    old(self)@[grade]
                } else {
                    Seq::empty()
                }.push(value),
            ));
        }
    }

    /// Takes out the first `limit` values of `grade`; the others stay under it.
    /// A grade left empty is removed.
    pub fn split_off(&mut self, grade: usize, limit: usize) -> (r: Option<Vec<V>>)
        requires
            old(self).wf(),
        ensures
            final(self).wf(),
            !old(self)@.contains_key(grade) ==> r is None && final(self)@ == old(self)@,
            old(self)@.contains_key(grade) ==> old(self)@[grade].len() <= usize::MAX,
            old(self)@.contains_key(grade) ==> ({
                let row = old(self)@[grade];
                &&& r matches Some(taken)
                &&& taken@ == row.take(if limit < row.len() { limit as int } else { row.len() as int })
                &&& final(self)@ == if limit < row.len() {
                    old(self)@.insert(grade, row.skip(limit as int))
                } else {
                    old(self)@.remove(grade)
                }
            }),
    {
        let mut row = match self.data.remove(&grade) {
            Some(row) => row,
            None => {
                assert(self.data@ =~= old(self).data@);
                return None;
            },
        };
        if row.len() > limit {
            let rest = row.split_off(limit);
            self.data.insert(grade, rest);
            proof {
                assert(self@ =~= old(self)@.insert(grade, old(self)@[grade].skip(limit as int)));
            }
        } else {
            proof {
                assert(self@ =~= old(self)@.remove(grade));
                assert(row@ =~= row@.take(row@.len() as int));
            }
        }
        Some(row)
    }

    /// Keeps only the values that `keep` answers `true` for, in their order;
    /// grades left empty are removed.
    pub fn retain<F: Fn(&V) -> bool>(&mut self, keep: F)
        requires
            old(self).wf(),
            forall|v: &V| #[trigger] keep.requires((v,)),
            forall|v: &V, a: bool, b: bool|
                #[trigger] keep.ensures((v,), a) && #[trigger] keep.ensures((v,), b) ==> a == b,
        ensures
            final(self).wf(),
            final(self)@ == filtered(old(self)@, kept_by(keep)),
    {
        let ghost m0 = self@;
        let ghost p = kept_by(keep);
        let grades = self.grades();
        let mut kept: BTreeMap<usize, Vec<V>> = BTreeMap::new();
        let mut k: usize = 0;
        while k < grades.len()
            invariant
                k <= grades@.len(),
                increasing(grades@),
                grades@.to_set() == m0.dom(),
                p == kept_by(keep),
                forall|v: &V| #[trigger] keep.requires((v,)),
                forall|v: &V, a: bool, b: bool|
                    #[trigger] keep.ensures((v,), a) && #[trigger] keep.ensures((v,), b) ==> a == b,
                forall|g: usize|
                    #![trigger kept@.contains_key(g)]
                    kept@.contains_key(g) == (m0.contains_key(g) && g < cut_at(grades@, k as int)
                        && m0[g].filter(p).len() > 0),
                forall|g: usize| #[trigger] kept@.contains_key(g) ==> kept@[g]@ == m0[g].filter(p)
                    && kept@[g]@.len() > 0,
                forall|g: usize|
                    #![trigger self.data@.contains_key(g)]
                    m0.contains_key(g) && g >= cut_at(grades@, k as int) ==> self.data@.contains_key(g)
                        && self.data@[g]@ == m0[g],
            decreases grades@.len() - k,
        {
            let g = grades[k];
            proof {
                assert(grades@.to_set().contains(g));
            }
            let mut row = match self.data.remove(&g) {
                Some(row) => row,
                None => Vec::new(),
            };
            let ghost rowv = row@;
            let mut reversed: Vec<V> = Vec::new();
            while row.len() > 0
                invariant
                    row@ + reversed@.reverse() == rowv,
                decreases row@.len(),
            {
                let ghost r0 = row@;
                let ghost v0 = reversed@;
                let v = row.pop().unwrap();
                reversed.push(v);
                proof {
                    assert(reversed@.reverse() =~= seq![v] + v0.reverse());
                    assert(r0 =~= row@.push(v));
                    assert(row@ + reversed@.reverse() =~= r0 + v0.reverse());
                }
            }
            let mut out: Vec<V> = Vec::new();
            proof {
                reveal(Seq::filter);
                assert(row@ =~= Seq::<V>::empty());
                assert(reversed@.reverse() =~= rowv);
                assert(rowv.take(0).filter(p) =~= Seq::<V>::empty());
            }
            while reversed.len() > 0
                invariant
                    reversed@.reverse() == rowv.skip(rowv.len() - reversed@.len()),
                    reversed@.len() <= rowv.len(),
                    out@ == rowv.take(rowv.len() - reversed@.len()).filter(p),
                    p == kept_by(keep),
                    forall|v: &V| #[trigger] keep.requires((v,)),
                    forall|v: &V, a: bool, b: bool|
                        #[trigger] keep.ensures((v,), a) && #[trigger] keep.ensures((v,), b) ==> a
                            == b,
                decreases reversed@.len(),
            {
                let ghost i = rowv.len() - reversed@.len();
                let ghost v0 = reversed@;
                let v = reversed.pop().unwrap();
                proof {
                    assert(v0.reverse()[0] == v);
                    assert(rowv.skip(i)[0] == rowv[i]);
                    assert(reversed@.reverse() =~= rowv.skip(i + 1)) by {
                        assert(v0.reverse().drop_first() =~= reversed@.reverse());
                        assert(rowv.skip(i).drop_first() =~= rowv.skip(i + 1));
                    }
                }
                let ghost before = out@;
                let b = keep(&v);
                proof {
                    reveal(Seq::filter);
                    assert(v == rowv[i]);
                    assert(p(v) == b);
                    let t = rowv.take(i + 1);
                    assert(t.drop_last() =~= rowv.take(i));
                    assert(t.last() == v);
                }
                if b {
                    out.push(v);
                }
            }
            proof {
                assert(rowv.take(rowv.len() as int) =~= rowv);
            }
            if out.len() > 0 {
                kept.insert(g, out);
            }
            proof {
                let cut1 = cut_at(grades@, k + 1);
                if k + 1 < grades@.len() {
                    assert(grades@[k as int] < grades@[k + 1]);
                }
                assert forall|q: usize| #[trigger] m0.contains_key(q) && q < cut1 && q != g implies q
                    < g by {
                    assert(grades@.to_set().contains(q));
                    let j = choose|j: int| 0 <= j < grades@.len() && grades@[j] == q;
                    if j > k {
                        assert(grades@[k + 1] <= grades@[j]) by {
                            if k + 1 < j {
                                assert(grades@[k + 1] < grades@[j]);
                            }
                        }
                    }
                    if j < k {
                        assert(grades@[j] < grades@[k as int]);
                    }
                }
                assert forall|q: usize| #[trigger] m0.contains_key(q) && q >= cut1 implies q > g by {
                    if k + 1 < grades@.len() {
                    } else {
                    }
                }
            }
            k = k + 1;
        }
        self.data = kept;
        proof {
            assert forall|g: usize| #[trigger] self@.contains_key(g) implies self.data@[g]@.len() > 0 by {
            }
            assert(self@ =~= filtered(m0, p));
        }
    }

    /// The grades that hold values, lowest first.
    pub fn grades(&self) -> (r: Vec<usize>)
        ensures
            increasing(r@),
            r@.to_set() == self@.dom(),
    {
        let mut r: Vec<usize> = Vec::new();
        let keys = self.data.keys();
        let ghost ks = IteratorSpec::remaining(&keys).map_values(|x: &usize| *x);
        proof {
            broadcast use vstd::laws_cmp::group_laws_cmp;
            broadcast use vstd::std_specs::btree::axiom_spec_keys_iter;
            assert(IteratorSpec::remaining(&keys).unref().to_set() == self.data@.dom());
            assert(increasing_seq(IteratorSpec::remaining(&keys)));
        }
        for k in it: keys
            invariant
                ks == it.seq().map_values(|x: &usize| *x),
                r@ == it.seq().take(it.index() as int).map_values(|x: &usize| *x),
        {
            r.push(*k);
            proof {
                assert(it.seq().take(it.index() + 1).map_values(|x: &usize| *x) =~= r@);
            }
        }
        assert(r@ =~= ks);
        proof {
            let rem = IteratorSpec::remaining(&keys);
            broadcast use vstd::laws_cmp::group_laws_cmp;
            broadcast use vstd::std_specs::btree::axiom_increasing_seq_meaning;
            assert(vstd::laws_cmp::obeys_cmp::<&usize>());
            assert(increasing_seq(rem));
            vstd::std_specs::btree::axiom_increasing_seq_meaning::<&usize>(rem);
            assert(r@.len() == rem.len());
            assert forall|i: int, j: int| 0 <= i < j < r@.len() implies r@[i] < r@[j] by {
                assert(0 <= i < j < rem.len());
                assert(<&usize as OrdSpec>::cmp_spec(&rem[i], &rem[j]) is Less);
                assert(r@[i] == *rem[i]);
                assert(r@[j] == *rem[j]);
            }
            assert(ks =~= rem.unref());
            assert(self@.dom() =~= self.data@.dom());
        }
        r
    }
}

} // verus!
