//! Lexical similarity of two token sequences: the Jaccard index of their token sets.

use vstd::prelude::*;

use crate::features::{contains_word, views};

verus! {

broadcast use {vstd::set::group_set_axioms, vstd::set_lib::group_set_properties, vstd::seq_lib::seq_to_set_is_finite};

/// The number of distinct tokens that `a` and `b` have in common.
pub open spec fn shared_count(a: Seq<Seq<char>>, b: Seq<Seq<char>>) -> nat {
    a.to_set().intersect(b.to_set()).len()
}

/// The number of distinct tokens that occur in `a` or in `b`.
pub open spec fn total_count(a: Seq<Seq<char>>, b: Seq<Seq<char>>) -> nat {
    a.to_set().union(b.to_set()).len()
}

/// A Jaccard index, kept as the exact fraction `shared / total`; it stands for 0 when `total`
/// is 0.
#[derive(Clone, Copy, Debug, PartialEq, Eq, Structural)]
pub struct Jaccard {
    /// Distinct tokens of both sides.
    pub shared: usize,
    /// Distinct tokens of the first side.
    pub distinct_a: usize,
    /// Distinct tokens of the second side.
    pub distinct_b: usize,
}

impl Jaccard {
    /// The common tokens are among the tokens of each side.
    pub open spec fn wf(&self) -> bool {
        self.shared <= self.distinct_a && self.shared <= self.distinct_b
    }

    /// Distinct tokens of either side: the denominator of the fraction.
    pub open spec fn total(&self) -> int {
        self.distinct_a + self.distinct_b - self.shared
    }
}

/// A similarity threshold, the fraction `num / den`.
#[derive(Clone, Copy, Debug, PartialEq, Eq, Structural)]
pub struct Threshold {
    /// Numerator.
    pub num: u32,
    /// Denominator.
    pub den: u32,
}

impl Threshold {
    /// Whether the fraction `shared / total` is strictly above this threshold; with `total`
    /// and `shared` both 0 the fraction stands for 0, which is above no threshold.
    pub open spec fn exceeded_by(&self, shared: int, total: int) -> bool {
        shared * self.den > self.num * total
    }

    /// Whether the similarity `j` is strictly above this threshold.
    pub fn is_exceeded_by(&self, j: &Jaccard) -> (r: bool)
        requires
            j.wf(),
        ensures
            r == self.exceeded_by(j.shared as int, j.total()),
    {
        let total: u128 = j.distinct_a as u128 + j.distinct_b as u128 - j.shared as u128;
        assert(j.shared * self.den <= 0x1_0000_0000_0000_0000 * 0x1_0000_0000) by (nonlinear_arith)
            requires
                j.shared < 0x1_0000_0000_0000_0000,
                self.den < 0x1_0000_0000,
        ;
        assert(self.num * total <= 0x1_0000_0000 * 0x2_0000_0000_0000_0000) by (nonlinear_arith)
            requires
                total < 0x2_0000_0000_0000_0000,
                self.num < 0x1_0000_0000,
        ;
        j.shared as u128 * self.den as u128 > self.num as u128 * total
    }
}

/// The default threshold of lexical grouping, one fifth.
pub fn lexical_threshold() -> (t: Threshold)
    ensures
        t.num == 1,
        t.den == 5,
{
    Threshold { num: 1, den: 5 }
}

/// The distinct strings of `v`, in order of first occurrence.
fn distinct(v: &Vec<String>) -> (r: Vec<String>)
    ensures
        views(r@).no_duplicates(),
        views(r@).to_set() == views(v@).to_set(),
        r.len() <= v.len(),
{
    let mut r: Vec<String> = Vec::new();
    let mut i: usize = 0;
    while i < v.len()
        invariant
            i <= v.len(),
            r.len() <= i,
            views(r@).no_duplicates(),
            views(r@).to_set() == views(v@).subrange(0, i as int).to_set(),
        decreases v.len() - i,
    {
        let ghost before = views(r@);
        assert(views(v@).subrange(0, i + 1) == views(v@).subrange(0, i as int).push(v@[i as int]@));
        proof {
            views(v@).subrange(0, i as int).lemma_push_to_set_commute(v@[i as int]@);
        }
        if !contains_word(&r, &v[i]) {
            let s = v[i].clone();
            r.push(s);
            assert(views(r@) == before.push(s@));
            proof {
                before.lemma_push_to_set_commute(s@);
            }
        } else {
            assert(before.to_set().contains(v@[i as int]@));
            assert(before.to_set().insert(v@[i as int]@) == before.to_set());
        }
        i = i + 1;
    }
    assert(views(v@).subrange(0, v.len() as int) == views(v@));
    r
}

/// How many of the distinct strings `xs` occur in `ys`.
fn count_common(xs: &Vec<String>, ys: &Vec<String>) -> (n: usize)
    requires
        views(xs@).no_duplicates(),
    ensures
        n == views(xs@).to_set().intersect(views(ys@).to_set()).len(),
{
    let ghost yset = views(ys@).to_set();
    let mut n: usize = 0;
    let mut i: usize = 0;
    while i < xs.len()
        invariant
            i <= xs.len(),
            n <= i,
            views(xs@).no_duplicates(),
            yset == views(ys@).to_set(),
            n == views(xs@).subrange(0, i as int).to_set().intersect(yset).len(),
        decreases xs.len() - i,
    {
        let ghost pre = views(xs@).subrange(0, i as int);
        let ghost x = xs@[i as int]@;
        assert(views(xs@).subrange(0, i + 1) == pre.push(x));
        proof {
            pre.lemma_push_to_set_commute(x);
        }
        assert(!pre.to_set().contains(x)) by {
            if pre.to_set().contains(x) {
                let k = choose|k: int| 0 <= k < pre.len() && pre[k] == x;
                assert(views(xs@)[k] == views(xs@)[i as int]);
            }
        }
        if contains_word(ys, &xs[i]) {
            assert(pre.to_set().insert(x).intersect(yset) == pre.to_set().intersect(yset).insert(x));
            n = n + 1;
        } else {
            assert(pre.to_set().insert(x).intersect(yset) == pre.to_set().intersect(yset));
        }
        i = i + 1;
    }
    assert(views(xs@).subrange(0, xs.len() as int) == views(xs@));
    n
}

/// The Jaccard index of the token sets of `features_a` and `features_b` (duplicates
/// collapsed): shared distinct tokens over all distinct tokens.
pub fn jaccard_similarity(features_a: &Vec<String>, features_b: &Vec<String>) -> (r: Jaccard)
    ensures
        r.wf(),
        r.shared == shared_count(views(features_a@), views(features_b@)),
        r.total() == total_count(views(features_a@), views(features_b@)),
{
    let da = distinct(features_a);
    let db = distinct(features_b);
    let shared: usize = count_common(&da, features_b);
    proof {
        views(da@).unique_seq_to_set();
        views(db@).unique_seq_to_set();
        let sa = views(features_a@).to_set();
        let sb = views(features_b@).to_set();
        assert(sa + sb == sa.union(sb));
        vstd::set_lib::lemma_len_intersect(sa, sb);
        vstd::set_lib::lemma_len_intersect(sb, sa);
        assert(sa.intersect(sb) == sb.intersect(sa));
    }
    Jaccard { shared, distinct_a: da.len(), distinct_b: db.len() }
}

/// Lexical similarity is symmetric: swapping the sides changes neither count of the fraction.
pub proof fn lemma_jaccard_symmetric(a: Seq<Seq<char>>, b: Seq<Seq<char>>)
    ensures
        shared_count(a, b) == shared_count(b, a),
        total_count(a, b) == total_count(b, a),
{
    assert(a.to_set().intersect(b.to_set()) == b.to_set().intersect(a.to_set()));
    assert(a.to_set().union(b.to_set()) == b.to_set().union(a.to_set()));
}

/// Two empty token sequences have similarity 0: nothing shared, nothing counted, and no
/// threshold is exceeded.
pub proof fn lemma_jaccard_empty(t: Threshold)
    ensures
        shared_count(seq![], seq![]) == 0,
        total_count(seq![], seq![]) == 0,
        !t.exceeded_by(0, 0),
{
    let e = Seq::<Seq<char>>::empty();
    e.lemma_cardinality_of_empty_set_is_0();
    assert(e.to_set().intersect(e.to_set()) == e.to_set());
    assert(e.to_set().union(e.to_set()) == e.to_set());
}

/// A non-empty token sequence has similarity 1 with itself: every counted token is shared.
pub proof fn lemma_jaccard_self(a: Seq<Seq<char>>)
    requires
        a.len() > 0,
    ensures
        shared_count(a, a) == total_count(a, a),
        total_count(a, a) > 0,
{
    a.lemma_cardinality_of_empty_set_is_0();
    assert(a.to_set().intersect(a.to_set()) == a.to_set());
    assert(a.to_set().union(a.to_set()) == a.to_set());
}

} // verus!
