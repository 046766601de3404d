//! Single-pass greedy clustering around anchors.
//!
//! Records are taken in order; each record that no group holds yet opens a group as its
//! anchor, and the group takes every other unheld record that is related to the anchor.
//! Membership is decided against the anchor alone, never between the members.

use vstd::prelude::*;

use crate::features::views;
use crate::naming::{best_name, find_best_group_name, pooled, token_lists};
use crate::similarity::{jaccard_similarity, shared_count, total_count, Threshold};

verus! {

/// The rows of a matrix of flags. Record `i` is related to record `j` when row `i` holds
/// `true` at column `j`.
pub open spec fn flags(m: Seq<Vec<bool>>) -> Seq<Seq<bool>> {
    m.map_values(|row: Vec<bool>| row@)
}

/// A matrix of flags with `n` rows of `n` columns.
pub open spec fn is_square(m: Seq<Seq<bool>>, n: int) -> bool {
    m.len() == n && forall|i: int| 0 <= i < n ==> #[trigger] m[i].len() == n
}

/// No record is held by a group: every owner is -1.
pub open spec fn unheld(n: nat) -> Seq<int> {
    Seq::new(n, |j: int| -1int)
}

/// Record `j` joins the group that anchor `i` opens when the owners are `owner`.
pub open spec fn joins(rel: Seq<Seq<bool>>, owner: Seq<int>, i: int, j: int) -> bool {
    j != i && owner[j] == -1 && rel[i][j]
}

/// The records below `m` that join the group of anchor `i`, in increasing order.
pub open spec fn scan(rel: Seq<Seq<bool>>, owner: Seq<int>, i: int, m: int) -> Seq<int>
    decreases m,
{
    if m <= 0 {
        seq![]
    } else if joins(rel, owner, i, m - 1) {
        scan(rel, owner, i, m - 1).push(m - 1)
    } else {
        scan(rel, owner, i, m - 1)
    }
}

/// The group that anchor `i` opens: the anchor, then the records that join it.
pub open spec fn group_at(rel: Seq<Seq<bool>>, owner: Seq<int>, i: int) -> Seq<int> {
    seq![i] + scan(rel, owner, i, owner.len() as int)
}

/// The owners once anchor `i` has gathered its group.
pub open spec fn assign(rel: Seq<Seq<bool>>, owner: Seq<int>, i: int) -> Seq<int> {
    Seq::new(
        owner.len(),
        |j: int|
            if j == i || joins(rel, owner, i, j) {
                i
            } else {
                owner[j]
            },
    )
}

/// The owner of each of `n` records (-1 while none) and the groups opened so far, once the
/// first `k` records have been considered.
pub open spec fn greedy(rel: Seq<Seq<bool>>, n: nat, k: nat) -> (Seq<int>, Seq<Seq<int>>)
    decreases k,
{
    if k == 0 {
        (unheld(n), seq![])
    } else {
        let (owner, groups) = greedy(rel, n, (k - 1) as nat);
        let i = k - 1;
        if owner[i] == -1 {
            (assign(rel, owner, i), groups.push(group_at(rel, owner, i)))
        } else {
            (owner, groups)
        }
    }
}

/// The groups of `n` records under `rel`, in the order of their anchors.
pub open spec fn clusters_of(rel: Seq<Seq<bool>>, n: nat) -> Seq<Seq<int>> {
    greedy(rel, n, n).1
}

proof fn lemma_scan_range(rel: Seq<Seq<bool>>, owner: Seq<int>, i: int, m: int)
    ensures
        forall|x: int|
            0 <= x < scan(rel, owner, i, m).len() ==> 0 <= #[trigger] scan(rel, owner, i, m)[x] < m
                && joins(rel, owner, i, scan(rel, owner, i, m)[x]),
        forall|x: int, y: int|
            0 <= x < y < scan(rel, owner, i, m).len() ==> #[trigger] scan(rel, owner, i, m)[x]
                < #[trigger] scan(rel, owner, i, m)[y],
    decreases m,
{
    if m > 0 {
        lemma_scan_range(rel, owner, i, m - 1);
        let prev = scan(rel, owner, i, m - 1);
        let cur = scan(rel, owner, i, m);
        assert forall|x: int| 0 <= x < cur.len() implies 0 <= #[trigger] cur[x] < m && joins(
            rel,
            owner,
            i,
            cur[x],
        ) by {
            if x < prev.len() {
                assert(cur[x] == prev[x]);
            }
        }
        assert forall|x: int, y: int| 0 <= x < y < cur.len() implies #[trigger] cur[x]
            < #[trigger] cur[y] by {
            assert(cur[x] == prev[x]);
            if y < prev.len() {
                assert(cur[y] == prev[y]);
            }
        }
    }
}

proof fn lemma_scan_contains(rel: Seq<Seq<bool>>, owner: Seq<int>, i: int, m: int, b: int)
    requires
        0 <= b < m,
        joins(rel, owner, i, b),
    ensures
        scan(rel, owner, i, m).contains(b),
    decreases m,
{
    if b < m - 1 {
        lemma_scan_contains(rel, owner, i, m - 1, b);
        let prev = scan(rel, owner, i, m - 1);
        let k = choose|k: int| 0 <= k < prev.len() && prev[k] == b;
        if joins(rel, owner, i, m - 1) {
            assert(scan(rel, owner, i, m)[k] == b);
        }
    } else {
        assert(scan(rel, owner, i, m).last() == b);
    }
}

proof fn lemma_greedy_range(rel: Seq<Seq<bool>>, n: nat, k: nat)
    requires
        k <= n,
    ensures
        greedy(rel, n, k).0.len() == n,
        forall|g: int, x: int|
            0 <= g < greedy(rel, n, k).1.len() && 0 <= x < greedy(rel, n, k).1[g].len()
                ==> 0 <= #[trigger] greedy(rel, n, k).1[g][x] < n,
    decreases k,
{
    if k > 0 {
        lemma_greedy_range(rel, n, (k - 1) as nat);
        let (owner, groups) = greedy(rel, n, (k - 1) as nat);
        let i = k - 1;
        lemma_scan_range(rel, owner, i, n as int);
        let grp = group_at(rel, owner, i);
        assert forall|x: int| 0 <= x < grp.len() implies 0 <= #[trigger] grp[x] < n by {
            if x > 0 {
                assert(grp[x] == scan(rel, owner, i, n as int)[x - 1]);
            }
        }
    }
}

proof fn lemma_first_group(rel: Seq<Seq<bool>>, n: nat, k: nat)
    requires
        1 <= k <= n,
    ensures
        greedy(rel, n, k).1.len() >= 1,
        greedy(rel, n, k).1[0] == group_at(rel, unheld(n), 0),
    decreases k,
{
    let prev = greedy(rel, n, (k - 1) as nat);
    if k > 1 {
        lemma_first_group(rel, n, (k - 1) as nat);
        if prev.0[k - 1] == -1 {
            assert(greedy(rel, n, k).1 == prev.1.push(group_at(rel, prev.0, k - 1)));
        }
    } else {
        assert(prev == (unheld(n), Seq::<Seq<int>>::empty()));
        assert(unheld(n)[0] == -1);
    }
}

/// Some group of `groups` holds `x`.
pub open spec fn held(groups: Seq<Seq<int>>, x: int) -> bool {
    exists|g: int| 0 <= g < groups.len() && (#[trigger] groups[g]).contains(x)
}

/// What holds of the owners and the groups once the first `k` of `n` records have been
/// considered.
spec fn greedy_inv(rel: Seq<Seq<bool>>, n: nat, k: int, owner: Seq<int>, groups: Seq<Seq<int>>) -> bool {
    &&& owner.len() == n
    &&& forall|j: int| 0 <= j < k ==> #[trigger] owner[j] != -1
    &&& forall|j: int| 0 <= j < n ==> -1 <= #[trigger] owner[j] < k
    &&& forall|g: int|
        0 <= g < groups.len() ==> (#[trigger] groups[g]).len() >= 1 && 0 <= groups[g][0] < k
            && groups[g].no_duplicates()
    &&& forall|g1: int, g2: int|
        0 <= g1 < g2 < groups.len() ==> (#[trigger] groups[g1])[0] < (#[trigger] groups[g2])[0]
    &&& forall|g: int, p: int|
        0 <= g < groups.len() && 0 <= p < groups[g].len() ==> 0 <= #[trigger] groups[g][p] < n
    &&& forall|g: int, x: int|
        0 <= g < groups.len() && 0 <= x < n ==> ((#[trigger] groups[g]).contains(x) <==> #[trigger] owner[x]
            == groups[g][0])
    &&& forall|x: int|
        0 <= x < n && #[trigger] owner[x] != -1 ==> exists|g: int|
            0 <= g < groups.len() && (#[trigger] groups[g])[0] == owner[x]
    &&& forall|g: int, p: int|
        0 <= g < groups.len() && 0 < p < groups[g].len() ==> rel[groups[g][0]][#[trigger] groups[g][p]]
}

proof fn lemma_greedy_inv(rel: Seq<Seq<bool>>, n: nat, k: nat)
    requires
        k <= n,
    ensures
        greedy_inv(rel, n, k as int, greedy(rel, n, k).0, greedy(rel, n, k).1),
    decreases k,
{
    if k > 0 {
        lemma_greedy_inv(rel, n, (k - 1) as nat);
        let (owner, groups) = greedy(rel, n, (k - 1) as nat);
        let i = k - 1;
        if owner[i] == -1 {
            let o2 = assign(rel, owner, i);
            let sc = scan(rel, owner, i, n as int);
            let grp = group_at(rel, owner, i);
            let gs2 = groups.push(grp);
            lemma_scan_range(rel, owner, i, n as int);
            assert(greedy(rel, n, k) == (o2, gs2));
            assert forall|x: int| 0 <= x < grp.len() implies 0 <= #[trigger] grp[x] < n by {
                if x > 0 {
                    assert(grp[x] == sc[x - 1]);
                }
            }
            assert(grp.no_duplicates()) by {
                assert forall|x: int, y: int| 0 <= x < y < grp.len() implies grp[x] != grp[y] by {
                    assert(grp[y] == sc[y - 1]);
                    if x > 0 {
                        assert(grp[x] == sc[x - 1]);
                    }
                }
            }
            assert forall|x: int| 0 <= x < n implies (grp.contains(x) <==> o2[x] == i) by {
                if o2[x] == i && x != i {
                    assert(joins(rel, owner, i, x));
                    lemma_scan_contains(rel, owner, i, n as int, x);
                    let p = choose|p: int| 0 <= p < sc.len() && sc[p] == x;
                    assert(grp[p + 1] == x);
                }
                if x == i {
                    assert(grp[0] == x);
                }
                if grp.contains(x) {
                    let p = choose|p: int| 0 <= p < grp.len() && grp[p] == x;
                    if p > 0 {
                        assert(grp[p] == sc[p - 1]);
                    }
                }
            }
            assert forall|p: int| 0 < p < grp.len() implies rel[grp[0]][#[trigger] grp[p]] by {
                assert(grp[p] == sc[p - 1]);
            }
            assert forall|g: int, x: int|
                0 <= g < gs2.len() && 0 <= x < n implies ((#[trigger] gs2[g]).contains(x)
                <==> #[trigger] o2[x] == gs2[g][0]) by {
                if g < groups.len() {
                    assert(gs2[g] == groups[g]);
                    assert(groups[g].contains(x) <==> owner[x] == groups[g][0]);
                }
            }
            assert forall|x: int| 0 <= x < n && #[trigger] o2[x] != -1 implies exists|g: int|
                0 <= g < gs2.len() && (#[trigger] gs2[g])[0] == o2[x] by {
                if o2[x] == i {
                    assert(gs2[groups.len() as int][0] == i);
                } else {
                    assert(owner[x] != -1);
                    let g = choose|g: int| 0 <= g < groups.len() && (#[trigger] groups[g])[0] == owner[x];
                    assert(gs2[g] == groups[g]);
                }
            }
            assert forall|g1: int, g2: int| 0 <= g1 < g2 < gs2.len() implies (#[trigger] gs2[g1])[0]
                < (#[trigger] gs2[g2])[0] by {
                assert(gs2[g1] == groups[g1]);
                if g2 < groups.len() {
                    assert(gs2[g2] == groups[g2]);
                }
            }
            assert forall|g: int, p: int|
                0 <= g < gs2.len() && 0 <= p < gs2[g].len() implies 0 <= #[trigger] gs2[g][p] < n by {
                if g < groups.len() {
                    assert(gs2[g] == groups[g]);
                }
            }
            assert forall|g: int, p: int|
                0 <= g < gs2.len() && 0 < p < gs2[g].len() implies rel[gs2[g][0]][#[trigger] gs2[g][p]] by {
                if g < groups.len() {
                    assert(gs2[g] == groups[g]);
                }
            }
        }
    }
}

/// Each record lands in exactly one group, and only once; each group opens with its
/// anchor, and every other member of it is related to that anchor.
pub proof fn lemma_clusters_partition(rel: Seq<Seq<bool>>, n: nat)
    ensures
        forall|x: int| 0 <= x < n ==> #[trigger] held(clusters_of(rel, n), x),
        forall|g1: int, g2: int, x: int|
            0 <= g1 < clusters_of(rel, n).len() && 0 <= g2 < clusters_of(rel, n).len()
                && #[trigger] clusters_of(rel, n)[g1].contains(x) && #[trigger] clusters_of(
                rel,
                n,
            )[g2].contains(x) ==> g1 == g2,
        forall|g: int| 0 <= g < clusters_of(rel, n).len() ==> (#[trigger] clusters_of(rel, n)[g]).no_duplicates(),
        forall|g: int, p: int|
            0 <= g < clusters_of(rel, n).len() && 0 < p < clusters_of(rel, n)[g].len() ==> rel[clusters_of(
                rel,
                n,
            )[g][0]][#[trigger] clusters_of(rel, n)[g][p]],
{
    lemma_greedy_inv(rel, n, n);
    let (owner, groups) = greedy(rel, n, n);
    assert forall|x: int| 0 <= x < n implies #[trigger] held(groups, x) by {
        assert(owner[x] != -1);
        let g = choose|g: int| 0 <= g < groups.len() && (#[trigger] groups[g])[0] == owner[x];
        assert(groups[g].contains(x));
    }
    assert forall|g1: int, g2: int, x: int|
        0 <= g1 < groups.len() && 0 <= g2 < groups.len() && #[trigger] groups[g1].contains(x)
            && #[trigger] groups[g2].contains(x) implies g1 == g2 by {
        let p = choose|p: int| 0 <= p < groups[g1].len() && groups[g1][p] == x;
        assert(0 <= groups[g1][p] < n);
        assert(owner[x] == groups[g1][0]);
        assert(owner[x] == groups[g2][0]);
        if g1 < g2 {
            assert(groups[g1][0] < groups[g2][0]);
        } else if g2 < g1 {
            assert(groups[g2][0] < groups[g1][0]);
        }
    }
}

/// Every group holds records among `0..n` only.
pub proof fn lemma_clusters_in_range(rel: Seq<Seq<bool>>, n: nat)
    ensures
        forall|g: int, x: int|
            0 <= g < clusters_of(rel, n).len() && 0 <= x < clusters_of(rel, n)[g].len()
                ==> 0 <= #[trigger] clusters_of(rel, n)[g][x] < n,
{
    lemma_greedy_range(rel, n, n);
}

/// Membership is decided against the anchor alone: the first record opens the first group,
/// and any two records related to it both land in that group, whatever the relation says of
/// the two of them.
pub proof fn lemma_anchor_gathers(rel: Seq<Seq<bool>>, n: nat, b: int, c: int)
    requires
        is_square(rel, n as int),
        0 < b < n,
        0 < c < n,
        rel[0][b],
        rel[0][c],
    ensures
        clusters_of(rel, n).len() >= 1,
        clusters_of(rel, n)[0][0] == 0,
        clusters_of(rel, n)[0].contains(b),
        clusters_of(rel, n)[0].contains(c),
{
    lemma_first_group(rel, n, n);
    let owner = unheld(n);
    let grp = group_at(rel, owner, 0);
    lemma_scan_contains(rel, owner, 0, n as int, b);
    lemma_scan_contains(rel, owner, 0, n as int, c);
    let sc = scan(rel, owner, 0, n as int);
    let kb = choose|k: int| 0 <= k < sc.len() && sc[k] == b;
    let kc = choose|k: int| 0 <= k < sc.len() && sc[k] == c;
    assert(grp[kb + 1] == b);
    assert(grp[kc + 1] == c);
}

/// The indices of a group as integers.
pub open spec fn ints(g: Seq<usize>) -> Seq<int> {
    g.map_values(|x: usize| x as int)
}

/// The groups as sequences of integers.
pub open spec fn groups_view(gs: Seq<Vec<usize>>) -> Seq<Seq<int>> {
    gs.map_values(|g: Vec<usize>| ints(g@))
}

/// Groups the records `0..n` under the relation that `related` gives (see the module
/// documentation, and `lemma_clusters_partition` for what the groups are like).
pub fn cluster_indices(related: &Vec<Vec<bool>>) -> (r: Vec<Vec<usize>>)
    requires
        is_square(flags(related@), related.len() as int),
    ensures
        groups_view(r@) == clusters_of(flags(related@), related.len() as nat),
{
    let n: usize = related.len();
    let ghost rel = flags(related@);
    let mut assigned: Vec<bool> = Vec::new();
    let mut k: usize = 0;
    while k < n
        invariant
            k <= n,
            assigned.len() == k,
            forall|j: int| 0 <= j < k ==> !assigned@[j],
        decreases n - k,
    {
        assigned.push(false);
        k = k + 1;
    }
    let ghost mut owner = unheld(n as nat);
    let mut groups: Vec<Vec<usize>> = Vec::new();
    let mut i: usize = 0;
    while i < n
        invariant
            n == related.len(),
            is_square(flags(related@), n as int),
            rel == flags(related@),
            i <= n,
            assigned.len() == n,
            owner.len() == n,
            (owner, groups_view(groups@)) == greedy(rel, n as nat, i as nat),
            forall|j: int| 0 <= j < n ==> (assigned@[j] <==> owner[j] != -1),
        decreases n - i,
    {
        if !assigned[i] {
            let ghost before = owner;
            let mut group: Vec<usize> = vec![i];
            assigned.set(i, true);
            let mut j: usize = 0;
            while j < n
                invariant
                    n == related.len(),
                    is_square(flags(related@), n as int),
                    rel == flags(related@),
                    i < n,
                    j <= n,
                    assigned.len() == n,
                    before.len() == n,
                    before[i as int] == -1,
                    ints(group@) == seq![i as int] + scan(rel, before, i as int, j as int),
                    forall|x: int|
                        0 <= x < j ==> (assigned@[x] <==> assign(rel, before, i as int)[x] != -1),
                    forall|x: int|
                        j <= x < n ==> (assigned@[x] <==> (before[x] != -1 || x == i)),
                decreases n - j,
            {
                assert(flags(related@)[i as int] == related@[i as int]@);
                if j != i && !assigned[j] && related[i][j] {
                    group.push(j);
                    assigned.set(j, true);
                    assert(ints(group@) == ints(group@.drop_last()).push(j as int));
                    assert(seq![i as int] + scan(rel, before, i as int, j as int).push(j as int)
                        == (seq![i as int] + scan(rel, before, i as int, j as int)).push(j as int));
                }
                j = j + 1;
            }
            proof {
                owner = assign(rel, before, i as int);
                assert(groups_view(groups@.push(group)) == groups_view(groups@).push(ints(group@)));
            }
            groups.push(group);
        }
        i = i + 1;
    }
    groups
}

/// A group of records and its name.
#[derive(Debug, PartialEq, Eq)]
pub struct Cluster {
    pub name: String,
    /// Indices of the records, anchor first, then increasing.
    pub members: Vec<usize>,
}

impl Cluster {
    /// Whether the group is worth a directory of its own: a group of one record leaves the
    /// record where it is.
    pub fn is_moved(&self) -> (r: bool)
        ensures
            r == (self.members.len() > 1),
    {
        self.members.len() > 1
    }
}

/// The groups of the records whose token lists are `features`, under the relation
/// `related`, each with its name.
pub fn cluster_similar_files(features: &Vec<Vec<String>>, related: &Vec<Vec<bool>>) -> (r: Vec<
    Cluster,
>)
    requires
        is_square(flags(related@), features.len() as int),
    ensures
        r.len() == clusters_of(flags(related@), features.len() as nat).len(),
        forall|k: int|
            0 <= k < r.len() ==> {
                let g = clusters_of(flags(related@), features.len() as nat)[k];
                &&& ints(#[trigger] r@[k].members@) == g
                &&& r@[k].name@ == best_name(pooled(token_lists(features@), g))
            },
{
    let ghost n = features.len() as nat;
    let groups = cluster_indices(related);
    proof {
        lemma_clusters_in_range(flags(related@), n);
    }
    let mut r: Vec<Cluster> = Vec::new();
    let mut k: usize = 0;
    while k < groups.len()
        invariant
            n == features.len(),
            groups_view(groups@) == clusters_of(flags(related@), n),
            forall|g: int, x: int|
                0 <= g < clusters_of(flags(related@), n).len() && 0 <= x < clusters_of(
                    flags(related@),
                    n,
                )[g].len() ==> 0 <= #[trigger] clusters_of(flags(related@), n)[g][x] < n,
            k <= groups.len(),
            r.len() == k,
            forall|j: int|
                0 <= j < k ==> {
                    let g = clusters_of(flags(related@), n)[j];
                    &&& ints(#[trigger] r@[j].members@) == g
                    &&& r@[j].name@ == best_name(pooled(token_lists(features@), g))
                },
        decreases groups.len() - k,
    {
        let members = groups[k].clone();
        assert(groups_view(groups@)[k as int] == ints(groups@[k as int]@));
        assert forall|x: int| 0 <= x < members.len() implies #[trigger] members@[x] < features.len() by {
            assert(ints(members@)[x] == members@[x] as int);
        }
        let name = find_best_group_name(&members, features);
        r.push(Cluster { name, members });
        k = k + 1;
    }
    r
}

/// The lexical relation between records: the similarity of their token lists is above `t`.
pub open spec fn lexical_matrix(lists: Seq<Seq<Seq<char>>>, t: Threshold) -> Seq<Seq<bool>> {
    Seq::new(
        lists.len(),
        |i: int|
            Seq::new(
                lists.len(),
                |j: int|
                    t.exceeded_by(
                        shared_count(lists[i], lists[j]) as int,
                        total_count(lists[i], lists[j]) as int,
                    ),
            ),
    )
}

/// For each pair of records, whether their lexical similarity is above `t`.
pub fn lexical_relation(features: &Vec<Vec<String>>, t: &Threshold) -> (m: Vec<Vec<bool>>)
    ensures
        flags(m@) == lexical_matrix(token_lists(features@), *t),
{
    let ghost lm = lexical_matrix(token_lists(features@), *t);
    let n: usize = features.len();
    let mut m: Vec<Vec<bool>> = Vec::new();
    let mut i: usize = 0;
    while i < n
        invariant
            n == features.len(),
            lm == lexical_matrix(token_lists(features@), *t),
            i <= n,
            flags(m@) == lm.subrange(0, i as int),
        decreases n - i,
    {
        let mut row: Vec<bool> = Vec::new();
        let mut j: usize = 0;
        while j < n
            invariant
                n == features.len(),
                lm == lexical_matrix(token_lists(features@), *t),
                i < n,
                j <= n,
                row@ == lm[i as int].subrange(0, j as int),
            decreases n - j,
        {
            let s = jaccard_similarity(&features[i], &features[j]);
            let above = t.is_exceeded_by(&s);
            assert(token_lists(features@)[i as int] == views(features@[i as int]@));
            assert(token_lists(features@)[j as int] == views(features@[j as int]@));
            row.push(above);
            assert(row@ == lm[i as int].subrange(0, j + 1));
            j = j + 1;
        }
        assert(row@ == lm[i as int]);
        m.push(row);
        assert(flags(m@) == flags(m@.drop_last()).push(row@));
        assert(lm.len() == n);
        assert(lm.subrange(0, i + 1) == lm.subrange(0, i as int).push(lm[i as int]));
        i = i + 1;
    }
    assert(flags(m@) == lm);
    m
}

/// The groups of the records whose token lists are `features` under lexical similarity
/// above `t`, each with its name.
pub fn cluster_lexical(features: &Vec<Vec<String>>, t: &Threshold) -> (r: Vec<Cluster>)
    ensures
        r.len() == clusters_of(lexical_matrix(token_lists(features@), *t), features.len() as nat).len(),
        forall|k: int|
            0 <= k < r.len() ==> {
                let g = clusters_of(lexical_matrix(token_lists(features@), *t), features.len() as nat)[k];
                &&& ints(#[trigger] r@[k].members@) == g
                &&& r@[k].name@ == best_name(pooled(token_lists(features@), g))
            },
{
    let m = lexical_relation(features, t);
    cluster_similar_files(features, &m)
}

/// Lexical grouping is not transitive: two records whose similarity to the first record is
/// above the threshold both join its group, however dissimilar they are to each other.
pub proof fn lemma_lexical_anchor_gathers(lists: Seq<Seq<Seq<char>>>, t: Threshold, b: int, c: int)
    requires
        0 < b < lists.len(),
        0 < c < lists.len(),
        t.exceeded_by(shared_count(lists[0], lists[b]) as int, total_count(lists[0], lists[b]) as int),
        t.exceeded_by(shared_count(lists[0], lists[c]) as int, total_count(lists[0], lists[c]) as int),
    ensures
        clusters_of(lexical_matrix(lists, t), lists.len()).len() >= 1,
        clusters_of(lexical_matrix(lists, t), lists.len())[0][0] == 0,
        clusters_of(lexical_matrix(lists, t), lists.len())[0].contains(b),
        clusters_of(lexical_matrix(lists, t), lists.len())[0].contains(c),
{
    let m = lexical_matrix(lists, t);
    assert(is_square(m, lists.len() as int));
    lemma_anchor_gathers(m, lists.len(), b, c);
}

} // verus!
