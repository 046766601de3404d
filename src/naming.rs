//! Naming a group after the token its members' names share most.

use vstd::prelude::*;

use crate::cluster::ints;
use crate::features::views;

verus! {

/// The tokens of each record.
pub open spec fn token_lists(features: Seq<Vec<String>>) -> Seq<Seq<Seq<char>>> {
    features.map_values(|v: Vec<String>| views(v@))
}

/// The tokens of the records `members`, record after record, each record's in order.
pub open spec fn pooled(lists: Seq<Seq<Seq<char>>>, members: Seq<int>) -> Seq<Seq<char>>
    decreases members.len(),
{
    if members.len() == 0 {
        seq![]
    } else {
        pooled(lists, members.drop_last()) + lists[members.last()]
    }
}

/// How many times `t` occurs in `s`.
pub open spec fn count_of(s: Seq<Seq<char>>, t: Seq<char>) -> nat
    decreases s.len(),
{
    if s.len() == 0 {
        0
    } else {
        count_of(s.drop_last(), t) + if s.last() == t {
            1nat
        } else {
            0nat
        }
    }
}

/// Position `k` holds a token that occurs most often in `s`, and no earlier position holds
/// one that occurs as often.
pub open spec fn is_best(s: Seq<Seq<char>>, k: int) -> bool {
    &&& 0 <= k < s.len()
    &&& forall|x: int| 0 <= x < s.len() ==> count_of(s, #[trigger] s[x]) <= count_of(s, s[k])
    &&& forall|x: int| 0 <= x < k ==> count_of(s, #[trigger] s[x]) < count_of(s, s[k])
}

/// The name of a group whose pooled tokens are `s`: its most frequent token, the earliest
/// one on a tie, or `"misc"` when there are no tokens.
pub open spec fn best_name(s: Seq<Seq<char>>) -> Seq<char> {
    if s.len() == 0 {
        "misc"@
    } else {
        s[choose|k: int| is_best(s, k)]
    }
}

/// At most one position is the best one.
proof fn lemma_best_unique(s: Seq<Seq<char>>, k1: int, k2: int)
    requires
        is_best(s, k1),
        is_best(s, k2),
    ensures
        k1 == k2,
{
    if k1 < k2 {
        assert(count_of(s, s[k1]) < count_of(s, s[k2]));
        assert(count_of(s, s[k2]) <= count_of(s, s[k1]));
    } else if k2 < k1 {
        assert(count_of(s, s[k2]) < count_of(s, s[k1]));
        assert(count_of(s, s[k1]) <= count_of(s, s[k2]));
    }
}

/// A token of `s` occurs in it at least once.
proof fn lemma_count_positive(s: Seq<Seq<char>>, x: int)
    requires
        0 <= x < s.len(),
    ensures
        count_of(s, s[x]) >= 1,
    decreases s.len(),
{
    if x < s.len() - 1 {
        lemma_count_positive(s.drop_last(), x);
    }
}

fn count_occurrences(s: &Vec<String>, t: &String) -> (n: usize)
    ensures
        n == count_of(views(s@), t@),
{
    let mut n: usize = 0;
    let mut i: usize = 0;
    while i < s.len()
        invariant
            i <= s.len(),
            n <= i,
            n == count_of(views(s@).subrange(0, i as int), t@),
        decreases s.len() - i,
    {
        assert(views(s@).subrange(0, i + 1).drop_last() == views(s@).subrange(0, i as int));
        if s[i] == *t {
            n = n + 1;
        }
        i = i + 1;
    }
    assert(views(s@).subrange(0, s.len() as int) == views(s@));
    n
}

fn pool_tokens(members: &Vec<usize>, features: &Vec<Vec<String>>) -> (r: Vec<String>)
    requires
        forall|k: int| 0 <= k < members.len() ==> #[trigger] members@[k] < features.len(),
    ensures
        views(r@) == pooled(token_lists(features@), ints(members@)),
{
    let ghost lists = token_lists(features@);
    let ghost ms = ints(members@);
    let mut r: Vec<String> = Vec::new();
    let mut k: usize = 0;
    while k < members.len()
        invariant
            k <= members.len(),
            forall|x: int| 0 <= x < members.len() ==> #[trigger] members@[x] < features.len(),
            lists == token_lists(features@),
            ms == ints(members@),
            views(r@) == pooled(lists, ms.subrange(0, k as int)),
        decreases members.len() - k,
    {
        let m: usize = members[k];
        assert(ms.subrange(0, k + 1).drop_last() == ms.subrange(0, k as int));
        let ghost base = views(r@);
        let mut t: usize = 0;
        while t < features[m].len()
            invariant
                m < features.len(),
                t <= features[m as int].len(),
                views(r@) == base + views(features[m as int]@).subrange(0, t as int),
            decreases features[m as int].len() - t,
        {
            r.push(features[m][t].clone());
            assert(views(features[m as int]@).subrange(0, t + 1)
                == views(features[m as int]@).subrange(0, t as int).push(features[m as int]@[t as int]@));
            assert(views(r@) == views(r@.drop_last()).push(r@.last()@));
            assert(base + views(features[m as int]@).subrange(0, t + 1) == (base + views(
                features[m as int]@,
            ).subrange(0, t as int)).push(features[m as int]@[t as int]@));
            t = t + 1;
        }
        assert(views(features[m as int]@).subrange(0, features[m as int].len() as int)
            == views(features[m as int]@));
        k = k + 1;
    }
    assert(ms.subrange(0, members.len() as int) == ms);
    r
}

/// The name of the group of records `members`: the token that occurs most often over all
/// their token lists, the earliest in member order on a tie, or `"misc"` when they have no
/// tokens at all.
pub fn find_best_group_name(members: &Vec<usize>, features: &Vec<Vec<String>>) -> (r: String)
    requires
        forall|k: int| 0 <= k < members.len() ==> #[trigger] members@[k] < features.len(),
    ensures
        r@ == best_name(pooled(token_lists(features@), ints(members@))),
{
    let all = pool_tokens(members, features);
    let ghost s = views(all@);
    if all.len() == 0 {
        return String::from_str("misc");
    }
    let mut best: usize = 0;
    let mut best_count: usize = 0;
    let mut k: usize = 0;
    while k < all.len()
        invariant
            s == views(all@),
            k <= all.len(),
            best < all.len(),
            k == 0 ==> best_count == 0,
            k > 0 ==> best < k,
            k > 0 ==> best_count == count_of(s, s[best as int]),
            forall|x: int| 0 <= x < k ==> count_of(s, #[trigger] s[x]) <= best_count,
            forall|x: int| 0 <= x < best ==> count_of(s, #[trigger] s[x]) < best_count,
        decreases all.len() - k,
    {
        let c: usize = count_occurrences(&all, &all[k]);
        proof {
            lemma_count_positive(s, k as int);
        }
        if c > best_count {
            best = k;
            best_count = c;
        }
        k = k + 1;
    }
    proof {
        assert(is_best(s, best as int));
        let b = choose|b: int| is_best(s, b);
        lemma_best_unique(s, b, best as int);
    }
    all[best].clone()
}

} // verus!
