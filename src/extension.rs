//! Grouping files by their extension, lowercased.

use vstd::prelude::*;

use crate::cluster::ints;
use crate::features::{chars_of, last_dot, lemma_last_dot_bounds, views};
use crate::text::{lower_of, lowercase};

verus! {

/// The extension of a file name: the text after its last `'.'`, unless that `'.'` opens the
/// name or there is none.
pub open spec fn extension_of(name: Seq<char>) -> Option<Seq<char>> {
    if last_dot(name) <= 0 {
        None
    } else {
        Some(name.subrange(last_dot(name) + 1, name.len() as int))
    }
}

/// The directory that a file goes to: its extension lowercased, for a non-empty extension.
pub open spec fn dir_of(name: Seq<char>) -> Option<Seq<char>> {
    match extension_of(name) {
        Some(e) => if e.len() > 0 {
            Some(lower_of(e))
        } else {
            None
        },
        None => None,
    }
}

/// The positions below `m` of the names that go to directory `d`, in increasing order.
pub open spec fn indices_with(names: Seq<Seq<char>>, d: Seq<char>, m: int) -> Seq<int>
    decreases m,
{
    if m <= 0 {
        seq![]
    } else if dir_of(names[m - 1]) == Some(d) {
        indices_with(names, d, m - 1).push(m - 1)
    } else {
        indices_with(names, d, m - 1)
    }
}

/// The files that go to one directory.
#[derive(Debug, PartialEq, Eq)]
pub struct ExtensionGroup {
    /// The directory name: the lowercased extension.
    pub ext: String,
    /// Positions of the files, increasing.
    pub members: Vec<usize>,
}

/// The directory that the file `file_name` goes to: its extension lowercased, or `None` when
/// it has no extension or an empty one.
pub fn extension_dir(file_name: &str) -> (r: Option<String>)
    ensures
        match r {
            Some(d) => dir_of(file_name@) == Some(d@),
            None => dir_of(file_name@).is_none(),
        },
{
    let chars = chars_of(file_name);
    proof {
        lemma_last_dot_bounds(chars@);
    }
    let mut dot: usize = 0;
    let mut i: usize = 0;
    while i < chars.len()
        invariant
            i <= chars.len(),
            dot < chars.len() || dot == 0,
            if last_dot(chars@.subrange(0, i as int)) < 0 {
                dot == 0
            } else {
                dot == last_dot(chars@.subrange(0, i as int))
            },
        decreases chars.len() - i,
    {
        assert(chars@.subrange(0, i + 1).drop_last() == chars@.subrange(0, i as int));
        if chars[i] == '.' {
            dot = i;
        }
        i = i + 1;
    }
    assert(chars@.subrange(0, chars.len() as int) == chars@);
    if dot == 0 || dot + 1 == chars.len() {
        return None;
    }
    let mut ext = String::new();
    let mut k: usize = dot + 1;
    while k < chars.len()
        invariant
            dot + 1 <= k <= chars.len(),
            ext@ == chars@.subrange(dot + 1, k as int),
        decreases chars.len() - k,
    {
        crate::text::push_char(&mut ext, chars[k]);
        k = k + 1;
    }
    Some(lowercase(ext.as_str()))
}

/// The directory names that `groups` use, in order.
pub open spec fn group_keys(groups: Seq<ExtensionGroup>) -> Seq<Seq<char>> {
    groups.map_values(|g: ExtensionGroup| g.ext@)
}

/// `groups` sorts the first `m` of `names` by extension: one group for each directory that
/// some of them go to, holding exactly the positions of those.
pub open spec fn sorts_by_extension(groups: Seq<ExtensionGroup>, names: Seq<Seq<char>>, m: int) -> bool {
    &&& group_keys(groups).no_duplicates()
    &&& forall|k: int|
        0 <= k < groups.len() ==> ints(#[trigger] groups[k].members@) == indices_with(
            names,
            groups[k].ext@,
            m,
        ) && groups[k].members.len() > 0
    &&& forall|i: int|
        0 <= i < m && #[trigger] dir_of(names[i]).is_some() ==> group_keys(groups).contains(
            dir_of(names[i]).unwrap(),
        )
}

proof fn lemma_indices_empty(names: Seq<Seq<char>>, d: Seq<char>, m: int)
    requires
        forall|i: int| 0 <= i < m ==> dir_of(#[trigger] names[i]) != Some(d),
    ensures
        indices_with(names, d, m) == Seq::<int>::empty(),
    decreases m,
{
    if m > 0 {
        lemma_indices_empty(names, d, m - 1);
    }
}

fn find_group(groups: &Vec<ExtensionGroup>, d: &String) -> (r: Option<usize>)
    ensures
        match r {
            Some(k) => k < groups.len() && groups@[k as int].ext@ == d@,
            None => !group_keys(groups@).contains(d@),
        },
{
    let mut k: usize = 0;
    while k < groups.len()
        invariant
            k <= groups.len(),
            forall|x: int| 0 <= x < k ==> groups@[x].ext@ != d@,
        decreases groups.len() - k,
    {
        if groups[k].ext == *d {
            return Some(k);
        }
        k = k + 1;
    }
    proof {
        if group_keys(groups@).contains(d@) {
            let x = choose|x: int| 0 <= x < group_keys(groups@).len() && group_keys(groups@)[x] == d@;
            assert(groups@[x].ext@ == d@);
        }
    }
    None
}

/// Sorts the files `file_names` by extension: the files of each lowercased non-empty
/// extension form one group, in order; files without one belong to no group.
pub fn group_by_extension(file_names: &Vec<String>) -> (r: Vec<ExtensionGroup>)
    ensures
        sorts_by_extension(r@, views(file_names@), file_names.len() as int),
        r.len() == 0 <==> forall|i: int|
            0 <= i < file_names.len() ==> dir_of(#[trigger] views(file_names@)[i]).is_none(),
{
    let ghost names = views(file_names@);
    let mut r: Vec<ExtensionGroup> = Vec::new();
    let mut i: usize = 0;
    while i < file_names.len()
        invariant
            names == views(file_names@),
            i <= file_names.len(),
            sorts_by_extension(r@, names, i as int),
            r.len() == 0 <==> forall|j: int| 0 <= j < i ==> dir_of(#[trigger] names[j]).is_none(),
        decreases file_names.len() - i,
    {
        assert(names[i as int] == file_names@[i as int]@);
        match extension_dir(file_names[i].as_str()) {
            None => {
                assert forall|k: int| 0 <= k < r.len() implies ints(#[trigger] r@[k].members@)
                    == indices_with(names, r@[k].ext@, i + 1) by {}
            },
            Some(d) => {
                let ghost pre = r@;
                match find_group(&r, &d) {
                    Some(k) => {
                        let mut members = r[k].members.clone();
                        members.push(i);
                        let ext = r[k].ext.clone();
                        assert(ints(members@) == ints(pre[k as int].members@).push(i as int));
                        r.set(k, ExtensionGroup { ext, members });
                        assert(group_keys(r@) == group_keys(pre));
                        assert forall|x: int| 0 <= x < r.len() implies ints(
                            #[trigger] r@[x].members@,
                        ) == indices_with(names, r@[x].ext@, i + 1) && r@[x].members.len() > 0 by {
                            if x != k {
                                assert(group_keys(pre)[x] != group_keys(pre)[k as int]);
                            }
                        }
                        assert forall|j: int|
                            0 <= j < i + 1 && #[trigger] dir_of(names[j]).is_some() implies group_keys(
                            r@,
                        ).contains(dir_of(names[j]).unwrap()) by {
                            if j == i {
                                assert(group_keys(r@)[k as int] == d@);
                            }
                        }
                    },
                    None => {
                        proof {
                            assert forall|j: int| 0 <= j < i implies dir_of(#[trigger] names[j])
                                != Some(d@) by {
                                if dir_of(names[j]) == Some(d@) {
                                    assert(dir_of(names[j]).is_some());
                                    assert(group_keys(pre).contains(d@));
                                }
                            }
                            lemma_indices_empty(names, d@, i as int);
                        }
                        let ghost key = d@;
                        r.push(ExtensionGroup { ext: d, members: vec![i] });
                        assert(group_keys(r@) == group_keys(pre).push(key));
                        assert(ints(r@[pre.len() as int].members@) == seq![i as int]);
                        assert forall|x: int| 0 <= x < r.len() implies ints(
                            #[trigger] r@[x].members@,
                        ) == indices_with(names, r@[x].ext@, i + 1) && r@[x].members.len() > 0 by {
                            if x < pre.len() {
                                assert(r@[x] == pre[x]);
                                assert(group_keys(pre)[x] == pre[x].ext@);
                            }
                        }
                        assert forall|j: int|
                            0 <= j < i + 1 && #[trigger] dir_of(names[j]).is_some() implies group_keys(
                            r@,
                        ).contains(dir_of(names[j]).unwrap()) by {
                            if j == i {
                                assert(group_keys(r@)[pre.len() as int] == key);
                            } else {
                                let x = choose|x: int|
                                    0 <= x < group_keys(pre).len() && group_keys(pre)[x]
                                        == dir_of(names[j]).unwrap();
                                assert(group_keys(r@)[x] == group_keys(pre)[x]);
                            }
                        }
                    },
                }
            },
        }
        i = i + 1;
    }
    r
}

/// The files that sorting by extension leaves in place: those with no directory to go to.
pub open spec fn left_in_place(names: Seq<Seq<char>>) -> Seq<Seq<char>> {
    names.filter(|n: Seq<char>| dir_of(n).is_none())
}

/// Sorting by extension a second time moves nothing: the files that the first pass left in
/// place form no group.
pub proof fn lemma_second_pass_idle(names: Seq<Seq<char>>, groups: Seq<ExtensionGroup>)
    requires
        sorts_by_extension(groups, left_in_place(names), left_in_place(names).len() as int),
    ensures
        groups.len() == 0,
{
    let rest = left_in_place(names);
    if groups.len() > 0 {
        assert forall|i: int| 0 <= i < rest.len() implies dir_of(#[trigger] rest[i])
            != Some(groups[0].ext@) by {
            names.lemma_filter_pred(|n: Seq<char>| dir_of(n).is_none(), i);
        }
        lemma_indices_empty(rest, groups[0].ext@, rest.len() as int);
        assert(ints(groups[0].members@).len() == groups[0].members.len());
    }
}

} // verus!
