//! Turning a file name into the sequence of tokens that the similarity scores compare.

use vstd::prelude::*;

use crate::text::{
    is_numeric, lookup_stop_words, lower_of, lowercase, numeric_char, push_char, stop_word_list,
};

verus! {

/// The view of each string of a sequence.
pub open spec fn views(v: Seq<String>) -> Seq<Seq<char>> {
    v.map_values(|s: String| s@)
}

/// Characters that split a file name into tokens; they never belong to a token.
pub open spec fn is_separator(c: char) -> bool {
    c == '_' || c == '-' || c == ' ' || numeric_char(c)
}

/// The position of the last `'.'` in `s`, or -1 when there is none.
pub open spec fn last_dot(s: Seq<char>) -> int
    decreases s.len(),
{
    if s.len() == 0 {
        -1
    } else if s.last() == '.' {
        s.len() - 1
    } else {
        last_dot(s.drop_last())
    }
}

pub(crate) proof fn lemma_last_dot_bounds(s: Seq<char>)
    ensures
        -1 <= last_dot(s) < s.len(),
        last_dot(s) >= 0 ==> s[last_dot(s)] == '.',
    decreases s.len(),
{
    if s.len() > 0 && s.last() != '.' {
        lemma_last_dot_bounds(s.drop_last());
    }
}

/// The name without the text from its last `'.'` on; the whole name when it has no `'.'`.
pub open spec fn stem_of(name: Seq<char>) -> Seq<char> {
    if last_dot(name) < 0 {
        name
    } else {
        name.subrange(0, last_dot(name))
    }
}

/// Reading `s` from the left: the segments already closed by a separator, and the segment
/// still open.
pub open spec fn split_state(s: Seq<char>) -> (Seq<Seq<char>>, Seq<char>)
    decreases s.len(),
{
    if s.len() == 0 {
        (seq![], seq![])
    } else {
        let (done, open) = split_state(s.drop_last());
        let c = s.last();
        if is_separator(c) {
            (if open.len() > 0 { done.push(open) } else { done }, seq![])
        } else {
            (done, open.push(c))
        }
    }
}

/// The maximal runs of non-separator characters of `s`, left to right.
pub open spec fn segments(s: Seq<char>) -> Seq<Seq<char>> {
    let (done, open) = split_state(s);
    if open.len() > 0 {
        done.push(open)
    } else {
        done
    }
}

/// The tokens of a file name: the segments of its stem, lowercased, without the stop words.
pub open spec fn features_of(name: Seq<char>, stop_words: Seq<Seq<char>>) -> Seq<Seq<char>> {
    segments(stem_of(name)).map_values(|t: Seq<char>| lower_of(t)).filter(
        |t: Seq<char>| !stop_words.contains(t),
    )
}

/// The English stop words, as the stop-word lists give them.
pub open spec fn english_stop_words() -> Seq<Seq<char>> {
    match stop_word_list("en"@) {
        Some(words) => words,
        None => seq![],
    }
}

pub(crate) fn chars_of(s: &str) -> (r: Vec<char>)
    ensures
        r@ == s@,
{
    broadcast use vstd::string::axiom_spec_iter;

    let mut r: Vec<char> = Vec::new();
    for c in it: s.chars()
        invariant
            it.seq() == s@,
            r@ == it.seq().subrange(0, it.index() as int),
    {
        r.push(c);
    }
    r
}

fn last_dot_index(s: &Vec<char>) -> (r: Option<usize>)
    ensures
        match r {
            Some(i) => i == last_dot(s@),
            None => last_dot(s@) == -1,
        },
{
    let mut r: Option<usize> = None;
    let mut i: usize = 0;
    while i < s.len()
        invariant
            i <= s.len(),
            match r {
                Some(k) => k == last_dot(s@.subrange(0, i as int)),
                None => last_dot(s@.subrange(0, i as int)) == -1,
            },
        decreases s.len() - i,
    {
        assert(s@.subrange(0, i + 1).drop_last() == s@.subrange(0, i as int));
        if s[i] == '.' {
            r = Some(i);
        }
        i = i + 1;
    }
    assert(s@.subrange(0, s.len() as int) == s@);
    r
}

fn split_segments(s: &Vec<char>, len: usize) -> (r: Vec<String>)
    requires
        len <= s.len(),
    ensures
        views(r@) == segments(s@.subrange(0, len as int)),
{
    let mut done: Vec<String> = Vec::new();
    let mut open = String::new();
    let mut i: usize = 0;
    while i < len
        invariant
            i <= len <= s.len(),
            (views(done@), open@) == split_state(s@.subrange(0, i as int)),
        decreases len - i,
    {
        assert(s@.subrange(0, i + 1).drop_last() == s@.subrange(0, i as int));
        let c = s[i];
        if c == '_' || c == '-' || c == ' ' || is_numeric(c) {
            if !open.as_str().is_empty() {
                proof {
                    assert(views(done@.push(open)) == views(done@).push(open@));
                }
                done.push(open);
            }
            open = String::new();
        } else {
            push_char(&mut open, c);
        }
        i = i + 1;
    }
    if !open.as_str().is_empty() {
        proof {
            assert(views(done@.push(open)) == views(done@).push(open@));
        }
        done.push(open);
    }
    done
}

/// Whether `word` is one of `words`.
pub fn contains_word(words: &Vec<String>, word: &String) -> (r: bool)
    ensures
        r == views(words@).contains(word@),
{
    let mut i: usize = 0;
    while i < words.len()
        invariant
            i <= words.len(),
            forall|k: int| 0 <= k < i ==> words@[k]@ != word@,
        decreases words.len() - i,
    {
        if words[i] == *word {
            assert(views(words@)[i as int] == word@);
            return true;
        }
        i = i + 1;
    }
    proof {
        if views(words@).contains(word@) {
            let k = choose|k: int| 0 <= k < views(words@).len() && views(words@)[k] == word@;
            assert(words@[k]@ == word@);
        }
    }
    false
}

/// The tokens of `filename` with `stop_words` as the stop-word list: the runs of characters
/// of its stem between separators (`_`, `-`, space, numeric characters), lowercased, in
/// order, duplicates kept, stop words left out.
pub fn extract_features_with(filename: &str, stop_words: &Vec<String>) -> (r: Vec<String>)
    ensures
        views(r@) == features_of(filename@, views(stop_words@)),
{
    let chars = chars_of(filename);
    proof {
        lemma_last_dot_bounds(chars@);
    }
    let stem_len: usize = match last_dot_index(&chars) {
        Some(i) => i,
        None => chars.len(),
    };
    assert(chars@.subrange(0, stem_len as int) == stem_of(filename@)) by {
        if last_dot(chars@) < 0 {
            assert(chars@.subrange(0, chars@.len() as int) == chars@);
        }
    }
    let segs = split_segments(&chars, stem_len);
    let ghost lowered = views(segs@).map_values(|t: Seq<char>| lower_of(t));
    let ghost keep = |t: Seq<char>| !views(stop_words@).contains(t);
    let mut r: Vec<String> = Vec::new();
    let mut i: usize = 0;
    while i < segs.len()
        invariant
            i <= segs.len(),
            lowered == views(segs@).map_values(|t: Seq<char>| lower_of(t)),
            keep == (|t: Seq<char>| !views(stop_words@).contains(t)),
            views(r@) == lowered.subrange(0, i as int).filter(keep),
        decreases segs.len() - i,
    {
        let t = lowercase(segs[i].as_str());
        proof {
            assert(lowered.subrange(0, i + 1) == lowered.subrange(0, i as int).push(t@));
            lowered.subrange(0, i as int).lemma_filter_push(t@, keep);
        }
        if !contains_word(stop_words, &t) {
            proof {
                assert(views(r@.push(t)) == views(r@).push(t@));
            }
            r.push(t);
        }
        i = i + 1;
    }
    assert(lowered.subrange(0, segs.len() as int) == lowered);
    r
}

/// The tokens of `filename`, with the English stop words left out.
pub fn extract_filename_features(filename: &str) -> (r: Vec<String>)
    ensures
        views(r@) == features_of(filename@, english_stop_words()),
{
    let stop_words = match lookup_stop_words("en") {
        Some(words) => words,
        None => Vec::new(),
    };
    proof {
        if stop_word_list("en"@).is_none() {
            assert(views(stop_words@) == Seq::<Seq<char>>::empty());
        }
    }
    extract_features_with(filename, &stop_words)
}

} // verus!
