use unscramble::similarity::{jaccard_similarity, lexical_threshold, Threshold};

fn strings(v: &[&str]) -> Vec<String> {
    v.iter().map(|s| s.to_string()).collect()
}

fn total(j: &unscramble::similarity::Jaccard) -> usize {
    j.distinct_a + j.distinct_b - j.shared
}

#[test]
fn jaccard_is_symmetric() {
    let a = strings(&["meeting", "notes", "notes"]);
    let b = strings(&["meeting", "agenda"]);
    let ab = jaccard_similarity(&a, &b);
    let ba = jaccard_similarity(&b, &a);
    assert_eq!((ab.shared, total(&ab)), (ba.shared, total(&ba)));
    assert_eq!((ab.shared, total(&ab)), (1, 3));
}

#[test]
fn jaccard_of_empty_sets_is_zero() {
    let e: Vec<String> = Vec::new();
    let j = jaccard_similarity(&e, &e);
    assert_eq!((j.shared, total(&j)), (0, 0));
    assert!(!lexical_threshold().is_exceeded_by(&j));
    assert!(!Threshold { num: 0, den: 1 }.is_exceeded_by(&j));
}

#[test]
fn jaccard_of_a_set_with_itself_is_one() {
    let a = strings(&["x", "y", "x"]);
    let j = jaccard_similarity(&a, &a);
    assert_eq!(j.shared, 2);
    assert_eq!(total(&j), 2);
}

#[test]
fn jaccard_collapses_duplicates() {
    let a = strings(&["a", "a", "b"]);
    let b = strings(&["b", "c", "c", "d"]);
    let j = jaccard_similarity(&a, &b);
    assert_eq!((j.shared, j.distinct_a, j.distinct_b, total(&j)), (1, 2, 3, 4));
}

#[test]
fn threshold_is_strict() {
    let t = lexical_threshold();
    assert_eq!((t.num, t.den), (1, 5));
    // one shared token out of five is exactly the threshold
    let j = jaccard_similarity(&strings(&["a", "b", "c"]), &strings(&["a", "d", "e"]));
    assert_eq!((j.shared, total(&j)), (1, 5));
    assert!(!t.is_exceeded_by(&j));
    let j = jaccard_similarity(&strings(&["a", "b"]), &strings(&["a", "c"]));
    assert!(t.is_exceeded_by(&j));
}
