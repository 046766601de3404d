use unscramble::cluster::{cluster_indices, cluster_lexical, cluster_similar_files, lexical_relation};
use unscramble::features::extract_filename_features;
use unscramble::naming::find_best_group_name;
use unscramble::similarity::{jaccard_similarity, lexical_threshold};

fn strings(v: &[&str]) -> Vec<String> {
    v.iter().map(|s| s.to_string()).collect()
}

#[test]
fn anchor_gathers_records_unrelated_to_each_other() {
    let a = strings(&["x", "y"]);
    let b = strings(&["x", "p"]);
    let c = strings(&["y", "q"]);
    let t = lexical_threshold();
    assert!(t.is_exceeded_by(&jaccard_similarity(&a, &b)));
    assert!(t.is_exceeded_by(&jaccard_similarity(&a, &c)));
    assert!(!t.is_exceeded_by(&jaccard_similarity(&b, &c)));
    let clusters = cluster_lexical(&vec![a, b, c], &t);
    assert_eq!(clusters.len(), 1);
    assert_eq!(clusters[0].members, vec![0, 1, 2]);
}

#[test]
fn without_the_anchor_the_pair_stays_apart() {
    let b = strings(&["x", "p"]);
    let c = strings(&["y", "q"]);
    let clusters = cluster_lexical(&vec![b, c], &lexical_threshold());
    assert_eq!(clusters.len(), 2);
    assert_eq!(clusters[0].members, vec![0]);
    assert_eq!(clusters[1].members, vec![1]);
}

#[test]
fn engine_follows_the_matrix() {
    // 0 ~ 2, 1 ~ 3, 2 ~ 3; 3 is taken by 1 before 2 could reach it
    let m = vec![
        vec![false, false, true, false],
        vec![false, false, false, true],
        vec![true, false, false, true],
        vec![false, true, true, false],
    ];
    assert_eq!(cluster_indices(&m), vec![vec![0, 2], vec![1, 3]]);
    assert_eq!(cluster_indices(&Vec::new()), Vec::<Vec<usize>>::new());
}

#[test]
fn engine_reads_only_the_anchor_rows() {
    // row 1 says 1 ~ 2, but 2 is already held by anchor 0
    let m = vec![
        vec![false, false, true],
        vec![false, false, true],
        vec![false, false, false],
    ];
    assert_eq!(cluster_indices(&m), vec![vec![0, 2], vec![1]]);
}

#[test]
fn end_to_end_lexical_grouping() {
    let mut names = strings(&[
        "readme.txt",
        "meeting_notes_3.txt",
        "config.json",
        "meeting_notes_1.txt",
        "meeting_notes_5.txt",
        "meeting_notes_2.txt",
        "meeting_notes_4.txt",
    ]);
    names.sort();
    let features: Vec<Vec<String>> = names.iter().map(|n| extract_filename_features(n)).collect();
    let clusters = cluster_lexical(&features, &lexical_threshold());
    let moved: Vec<_> = clusters.iter().filter(|c| c.is_moved()).collect();
    assert_eq!(moved.len(), 1);
    assert_eq!(moved[0].name, "meeting");
    let members: Vec<&str> = moved[0].members.iter().map(|&i| names[i].as_str()).collect();
    assert_eq!(
        members,
        vec![
            "meeting_notes_1.txt",
            "meeting_notes_2.txt",
            "meeting_notes_3.txt",
            "meeting_notes_4.txt",
            "meeting_notes_5.txt"
        ]
    );
    let single: Vec<&str> = clusters
        .iter()
        .filter(|c| !c.is_moved())
        .map(|c| names[c.members[0]].as_str())
        .collect();
    assert_eq!(single, vec!["config.json", "readme.txt"]);
}

#[test]
fn relation_matrix_is_lexical() {
    let f = vec![strings(&["a", "b"]), strings(&["a", "c"]), strings(&["d"])];
    let m = lexical_relation(&f, &lexical_threshold());
    assert_eq!(
        m,
        vec![vec![true, true, false], vec![true, true, false], vec![false, false, true]]
    );
}

#[test]
fn clusters_carry_names() {
    let f = vec![
        strings(&["budget", "spreadsheet"]),
        strings(&["x"]),
        strings(&["spreadsheet", "old"]),
    ];
    let m = vec![
        vec![false, false, true],
        vec![false, false, false],
        vec![false, false, false],
    ];
    let c = cluster_similar_files(&f, &m);
    assert_eq!(c.len(), 2);
    assert_eq!((c[0].name.as_str(), c[0].members.clone()), ("spreadsheet", vec![0, 2]));
    assert_eq!((c[1].name.as_str(), c[1].members.clone()), ("x", vec![1]));
    assert!(c[0].is_moved());
    assert!(!c[1].is_moved());
}

#[test]
fn group_name_is_most_frequent_token() {
    let f = vec![strings(&["a", "b"]), strings(&["b", "c"]), strings(&["c", "b"])];
    assert_eq!(find_best_group_name(&vec![0, 1, 2], &f), "b");
}

#[test]
fn group_name_tie_goes_to_first_token() {
    let f = vec![strings(&["notes", "meeting"]), strings(&["meeting", "notes"])];
    assert_eq!(find_best_group_name(&vec![0, 1], &f), "notes");
    assert_eq!(find_best_group_name(&vec![1, 0], &f), "meeting");
}

#[test]
fn group_name_without_tokens_is_misc() {
    let f = vec![Vec::new(), Vec::new()];
    assert_eq!(find_best_group_name(&vec![0, 1], &f), "misc");
    assert_eq!(find_best_group_name(&vec![], &f), "misc");
}
