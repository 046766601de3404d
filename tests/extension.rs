use unscramble::extension::{extension_dir, group_by_extension, ExtensionGroup};

fn strings(v: &[&str]) -> Vec<String> {
    v.iter().map(|s| s.to_string()).collect()
}

#[test]
fn groups_by_extension() {
    let names = strings(&["a.txt", "b.txt", "c.md", "noext"]);
    let groups = group_by_extension(&names);
    assert_eq!(
        groups,
        vec![
            ExtensionGroup { ext: "txt".to_string(), members: vec![0, 1] },
            ExtensionGroup { ext: "md".to_string(), members: vec![2] },
        ]
    );
}

#[test]
fn extensions_are_lowercased_and_merged() {
    let names = strings(&["x.TXT", "y.md", "z.Txt"]);
    let groups = group_by_extension(&names);
    assert_eq!(groups.len(), 2);
    assert_eq!(groups[0].ext, "txt");
    assert_eq!(groups[0].members, vec![0, 2]);
    assert_eq!(groups[1].ext, "md");
}

#[test]
fn second_pass_moves_nothing() {
    let names = strings(&["a.txt", "b.txt", "c.md", "noext"]);
    let first = group_by_extension(&names);
    let moved: Vec<usize> = first.iter().flat_map(|g| g.members.iter().copied()).collect();
    let rest: Vec<String> =
        (0..names.len()).filter(|i| !moved.contains(i)).map(|i| names[i].clone()).collect();
    assert_eq!(rest, strings(&["noext"]));
    assert!(group_by_extension(&rest).is_empty());
}

#[test]
fn extension_edge_cases() {
    assert_eq!(extension_dir("report.PDF"), Some("pdf".to_string()));
    assert_eq!(extension_dir("archive.tar.gz"), Some("gz".to_string()));
    assert_eq!(extension_dir("noext"), None);
    assert_eq!(extension_dir(".bashrc"), None);
    assert_eq!(extension_dir("trailing."), None);
    assert_eq!(extension_dir(""), None);
}
