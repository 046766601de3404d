use unscramble::features::{contains_word, extract_features_with, extract_filename_features};

fn strings(v: &[&str]) -> Vec<String> {
    v.iter().map(|s| s.to_string()).collect()
}

#[test]
fn meeting_notes_tokens() {
    assert_eq!(extract_filename_features("meeting_notes_1.txt"), strings(&["meeting", "notes"]));
}

#[test]
fn digits_split_and_vanish() {
    assert_eq!(
        extract_filename_features("report_2024_final_v2.doc"),
        strings(&["report", "final", "v"])
    );
    assert_eq!(extract_filename_features("report2024final.doc"), strings(&["report", "final"]));
}

#[test]
fn digits_only_name_has_no_tokens() {
    assert_eq!(extract_filename_features("123.txt"), Vec::<String>::new());
    assert_eq!(extract_filename_features("456.log"), Vec::<String>::new());
}

#[test]
fn tokens_are_lowercased() {
    assert_eq!(extract_filename_features("Team-Photo 3.JPG"), strings(&["team", "photo"]));
}

#[test]
fn english_stop_words_are_dropped() {
    assert_eq!(
        extract_filename_features("the_report_of_a_year.txt"),
        strings(&["report", "year"])
    );
    assert_eq!(extract_filename_features("The-Plan.md"), strings(&["plan"]));
}

#[test]
fn name_without_extension_is_all_stem() {
    assert_eq!(
        extract_filename_features("data-analysis-jan"),
        strings(&["data", "analysis", "jan"])
    );
}

#[test]
fn only_the_last_extension_is_stripped() {
    assert_eq!(extract_filename_features("notes.tar.gz"), strings(&["notes.tar"]));
}

#[test]
fn duplicates_are_kept_in_order() {
    assert_eq!(
        extract_filename_features("draft--draft__final.txt"),
        strings(&["draft", "draft", "final"])
    );
}

#[test]
fn custom_stop_words() {
    let stop = strings(&["alpha"]);
    assert_eq!(extract_features_with("Alpha_beta_the.txt", &stop), strings(&["beta", "the"]));
    assert_eq!(extract_features_with("", &stop), Vec::<String>::new());
}

#[test]
fn word_membership() {
    let words = strings(&["a", "bc"]);
    assert!(contains_word(&words, &"bc".to_string()));
    assert!(!contains_word(&words, &"b".to_string()));
}
