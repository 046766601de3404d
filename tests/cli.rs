use unscramble::cli::{validate_path, Action, Cli, Commands, PathKind, SortMode, SortOptions};

#[test]
fn validate_accepts_directories_only() {
    let p = "./test".to_string();
    assert_eq!(validate_path(&p, PathKind::Directory), Ok(()));
    assert_eq!(
        validate_path(&p, PathKind::Missing),
        Err("Path does not exist: ./test".to_string())
    );
    assert_eq!(
        validate_path(&p, PathKind::NotDirectory),
        Err("Path is not a directory: ./test".to_string())
    );
}

#[test]
fn execute_checks_the_directory_first() {
    let cli = Cli { command: Commands::Clear { path: "x".to_string() } };
    assert_eq!(
        cli.command.execute(PathKind::Missing),
        Err("Path does not exist: x".to_string())
    );
    assert_eq!(cli.command.execute(PathKind::Directory), Ok(Action::Clear("x".to_string())));
    let pop = Commands::Populate { path: "y".to_string() };
    assert_eq!(pop.execute(PathKind::Directory), Ok(Action::Populate("y".to_string())));
    assert_eq!(
        pop.execute(PathKind::NotDirectory),
        Err("Path is not a directory: y".to_string())
    );
}

#[test]
fn execute_sort_carries_options() {
    let c = Commands::Sort { path: ".".to_string(), ext: true, name: false, recursive: true };
    let options = SortOptions { ext: true, name: false, recursive: true };
    assert_eq!(c.execute(PathKind::Directory), Ok(Action::Sort(".".to_string(), options)));
}

#[test]
fn sort_mode_from_options() {
    let m = |ext, name| SortOptions { ext, name, recursive: false }.mode();
    assert_eq!(m(true, true), SortMode::Extension);
    assert_eq!(m(true, false), SortMode::Extension);
    assert_eq!(m(false, true), SortMode::Semantic);
    assert_eq!(m(false, false), SortMode::Lexical);
}
