use minigrep::config::{Config, ConfigError};
use minigrep::search::{search, search_case_insensitive, select_lines};
use minigrep::text::{chars_of, contains, line_spans};

fn args(items: &[&str]) -> Vec<String> {
    items.iter().map(|s| String::from(*s)).collect()
}

#[test]
fn case_sensitive() {
    let query = "duct";
    let contents = "\
Rust:
safe, fast, productive.
Pick three.
Duct tape.";

    assert_eq!(vec!["safe, fast, productive."], search(query, contents));
}

#[test]
fn case_insensitive() {
    let query = "rUsT";
    let contents = "\
Rust:
safe, fast, productive.
Pick three.
Trust me.";

    assert_eq!(
        vec!["Rust:", "Trust me."],
        search_case_insensitive(query, contents)
    );
}

#[test]
fn config_error_too_few_arguments() {
    let result = Config::build(vec![String::from("foo")], false);
    match result {
        Ok(_) => panic!("This should fail"),
        Err(e) => assert!(e.message().to_lowercase().contains("query")),
    }
}

#[test]
fn config_three_arguments() {
    let result = Config::build(
        vec![
            String::from("minigrep"),
            String::from("to"),
            String::from("poem.txt"),
        ],
        false,
    )
    .unwrap();

    assert_eq!(result.query, "to");
    assert_eq!(result.file_path, "poem.txt");
}

#[test]
fn config_can_set_case_insensitive() {
    let result = Config::build(
        vec![
            String::from("minigrep"),
            String::from("-i"),
            String::from("to"),
            String::from("poem.txt"),
        ],
        false,
    )
    .unwrap();

    assert!(result.ignore_case)
}

#[test]
fn config_plain_arguments_are_case_sensitive() {
    let c = Config::build(args(&["prog", "to", "poem.txt"]), false).unwrap();
    assert_eq!(c.query, "to");
    assert_eq!(c.file_path, "poem.txt");
    assert!(!c.ignore_case);
}

#[test]
fn config_flag_keeps_positions() {
    let c = Config::build(args(&["prog", "-i", "to", "poem.txt"]), false).unwrap();
    assert_eq!(c.query, "to");
    assert_eq!(c.file_path, "poem.txt");
    assert!(c.ignore_case);
}

#[test]
fn config_flag_anywhere_after_program_name() {
    let c = Config::build(args(&["prog", "to", "-i", "poem.txt"]), false).unwrap();
    assert_eq!(c.query, "to");
    assert_eq!(c.file_path, "poem.txt");
    assert!(c.ignore_case);
    let d = Config::build(args(&["prog", "to", "poem.txt", "-i"]), false).unwrap();
    assert_eq!(d.file_path, "poem.txt");
    assert!(d.ignore_case);
}

#[test]
fn config_environment_sets_case_insensitive() {
    let c = Config::build(args(&["prog", "to", "poem.txt"]), true).unwrap();
    assert!(c.ignore_case);
}

#[test]
fn config_program_name_is_never_the_flag() {
    let c = Config::build(args(&["-i", "to", "poem.txt"]), false).unwrap();
    assert_eq!(c.query, "to");
    assert_eq!(c.file_path, "poem.txt");
    assert!(!c.ignore_case);
}

#[test]
fn config_extra_arguments_are_ignored() {
    let c = Config::build(args(&["prog", "a", "b", "c"]), false).unwrap();
    assert_eq!(c.query, "a");
    assert_eq!(c.file_path, "b");
}

#[test]
fn config_missing_query() {
    assert_eq!(Config::build(args(&["prog"]), false).err(), Some(ConfigError::MissingQuery));
    assert_eq!(Config::build(args(&[]), false).err(), Some(ConfigError::MissingQuery));
    assert_eq!(
        Config::build(args(&["prog", "-i", "-i"]), true).err(),
        Some(ConfigError::MissingQuery)
    );
}

#[test]
fn config_missing_file_path() {
    let e = Config::build(args(&["prog", "to"]), false).err();
    assert_eq!(e, Some(ConfigError::MissingFilePath));
    assert!(e.unwrap().message().contains("file path"));
    assert_eq!(
        Config::build(args(&["prog", "-i", "to"]), false).err(),
        Some(ConfigError::MissingFilePath)
    );
}

#[test]
fn config_empty_query_is_kept() {
    let c = Config::build(args(&["prog", "", "poem.txt"]), false).unwrap();
    assert_eq!(c.query, "");
}

#[test]
fn duct_tape_only_matches_case_insensitively() {
    let contents = "Rust:\nsafe, fast, productive.\nPick three.\nDuct tape.";
    assert_eq!(search("duct", contents), vec!["safe, fast, productive."]);
    assert_eq!(
        search_case_insensitive("duct", contents),
        vec!["safe, fast, productive.", "Duct tape."]
    );
}

#[test]
fn rust_ignoring_case_in_poem() {
    let contents = "Rust:\nsafe, fast, productive.\nPick three.\nDuct tape.";
    assert_eq!(search_case_insensitive("rUsT", contents), vec!["Rust:"]);
    assert_eq!(search("rUsT", contents), Vec::<&str>::new());
}

#[test]
fn empty_query_selects_every_line() {
    let contents = "one\n\nthree\r\nfour\n";
    let all = vec!["one", "", "three", "four"];
    assert_eq!(search("", contents), all);
    assert_eq!(search_case_insensitive("", contents), all);
}

#[test]
fn empty_contents_have_no_lines() {
    assert_eq!(search("", ""), Vec::<&str>::new());
    assert_eq!(search_case_insensitive("x", ""), Vec::<&str>::new());
}

#[test]
fn line_terminators_are_stripped() {
    let contents = "alpha\r\nbeta\ngamma\n";
    assert_eq!(search("a", contents), vec!["alpha", "beta", "gamma"]);
    assert_eq!(search("\r", contents), Vec::<&str>::new());
    assert_eq!(search("a\nb", contents), Vec::<&str>::new());
}

#[test]
fn lone_carriage_return_stays_in_line() {
    assert_eq!(search("", "a\rb\nc\r"), vec!["a\rb", "c\r"]);
    assert_eq!(search("", "\n"), vec![""]);
}

#[test]
fn search_is_repeatable() {
    let contents = "to be\nor not\nto be";
    let first = search("to", contents);
    let second = search("to", contents);
    assert_eq!(first, second);
    assert_eq!(first, vec!["to be", "to be"]);
}

#[test]
fn non_ascii_lines() {
    let contents = "Ärger\nöl\nÖLIG";
    assert_eq!(search("öl", contents), vec!["öl"]);
    assert_eq!(search_case_insensitive("öL", contents), vec!["öl", "ÖLIG"]);
    assert_eq!(search_case_insensitive("ärg", contents), vec!["Ärger"]);
}

#[test]
fn select_lines_follows_config() {
    let contents = "Rust:\nTrust me.\nrusty";
    let exact = Config::build(args(&["prog", "Rust", "f"]), false).unwrap();
    assert_eq!(select_lines(&exact, contents), vec!["Rust:"]);
    let folded = Config::build(args(&["prog", "-i", "Rust", "f"]), false).unwrap();
    assert_eq!(select_lines(&folded, contents), vec!["Rust:", "Trust me.", "rusty"]);
}

#[test]
fn contains_finds_runs_of_characters() {
    assert!(contains("productive", "duct"));
    assert!(contains("abc", ""));
    assert!(contains("", ""));
    assert!(!contains("", "a"));
    assert!(!contains("Duct", "duct"));
    assert!(contains("aab", "ab"));
    assert!(!contains("ab", "abc"));
}

#[test]
fn chars_and_spans() {
    assert_eq!(chars_of("añb"), vec!['a', 'ñ', 'b']);
    let text = chars_of("ab\r\n\ncd");
    assert_eq!(line_spans(&text), vec![(0, 2), (4, 4), (5, 7)]);
}
