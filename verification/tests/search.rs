use minigrep::{search, search_case_insensitive, search_case_sensitive};
use minigrep::config::Config;

#[test]
fn search_correctly() {
    let query = "duct";
    let contents = "\
Rust:
safe, fast, productive.
Duct three.
        ";
    let expected = vec!["safe, fast, productive."];

    let result = search_case_sensitive(query, contents);

    assert_eq!(expected, result);
}

#[test]
fn search_not_found() {
    let query = "to be or not to be";
    let contents = "\
Rust:
safe, fast, productive.
Duct three.
        ";

    let expected: Vec<String> = Vec::new();
    let result = search_case_sensitive(query, contents);

    assert_eq!(expected, result);
}

#[test]
fn search_case_insensitive_correctly() {
    let query = "duct";
    let contents = "\
Rust:
safe, fast, productive.
Duct three.
        ";
    let expected = vec!["safe, fast, productive.", "Duct three."];

    let result = search_case_insensitive(query, contents);

    assert_eq!(expected, result);
}

#[test]
fn search_case_insensitive_not_found() {
    let query = "to be or not to be";
    let contents = "\
Rust:
safe, fast, productive.
Duct three.
        ";

    let expected: Vec<String> = Vec::new();
    let result = search_case_insensitive(query, contents);

    assert_eq!(expected, result);
}

#[test]
fn empty_query_matches_every_line() {
    assert_eq!(vec!["a", "b"], search_case_sensitive("", "a\nb"));
    assert_eq!(vec!["a", "b"], search_case_insensitive("", "a\nb"));
}

#[test]
fn empty_content_yields_empty_result() {
    let expected: Vec<String> = Vec::new();
    assert_eq!(expected, search_case_sensitive("x", ""));
    assert_eq!(expected, search_case_insensitive("x", ""));
    assert_eq!(expected, search_case_sensitive("", ""));
    assert_eq!(expected, search_case_insensitive("", ""));
}

#[test]
fn trailing_newline_does_not_add_a_line() {
    assert_eq!(vec!["a"], search_case_sensitive("", "a\n"));
    assert_eq!(vec![""], search_case_sensitive("", "\n"));
}

#[test]
fn search_twice_gives_identical_results() {
    let contents = "Rust:\nsafe, fast, productive.\nDuct three.\n";
    let first = search_case_sensitive("duct", contents);
    let second = search_case_sensitive("duct", contents);
    assert_eq!(first, second);
    let first_ci = search_case_insensitive("duct", contents);
    let second_ci = search_case_insensitive("duct", contents);
    assert_eq!(first_ci, second_ci);
}

#[test]
fn insensitive_result_contains_sensitive_result() {
    let contents = "Rust:\nsafe, fast, productive.\nDuct three.\n";
    let sensitive = search_case_sensitive("duct", contents);
    let insensitive = search_case_insensitive("duct", contents);
    for line in &sensitive {
        assert!(insensitive.contains(line));
    }
}

#[test]
fn folding_covers_every_cased_letter() {
    // ASCII letters fold across case.
    assert_eq!(vec!["all about rust"], search_case_insensitive("RUST", "all about rust"));
    // Accented letters fold too: 'É' matches 'é'.
    assert_eq!(vec!["caf\u{e9}"], search_case_insensitive("\u{c9}", "caf\u{e9}"));
    assert_eq!(vec!["caf\u{e9}"], search_case_insensitive("CAF\u{c9}", "caf\u{e9}"));
}

#[test]
fn folding_is_per_character_not_context_sensitive() {
    // Each character is lowercased on its own: a final capital sigma
    // folds to the ordinary lowercase sigma, wherever it stands.
    assert_eq!(
        vec!["\u{391}\u{3a3}"],
        search_case_insensitive("\u{3a3}", "\u{391}\u{3a3}")
    );
    assert_eq!(
        vec!["\u{391}\u{3a3}"],
        search_case_insensitive("\u{3c3}", "\u{391}\u{3a3}")
    );
}

#[test]
fn search_follows_config_flag() {
    let contents = "Rust:\nsafe, fast, productive.\nDuct three.\n";
    let args = vec![
        String::from("minigrep"),
        String::from("duct"),
        String::from("poem.txt"),
    ];

    let sensitive_config = Config::build(&args, false).unwrap();
    assert_eq!(vec!["safe, fast, productive."], search(&sensitive_config, contents));

    let insensitive_config = Config::build(&args, true).unwrap();
    assert_eq!(
        vec!["safe, fast, productive.", "Duct three."],
        search(&insensitive_config, contents)
    );
}
