use minigrep::search;
use minigrep::search_case_insensitive;

#[test]
fn one_result() {
    let query = "duct";
    let contents = "
            Rust:
                Safe, Fast, Productive.
                Pick three.
        ";

    assert_eq!(vec!["Safe, Fast, Productive."], search(query, contents));
}

#[test]
fn case_sensitive() {
    let query = "duct";
    let contents = "
            Rust:
                Safe, Fast, Productive.
                Pick three.
                Duct tape.
        ";

    assert_eq!(vec!["Safe, Fast, Productive."], search(query, contents));
}

#[test]
fn case_insensitive() {
    let query = "rUsT";
    let contents = "
            Rust:
                Safe, Fast, Productive.
                Pick three.
                Trust me.
        ";

    assert_eq!(
        vec!["Rust:", "Trust me."],
        search_case_insensitive(query, contents)
    );
}

#[test]
fn empty_query_matches_every_line() {
    let contents = "first\nsecond\nthird";
    assert_eq!(vec!["first", "second", "third"], search("", contents));
    assert_eq!(
        vec!["first", "second", "third"],
        search_case_insensitive("", contents)
    );
}

#[test]
fn empty_contents_yields_nothing() {
    assert_eq!(Vec::<&str>::new(), search("query", ""));
    assert_eq!(Vec::<&str>::new(), search_case_insensitive("query", ""));
}

#[test]
fn order_is_preserved() {
    let contents = "ab\nxa\nq\nza";
    assert_eq!(vec!["ab", "xa", "za"], search("a", contents));
}

#[test]
fn match_runs_on_untrimmed_line() {
    // The query starts with a space that only the untrimmed line holds.
    let contents = "  Rust\nxRusty";
    assert_eq!(vec!["Rust"], search(" R", contents));
}

#[test]
fn crlf_line_breaks() {
    let contents = "alpha\r\nbeta\r\n";
    assert_eq!(vec!["beta"], search("b", contents));
    assert_eq!(vec!["alpha"], search("alpha", contents));
}

#[test]
fn no_trailing_newline_keeps_last_line() {
    assert_eq!(vec!["beta"], search("bet", "alpha\nbeta"));
}

#[test]
fn case_insensitive_beyond_ascii() {
    assert_eq!(vec!["CAFÉ"], search_case_insensitive("café", "CAFÉ\ntea"));
}

#[test]
fn no_match_yields_nothing() {
    assert_eq!(Vec::<&str>::new(), search("zzz", "a\nb\nc"));
}
