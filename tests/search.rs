use minigrep::{search, search_case_insensitive};

#[test]
fn one_result() {
    let query: &str = "duct";
    let contents: &str = "\
Rust:
safe, fast, productive.
Pick three.";
    assert_eq!(vec!["safe, fast, productive."], search(query, contents));
}

#[test]
fn case_sensitive() {
    let query = "duct";
    let contents = "\
Rust:
safe, fast, productive.
Pick three.
Duct tape.";

    assert_eq!(vec!["safe, fast, productive."], search(query, contents));
}

#[test]
fn case_insensitive() {
    let query = "rUsT";
    let contents = "\
Rust:
safe, fast, productive.
Pick three.
Trust me.";

    assert_eq!(
        vec!["Rust:", "Trust me."],
        search_case_insensitive(query, contents)
    );
}

#[test]
fn duct_without_the_tape_line() {
    let contents = "safe, fast, productive.\nPick three.";
    assert_eq!(vec!["safe, fast, productive."], search("duct", contents));
}

#[test]
fn empty_query_returns_every_line() {
    let contents = "first\n\nthird\r\nfourth\n";
    assert_eq!(vec!["first", "", "third", "fourth"], search("", contents));
}

#[test]
fn empty_contents_give_nothing() {
    assert!(search("anything", "").is_empty());
    assert!(search("", "").is_empty());
    assert!(search_case_insensitive("x", "").is_empty());
}

#[test]
fn no_match_gives_empty_result() {
    assert!(search("zebra", "one\ntwo\nthree").is_empty());
}

#[test]
fn search_twice_gives_same_lines() {
    let contents = "alpha\nbeta\nalphabet";
    let first = search("alpha", contents);
    let second = search("alpha", contents);
    assert_eq!(first, second);
    assert_eq!(vec!["alpha", "alphabet"], first);
}

#[test]
fn line_matching_twice_appears_once() {
    assert_eq!(vec!["abab", "ab"], search("ab", "abab\nba\nab"));
}

#[test]
fn results_borrow_from_contents() {
    let contents = String::from("x1\ny\nx2");
    let found = search("x", &contents);
    assert_eq!(vec!["x1", "x2"], found);
    let start = contents.as_ptr() as usize;
    let end = start + contents.len();
    for line in found {
        let p = line.as_ptr() as usize;
        assert!(start <= p && p + line.len() <= end);
    }
}

#[test]
fn case_insensitive_keeps_original_casing() {
    assert_eq!(
        vec!["HELLO there", "say hello"],
        search_case_insensitive("Hello", "HELLO there\nbye\nsay hello")
    );
}

#[test]
fn case_insensitive_beyond_ascii() {
    assert_eq!(
        vec!["ÄRGER", "ärger"],
        search_case_insensitive("äRg", "ÄRGER\nArger\närger")
    );
}

#[test]
fn case_sensitive_beyond_ascii() {
    assert_eq!(vec!["ärger"], search("är", "ÄRGER\nArger\närger"));
}
