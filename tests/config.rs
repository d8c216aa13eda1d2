use minigrep::{lines_to_print, Config, RunError, NOT_ENOUGH_ARGUMENTS};

fn strings(args: &[&str]) -> Vec<String> {
    args.iter().map(|a| a.to_string()).collect()
}

#[test]
fn build_needs_three_arguments() {
    assert!(matches!(
        Config::build(&strings(&["prog"])),
        Err(NOT_ENOUGH_ARGUMENTS)
    ));
    assert!(matches!(
        Config::build(&strings(&["prog", "onlyquery"])),
        Err(NOT_ENOUGH_ARGUMENTS)
    ));
    assert!(Config::build(&[]).is_err());
    assert_eq!("Not enough arguments!", NOT_ENOUGH_ARGUMENTS);
}

#[test]
fn build_takes_query_and_path() {
    let config = Config::build(&strings(&["prog", "q", "path.txt"])).ok().unwrap();
    assert_eq!("q", config.query);
    assert_eq!("path.txt", config.file_path);
}

#[test]
fn build_ignores_extra_arguments() {
    let config = Config::build(&strings(&["prog", "q", "path.txt", "more", "-i"]))
        .ok()
        .unwrap();
    assert_eq!("q", config.query);
    assert_eq!("path.txt", config.file_path);
}

#[test]
fn build_copies_the_arguments() {
    let args = strings(&["prog", "needle", "hay.txt"]);
    let config = Config::build(&args).ok().unwrap();
    drop(args);
    assert_eq!("needle", config.query);
    assert_eq!("hay.txt", config.file_path);
}

#[test]
fn new_takes_query_and_path() {
    let config = Config::new(&strings(&["prog", "to", "poem.txt", "extra"]));
    assert_eq!("to", config.query);
    assert_eq!("poem.txt", config.file_path);
}

#[test]
fn failed_read_prints_nothing() {
    let config = Config::new(&strings(&["prog", "to", "missing.txt"]));
    let read: Result<&str, RunError> = Err(RunError {
        cause: String::from("No such file or directory (os error 2)"),
    });
    match lines_to_print(&config, read) {
        Err(e) => assert_eq!("No such file or directory (os error 2)", e.cause),
        Ok(_) => panic!("a failed read must surface its error"),
    }
}

#[test]
fn successful_read_prints_matching_lines() {
    let config = Config::new(&strings(&["prog", "to", "poem.txt"]));
    let contents = "Are you nobody, too?\nThen there's a pair of us\nHow dreary to be somebody!";
    match lines_to_print(&config, Ok(contents)) {
        Ok(found) => assert_eq!(
            vec!["Are you nobody, too?", "How dreary to be somebody!"],
            found
        ),
        Err(_) => panic!("a successful read must not fail"),
    }
}
