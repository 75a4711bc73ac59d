use minigrep::{search, Config, NOT_ENOUGH_ARGUMENTS};

fn args(items: &[&str]) -> Vec<String> {
    items.iter().map(|s| s.to_string()).collect()
}

#[test]
fn build_refuses_missing_arguments() {
    assert!(matches!(Config::build(&args(&[]), false), Err(e) if e == NOT_ENOUGH_ARGUMENTS));
    assert!(matches!(Config::build(&args(&["minigrep"]), false), Err(e) if e == NOT_ENOUGH_ARGUMENTS));
    assert!(matches!(
        Config::build(&args(&["minigrep", "query"]), true),
        Err(e) if e == "not enough arguments given."
    ));
}

#[test]
fn build_takes_query_and_path() {
    let config = Config::build(&args(&["minigrep", "duct", "poem.txt", "extra"]), true).unwrap();
    assert_eq!("duct", config.text);
    assert_eq!("poem.txt", config.file_path);
    assert!(config.ignore_case);
    let config = Config::build(&args(&["minigrep", "duct", "poem.txt"]), false).unwrap();
    assert!(!config.ignore_case);
}

#[test]
fn search_follows_case_policy() {
    let contents = "Rust:\nsafe, fast, productive.\nTrust me.";
    let exact = Config::build(&args(&["minigrep", "rUSt", "f"]), false).unwrap();
    let folded = Config::build(&args(&["minigrep", "rUSt", "f"]), true).unwrap();
    assert_eq!(Vec::<&str>::new(), search(&exact, contents));
    assert_eq!(vec!["Rust:", "Trust me."], search(&folded, contents));
}
