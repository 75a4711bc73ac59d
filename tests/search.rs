use minigrep::{search_case_insensitive, search_case_sensitive};

#[test]
fn case_sensitive() {
    let text = "duct";
    let contents = "\
Rust:
safe, fast, productive.
Pick three. 🤓
I love Duct tape.";

    assert_eq!(vec!["safe, fast, productive."], search_case_sensitive(text, contents));
}

#[test]
fn case_insensitive() {
    let text = "rUSt";
    let contents = "\
Rust:
safe, fast, productive.
Pick three. 🤓
Trust me. 🤓🤓🤓";

    assert_eq!(vec!["Rust:", "Trust me. 🤓🤓🤓"], search_case_insensitive(text, contents));
}

#[test]
fn sensitive_excludes_other_case() {
    let contents = "Rust:\nsafe, fast, productive.\nPick three.\nI love Duct tape.";
    assert_eq!(vec!["safe, fast, productive."], search_case_sensitive("duct", contents));
}

#[test]
fn insensitive_finds_every_case() {
    let contents = "Rust:\nsafe, fast, productive.\nPick three.\nTrust me.";
    assert_eq!(vec!["Rust:", "Trust me."], search_case_insensitive("rUSt", contents));
}

#[test]
fn empty_query_returns_every_line() {
    let contents = "one\ntwo\n\nfour";
    let all = vec!["one", "two", "", "four"];
    assert_eq!(all, search_case_sensitive("", contents));
    assert_eq!(all, search_case_insensitive("", contents));
}

#[test]
fn empty_contents_returns_nothing() {
    let none: Vec<&str> = Vec::new();
    assert_eq!(none, search_case_sensitive("a", ""));
    assert_eq!(none, search_case_insensitive("a", ""));
    assert_eq!(none, search_case_sensitive("", ""));
}

#[test]
fn no_match_returns_nothing() {
    let none: Vec<&str> = Vec::new();
    assert_eq!(none, search_case_sensitive("zebra", "Rust:\nsafe"));
    assert_eq!(none, search_case_insensitive("a much longer query", "short\nlines"));
}

#[test]
fn repeated_lines_are_kept() {
    let contents = "abc\nxyz\nabc\nabcabc";
    assert_eq!(vec!["abc", "abc", "abcabc"], search_case_sensitive("abc", contents));
}

#[test]
fn insensitive_includes_sensitive() {
    let contents = "Rust:\nrust\nRUST\ntrusty\nnothing";
    let exact = search_case_sensitive("rust", contents);
    let folded = search_case_insensitive("rust", contents);
    assert_eq!(vec!["rust", "trusty"], exact);
    assert_eq!(vec!["Rust:", "rust", "RUST", "trusty"], folded);
    for line in &exact {
        assert!(folded.contains(line));
    }
}

#[test]
fn repeated_search_gives_same_lines() {
    let contents = "Rust:\nsafe, fast, productive.\nPick three.\nTrust me.";
    assert_eq!(search_case_sensitive("st", contents), search_case_sensitive("st", contents));
    assert_eq!(search_case_insensitive("ST", contents), search_case_insensitive("ST", contents));
}

#[test]
fn crlf_line_endings_are_dropped() {
    let contents = "first line\r\nsecond line\r\nthird\r";
    assert_eq!(vec!["first line", "second line"], search_case_sensitive("line", contents));
    assert_eq!(vec!["third\r"], search_case_sensitive("third", contents));
}

#[test]
fn insensitive_folds_non_ascii_letters() {
    let contents = "ÉCOLE\nécole\nschool";
    assert_eq!(vec!["ÉCOLE", "école"], search_case_insensitive("École", contents));
    assert_eq!(vec!["école"], search_case_sensitive("école", contents));
}

#[test]
fn query_spanning_multibyte_text() {
    let contents = "a🤓b\n🤓\nab";
    assert_eq!(vec!["a🤓b"], search_case_sensitive("🤓b", contents));
    assert_eq!(vec!["a🤓b", "🤓"], search_case_sensitive("🤓", contents));
}
