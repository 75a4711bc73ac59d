use minigrep::{chars_of, contains_text, fold_chars, split_lines};

#[test]
fn split_lines_follows_line_endings() {
    assert_eq!(vec!["a", "b", "c"], split_lines("a\nb\nc"));
    assert_eq!(vec!["a", "b"], split_lines("a\nb\n"));
    assert_eq!(vec!["a", "", "b"], split_lines("a\n\nb"));
    assert_eq!(vec![""], split_lines("\n"));
    assert_eq!(vec!["x", "y\r"], split_lines("x\r\ny\r"));
    assert_eq!(vec!["\r"], split_lines("\r\r\n"));
    let none: Vec<&str> = Vec::new();
    assert_eq!(none, split_lines(""));
}

#[test]
fn split_lines_keeps_multibyte_characters() {
    assert_eq!(vec!["Pick three. 🤓", "żółw", "日本"], split_lines("Pick three. 🤓\nżółw\r\n日本"));
}

#[test]
fn chars_of_gives_each_character() {
    assert_eq!(vec!['a', '🤓', 'é'], chars_of("a🤓é"));
    assert_eq!(Vec::<char>::new(), chars_of(""));
}

#[test]
fn contains_text_finds_runs() {
    let hay = chars_of("productive");
    assert!(contains_text(&hay, &chars_of("duct")));
    assert!(contains_text(&hay, &chars_of("")));
    assert!(contains_text(&hay, &chars_of("productive")));
    assert!(!contains_text(&hay, &chars_of("Duct")));
    assert!(!contains_text(&hay, &chars_of("productive!")));
    assert!(!contains_text(&chars_of(""), &chars_of("a")));
}

#[test]
fn fold_chars_lowercases_each_character() {
    assert_eq!(chars_of("rust"), fold_chars(&chars_of("rUSt")));
    assert_eq!(chars_of("école 🤓"), fold_chars(&chars_of("ÉCOLE 🤓")));
    assert_eq!(chars_of("i\u{307}"), fold_chars(&chars_of("İ")));
}
