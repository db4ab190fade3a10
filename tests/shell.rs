use chunkdrive::shell::tokenize_line;

fn words(v: &[&str]) -> Vec<String> {
    v.iter().map(|s| s.to_string()).collect()
}

#[test]
fn tokenize_plain_words() {
    assert_eq!(tokenize_line("ls"), words(&["ls"]));
    assert_eq!(tokenize_line("  mkdir   docs  \r\n"), words(&["mkdir", "docs"]));
    assert_eq!(tokenize_line(""), Vec::<String>::new());
    assert_eq!(tokenize_line("   "), Vec::<String>::new());
}

#[test]
fn tokenize_quotes_and_escapes() {
    assert_eq!(tokenize_line("up 'my file.txt' b"), words(&["up", "my file.txt", "b"]));
    assert_eq!(tokenize_line("a\\ b c"), words(&["a b", "c"]));
    assert_eq!(tokenize_line("say \"x `y\" z"), words(&["say", "x y z"]));
    assert_eq!(tokenize_line("\\\"q"), words(&["\"q"]));
    assert_eq!(tokenize_line("ä ö"), words(&["ä", "ö"]));
}
