use shlex::join;
use shlex::quote;
use shlex::split;

#[test]
fn test_quote() {
    assert_eq!(quote("foobar"), "foobar");
    assert_eq!(quote("foo bar"), "\"foo bar\"");
    assert_eq!(quote("\""), "\"\\\"\"");
    assert_eq!(quote(""), "\"\"");
}

#[test]
fn test_join() {
    assert_eq!(join(vec![]), "");
    assert_eq!(join(vec![""]), "\"\"");
    assert_eq!(join(vec!["a", "b"]), "a b");
    assert_eq!(join(vec!["foo bar", "baz"]), "\"foo bar\" baz");
}

#[test]
fn test_quote_escapes_each_special_char() {
    assert_eq!(quote("a$b"), "\"a\\$b\"");
    assert_eq!(quote("a`b"), "\"a\\`b\"");
    assert_eq!(quote("a\\b"), "\"a\\\\b\"");
    assert_eq!(quote("a\"b"), "\"a\\\"b\"");
}

#[test]
fn test_quote_identity_on_plain_word() {
    assert_eq!(quote("plain-word_123"), "plain-word_123");
    assert_eq!(quote("path/to/file.txt"), "path/to/file.txt");
}

#[test]
fn test_quote_roundtrip() {
    let words = vec![
        "",
        "foo",
        "foo bar",
        "it's",
        "a\"b$c`d\\e",
        "tab\there",
        "star*glob?",
        "#nocomment",
        "~user=%val",
    ];
    for w in words {
        assert_eq!(split(&quote(w)), Ok(vec![w.to_owned()]));
    }
}

#[test]
fn test_join_roundtrip() {
    let words = vec!["foo", "bar baz", "", "qu'ote"];
    let line = join(words.clone());
    assert_eq!(
        split(&line),
        Ok(words.iter().map(|&x| x.to_owned()).collect::<Vec<String>>())
    );
}
