use shlex::Error;
use shlex::Shlex;
use shlex::split;

#[test]
fn test_split() {
    let items: Vec<(&str, Result<Vec<&str>, Error>)> = vec![
        ("foo$baz", Ok(vec!["foo$baz"])),
        ("foo baz", Ok(vec!["foo", "baz"])),
        ("foo\"bar\"baz", Ok(vec!["foobarbaz"])),
        ("foo \"bar\"baz", Ok(vec!["foo", "barbaz"])),
        ("   foo \nbar", Ok(vec!["foo", "bar"])),
        ("foo\\\nbar", Ok(vec!["foobar"])),
        ("\"foo\\\nbar\"", Ok(vec!["foobar"])),
        ("'baz\\$b'", Ok(vec!["baz\\$b"])),
        ("'baz\\\''", Ok(vec!["baz\'"])),
        ("\\", Err(Error::EndOfStringBackslash)),
        ("\"\\", Err(Error::EndOfStringBackslash)),
        ("'\\", Err(Error::EndOfStringBackslash)),
        ("\"", Err(Error::UnclosedDoubleQuote)),
        ("'", Err(Error::UnclosedSingleQuote)),
        ("foo #bar\nbaz", Ok(vec!["foo", "baz"])),
        ("foo #bar", Ok(vec!["foo"])),
        ("foo#bar", Ok(vec!["foo#bar"])),
        ("foo\"#bar", Err(Error::UnclosedDoubleQuote)),
    ];
    for (input, output) in items {
        assert_eq!(
            split(input),
            output.map(|o| o.iter().map(|&x| x.to_owned()).collect::<Vec<String>>())
        );
    }
}

#[test]
fn test_lineno() -> Result<(), Error> {
    let mut sh = Shlex::new("\nfoo\nbar");
    while let Some(word) = sh.next() {
        if word? == "bar" {
            assert_eq!(sh.line_no, 3);
        }
    }
    Ok(())
}

#[test]
fn test_empty_input() {
    assert_eq!(split(""), Ok(vec![]));
}

#[test]
fn test_whitespace_only() {
    assert_eq!(split("  \t \n "), Ok(vec![]));
}

#[test]
fn test_comment_only() {
    assert_eq!(split("# just a comment"), Ok(vec![]));
}

#[test]
fn test_end_of_string_backslash() {
    assert_eq!(split("word\\"), Err(Error::EndOfStringBackslash));
}

#[test]
fn test_unclosed_double_quote() {
    assert_eq!(split("say \"half"), Err(Error::UnclosedDoubleQuote));
}

#[test]
fn test_unclosed_single_quote() {
    assert_eq!(split("say 'half"), Err(Error::UnclosedSingleQuote));
}

#[test]
fn test_double_quote_escapes() {
    assert_eq!(split("\"a\\$b\\`c\\\"d\\\\e\\xf\""), Ok(vec!["a$b`c\"d\\e\\xf".to_owned()]));
}

#[test]
fn test_single_quote_escapes() {
    assert_eq!(split("'a\\'b' '\\\\c'"), Ok(vec!["a'b".to_owned(), "\\c".to_owned()]));
}

#[test]
fn test_empty_word() {
    assert_eq!(split("\"\""), Ok(vec!["".to_owned()]));
}

#[test]
fn test_lineno_counts_all_newlines() {
    let mut sh = Shlex::new("a\nb\nc");
    while let Some(word) = sh.next() {
        word.unwrap();
    }
    assert_eq!(sh.line_no, 3);
}
