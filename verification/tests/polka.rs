use coursework::polka::{classify, words, Token};

fn strings(v: &[&str]) -> Vec<String> {
    v.iter().map(|s| s.to_string()).collect()
}

#[test]
fn words_split_on_white_space() {
    assert_eq!(words("  1 2\t+ "), strings(&["1", "2", "+"]));
    assert_eq!(words("10 'x set\n$x $x *"), strings(&["10", "'x", "set", "$x", "$x", "*"]));
}

#[test]
fn words_of_blank_text() {
    assert_eq!(words(""), Vec::<String>::new());
    assert_eq!(words(" \t\r\n "), Vec::<String>::new());
}

#[test]
fn words_split_on_unicode_space() {
    assert_eq!(words("a\u{3000}b\u{a0}c"), strings(&["a", "b", "c"]));
}

#[test]
fn operators_by_first_sign_found() {
    assert_eq!(classify("+"), Token::Add);
    assert_eq!(classify("*+"), Token::Add);
    assert_eq!(classify("*"), Token::Multiply);
    assert_eq!(classify("/*"), Token::Multiply);
    assert_eq!(classify("/"), Token::Divide);
    assert_eq!(classify("-"), Token::Subtract);
    assert_eq!(classify("-3"), Token::Subtract);
}

#[test]
fn symbols_of_one_byte() {
    assert_eq!(classify("'a"), Token::Symbol("a".to_string()));
    assert_eq!(classify("'"), Token::Symbol(String::new()));
    assert_eq!(classify("a'"), Token::Symbol("'".to_string()));
}

#[test]
fn symbols_refused() {
    assert_eq!(classify("'ab"), Token::Invalid);
    assert_eq!(classify("'\u{e9}"), Token::Invalid);
    assert_eq!(classify("\u{e9}'"), Token::Invalid);
    assert_eq!(classify("'set"), Token::Invalid);
}

#[test]
fn binding_words() {
    assert_eq!(classify("set"), Token::Bind);
    assert_eq!(classify("reset"), Token::Bind);
    assert_eq!(classify("$set"), Token::Bind);
}

#[test]
fn lookups() {
    assert_eq!(classify("$x"), Token::Lookup("x".to_string()));
    assert_eq!(classify("$name"), Token::Lookup("name".to_string()));
    assert_eq!(classify("$"), Token::Lookup(String::new()));
    assert_eq!(classify("\u{e9}$"), Token::Invalid);
}

#[test]
fn literals() {
    assert_eq!(classify("3.5"), Token::Literal("3.5".to_string()));
    assert_eq!(classify("abc"), Token::Literal("abc".to_string()));
}
