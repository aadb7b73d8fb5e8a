use clip::text::{push_decimal, split_words, str_eq};
use clip::{Error, Type};

#[test]
fn split_at_every_single_space() {
    assert_eq!(split_words("a b"), vec!["a", "b"]);
    assert_eq!(split_words("a  b "), vec!["a", "", "b", ""]);
    assert_eq!(split_words(""), vec![""]);
    assert_eq!(split_words("é ü"), vec!["é", "ü"]);
    assert_eq!(split_words("--file foo.rs"), "--file foo.rs".split(" ").collect::<Vec<_>>());
}

#[test]
fn string_equality() {
    assert!(str_eq("abc", "abc"));
    assert!(!str_eq("abc", "abd"));
    assert!(!str_eq("abc", "ab"));
    assert!(str_eq("", ""));
    assert!(str_eq("é", "é"));
}

#[test]
fn decimal_text() {
    let mut s = String::from("x=");
    push_decimal(&mut s, -42);
    assert_eq!(s, "x=-42");
    let mut s = String::new();
    push_decimal(&mut s, 0);
    assert_eq!(s, "0");
    let mut s = String::new();
    push_decimal(&mut s, i32::MIN);
    assert_eq!(s, "-2147483648");
    let mut s = String::new();
    push_decimal(&mut s, i32::MAX);
    assert_eq!(s, "2147483647");
}

#[test]
fn type_text() {
    assert_eq!(Type::Any.to_display_string(), "Any");
    assert_eq!(Type::Integer.to_display_string(), "Integer");
    assert_eq!(Type::Number.to_display_string(), "Number");
    assert_eq!(Type::String.to_display_string(), "String");
    assert_eq!(Type::File.to_display_string(), "File");
    assert_eq!(Type::Enum(&["a", "bc"]).to_display_string(), "Set::[a, bc]");
    assert_eq!(Type::Enum(&[]).to_display_string(), "Set::[]");
    assert_eq!(Type::Range { lower: -5, upper: 10 }.to_display_string(), "Range::[-5-10]");
}

#[test]
fn error_messages() {
    assert_eq!(Error::UnknownArgument("--x".to_owned()).message(), "unrecognized argument: --x");
    assert_eq!(Error::ExpectedParameter("file".to_owned()).message(), "expected param: file");
    assert_eq!(Error::TypeError(Type::Integer).message(), "parameter must be of type Integer");
    let e: Error = Type::Range { lower: 0, upper: 3 }.into();
    assert!(matches!(e, Error::TypeError(Type::Range { lower: 0, upper: 3 })));
    assert_eq!(e.message(), "parameter must be of type Range::[0-3]");
}
