use oagen::util::{capital, lowercase, str_eq, to_camel_case, trim_in_place, u64_string};

#[test]
fn lowercased() {
    let f = |s: &str| lowercase(s);
    assert_eq!(&f("test"), "test");
    assert_eq!(&f("Test"), "test");
    assert_eq!(&f("tEsT"), "test");
    assert_eq!(&f("tEST"), "test");
    assert_eq!(&f("Ünicode"), "ünicode");
}

#[test]
fn capitalized() {
    let f = |s: &str| capital(s);
    assert_eq!(&f("test"), "Test");
    assert_eq!(&f("Test"), "Test");
    assert_eq!(&f("tEsT"), "Test");
    assert_eq!(&f("tEST"), "Test");
    assert_eq!(&f("ünicode"), "Ünicode");
}

#[test]
fn camel_cased() {
    let f = |s: &str| to_camel_case(s);
    assert_eq!(
        &f("the Quick Brown Fox jumps over the Lazy Dog"),
        "theQuickBrownFoxJumpsOverTheLazyDog"
    );
    assert_eq!(
        &f("the quick ünicode Fox jumps over the Lazy Dog"),
        "theQuickÜnicodeFoxJumpsOverTheLazyDog"
    );
}

#[test]
fn camel_case_edges() {
    assert_eq!(&to_camel_case(""), "");
    assert_eq!(&to_camel_case("   "), "   ");
    assert_eq!(&to_camel_case("one"), "one");
    assert_eq!(&to_camel_case("  padded  words  "), "paddedWords");
}

#[test]
fn trimmed_in_place() {
    let s = trim_in_place("  test  ".to_string());
    assert_eq!(s, "test");

    let s = trim_in_place("  test".to_string());
    assert_eq!(s, "test");

    let s = trim_in_place("test  ".to_string());
    assert_eq!(s, "test");
}

#[test]
fn trim_edges() {
    assert_eq!(trim_in_place(String::new()), "");
    assert_eq!(trim_in_place("   ".to_string()), "");
    assert_eq!(trim_in_place("a b".to_string()), "a b");
}

#[test]
fn decimal_rendering() {
    assert_eq!(u64_string(0), "0");
    assert_eq!(u64_string(7), "7");
    assert_eq!(u64_string(42), "42");
    assert_eq!(u64_string(200), "200");
    assert_eq!(u64_string(18446744073709551615), "18446744073709551615");
}

#[test]
fn string_equality() {
    assert!(str_eq("", ""));
    assert!(str_eq("abc", "abc"));
    assert!(!str_eq("abc", "abd"));
    assert!(!str_eq("abc", "ab"));
    assert!(str_eq("ünïcode", "ünïcode"));
}
