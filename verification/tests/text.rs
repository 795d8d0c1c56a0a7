use domparser::text::{
    chars_of, eq_ignoring_ascii_case, has_token, join_tokens, same_str, split_tokens, string_from,
    string_of, trim_chars,
};
use domparser::{camel_to_kebab, kebab_to_camel};

fn s(x: &str) -> String {
    x.to_string()
}

#[test]
fn kebab_to_camel_values() {
    assert_eq!(kebab_to_camel("user-id"), "userId");
    assert_eq!(kebab_to_camel("a-b-c"), "aBC");
    assert_eq!(kebab_to_camel("plain"), "plain");
    assert_eq!(kebab_to_camel(""), "");
    assert_eq!(kebab_to_camel("-x"), "X");
    assert_eq!(kebab_to_camel("x-"), "x");
    assert_eq!(kebab_to_camel("a--b"), "aB");
    assert_eq!(kebab_to_camel("a-1-é"), "a1é");
    assert_eq!(kebab_to_camel("a-B"), "aB");
}

#[test]
fn camel_to_kebab_values() {
    assert_eq!(camel_to_kebab("userId"), "user-id");
    assert_eq!(camel_to_kebab("aBC"), "a-b-c");
    assert_eq!(camel_to_kebab("plain"), "plain");
    assert_eq!(camel_to_kebab(""), "");
    assert_eq!(camel_to_kebab("Upper"), "upper");
    assert_eq!(camel_to_kebab("x1Y"), "x1-y");
    // upper case beyond ASCII gets its dash, and keeps its form
    assert_eq!(camel_to_kebab("aÉ"), "a-É");
}

#[test]
fn there_and_back_for_simple_keys() {
    for key in ["a", "fooBar", "x1", "longKeyName"] {
        assert_eq!(kebab_to_camel(&camel_to_kebab(key)), key);
    }
}

#[test]
fn characters_and_strings() {
    assert_eq!(chars_of("aé😀"), vec!['a', 'é', '😀']);
    assert_eq!(chars_of(""), Vec::<char>::new());
    assert_eq!(string_of(&vec!['a', 'é', '😀']), "aé😀");
    assert_eq!(string_from(&vec!['a', 'b', 'c', 'd'], 1, 3), "bc");
    assert_eq!(string_from(&vec!['a', 'b'], 2, 2), "");
    assert!(same_str("ab", "ab"));
    assert!(!same_str("ab", "aB"));
}

#[test]
fn words() {
    assert_eq!(split_tokens("  a\tb \n c  "), vec![s("a"), s("b"), s("c")]);
    assert_eq!(split_tokens(""), Vec::<String>::new());
    assert_eq!(split_tokens(" \u{a0}\u{3000} "), Vec::<String>::new());
    assert_eq!(split_tokens("one"), vec![s("one")]);
    assert_eq!(split_tokens("a\u{2003}é"), vec![s("a"), s("é")]);
    assert_eq!(join_tokens(&vec![s("a"), s("b"), s("c")]), "a b c");
    assert_eq!(join_tokens(&vec![s("a")]), "a");
    assert_eq!(join_tokens(&vec![]), "");
    assert!(has_token(&vec![s("a"), s("b")], "b"));
    assert!(!has_token(&vec![s("a"), s("b")], "c"));
}

#[test]
fn trimming() {
    assert_eq!(string_of(&trim_chars("  a b \n")), "a b");
    assert_eq!(string_of(&trim_chars("a")), "a");
    assert_eq!(string_of(&trim_chars("   ")), "");
    assert_eq!(string_of(&trim_chars("")), "");
    assert_eq!(string_of(&trim_chars("\u{a0}x\u{2003}")), "x");
}

#[test]
fn comparing_without_ascii_case() {
    assert!(eq_ignoring_ascii_case("DiV", "div"));
    assert!(eq_ignoring_ascii_case("", ""));
    assert!(!eq_ignoring_ascii_case("div", "divs"));
    assert!(!eq_ignoring_ascii_case("é", "É"));
    assert!(eq_ignoring_ascii_case("é", "é"));
    assert!(!eq_ignoring_ascii_case("a", "b"));
}
