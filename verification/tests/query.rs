//! Names and patterns as a user types them.
use rasc::query::{format_class_name, fuzzy_class_pattern};

#[test]
fn normalizes_class_names_like_the_reference() {
    for (input, expected) in [
        ("com.foo.Main", "Lcom/foo/Main;"),
        ("Lcom/foo/Main;", "Lcom/foo/Main;"),
        ("Lcom.foo.Main;", "Lcom/foo/Main;"),
        ("LMain;", "LMain;"),
        ("com/foo/Main", "Lcom/foo/Main;"),
        ("Main", "LMain;"),
        ("Lcom/foo/Main", "Lcom/foo/Main;"),
        ("com.foo.Main$Inner", "Lcom/foo/Main$Inner;"),
        ("Lcom/foo/Main$Inner;", "Lcom/foo/Main$Inner;"),
        ("I", "LI;"),
        ("[Lcom/foo/Main;", "L[Lcom/foo/Main;"),
        ("java.lang.String", "Ljava/lang/String;"),
        ("Lfoo.bar", "Lfoo/bar;"),
        ("foo.bar;", "Lfoo/bar;"),
    ] {
        assert_eq!(format_class_name(input).unwrap(), expected, "{input:?}");
    }
    assert!(format_class_name("").is_err());
}

#[test]
fn normalizes_fuzzy_class_patterns_like_the_reference() {
    for (input, expected) in [
        ("com.foo", "com/foo"),
        ("com/foo", "com/foo"),
        ("com.foo/bar", "com/foo/bar"),
        ("com/foo.bar", "com/foo/bar"),
        ("Main", "Main"),
        ("", ""),
        ("Lcom/foo/Main;", "Lcom/foo/Main;"),
    ] {
        assert_eq!(fuzzy_class_pattern(input), expected, "{input:?}");
    }
}
