//! The JSON writer.
use rasc::json::{error, escape, escape_dotted, record};

#[test]
fn escapes_only_what_json_requires() {
    let mut out = String::new();
    escape("plain", &mut out);
    assert_eq!(out, "\"plain\"");

    // A class name can hold every one of these, and a DEX string can hold a newline.
    out.clear();
    escape("a|b\"c\\d\ne\tf\rg\u{1}h", &mut out);
    assert_eq!(out, "\"a|b\\\"c\\\\d\\ne\\tf\\rg\\u0001h\"");

    // Non-ASCII is left as it is: the payload is UTF-8 and a readable name is the point.
    out.clear();
    escape("漢字🙂ключ", &mut out);
    assert_eq!(out, "\"漢字🙂ключ\"");
}

#[test]
fn a_dotted_name_is_mapped_and_escaped_in_one_pass() {
    let mut out = String::new();
    escape_dotted("com/example/Foo", &mut out);
    assert_eq!(out, "\"com.example.Foo\"");

    // Everything `escape` does still happens, and only `/` is mapped.
    out.clear();
    escape_dotted("com/a\"b\\c\nd/\u{1}", &mut out);
    assert_eq!(out, "\"com.a\\\"b\\\\c\\nd.\\u0001\"");

    // Non-ASCII passes through as it does everywhere else.
    out.clear();
    escape_dotted("com/漢字🙂", &mut out);
    assert_eq!(out, "\"com.漢字🙂\"");

    // The two entry points agree wherever no separator is involved.
    out.clear();
    escape("com.example.Foo", &mut out);
    let mut dotted = String::new();
    escape_dotted("com.example.Foo", &mut dotted);
    assert_eq!(out, dotted);
}

#[test]
fn records_are_one_line_each() {
    let mut out = String::new();
    record(&[("dex", "classes.dex"), ("name", "a.b")], &mut out);
    record(&[("dex", "classes.dex"), ("name", "c\nd")], &mut out);
    assert_eq!(
        out,
        "{\"dex\":\"classes.dex\",\"name\":\"a.b\"}\n{\"dex\":\"classes.dex\",\"name\":\"c\\nd\"}\n"
    );
    // The newline inside the value did not become a line of its own.
    assert_eq!(out.lines().count(), 2);
}

#[test]
fn the_error_envelope_is_a_record() {
    let mut out = String::new();
    error("class not found", &mut out);
    assert_eq!(out, "{\"error\":\"class not found\"}\n");
}
