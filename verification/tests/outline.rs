//! The parts of a class's source.
use rasc::outline::{parts, render};

/// Every part, as `name:kind:start-end`.
fn shape(source: &str) -> Vec<String> {
    parts(source)
        .into_iter()
        .map(|part| format!("{}:{}:{}-{}", part.name, part.kind, part.start, part.end))
        .collect()
}

#[test]
fn a_plain_class_is_a_header_its_members_and_a_footer() {
    let source = "\
package com.example;

public class Beta {
    public static void call() {
    }

}
";
    assert_eq!(
        shape(source),
        ["Beta:header:1-3", "call:method:4-5", "Beta:footer:6-7"]
    );
}

#[test]
fn the_parts_tile_the_document_with_no_gap() {
    let source = "\
package com.example;

public class Several {
    int field;

    static {
        field = 1;
    }

    public void first() {
        if (field > 0) {
            field = 2;
        }
    }

    public abstract void second();

    void third() {
    }
}
";
    let parts = parts(source);
    assert_eq!(parts[0].start, 1);
    for pair in parts.windows(2) {
        assert_eq!(pair[1].start, pair[0].end + 1, "{:?}", shape(source));
    }
    let last_line = source.trim_end().lines().count();
    assert_eq!(parts.last().expect("a document has parts").end, last_line);
    // The blank line above a declaration leads it; the header takes everything
    // before the first one, and the class's closing brace is the footer.
    assert_eq!(
        shape(source),
        [
            "Several:header:1-5",
            "static:initializer:6-8",
            "first:method:9-14",
            "second:abstract:15-16",
            "third:method:17-19",
            "Several:footer:20-20",
        ]
    );
}

#[test]
fn a_brace_in_a_literal_does_not_end_a_member() {
    let source = "\
public class Tricky {
    public static java.lang.String brace() {
        return \"}\";
    }

    char one() {
        return '}';
    }
}
";
    let names: Vec<_> = parts(source)
        .into_iter()
        .filter(|part| part.kind != "header" && part.kind != "footer")
        .map(|part| part.name)
        .collect();
    assert_eq!(names, ["brace", "one"]);
}

#[test]
fn a_one_line_body_is_a_member() {
    let source = "public class T {\n    void a() { }\n    void b() {\n    }\n}\n";
    let names: Vec<_> = parts(source)
        .into_iter()
        .filter(|part| part.kind == "method")
        .map(|part| (part.name, part.start, part.end))
        .collect();
    assert_eq!(names, [("a".to_owned(), 2, 2), ("b".to_owned(), 3, 4)]);
}

#[test]
fn a_wrapper_less_document_is_one_part() {
    // A Kotlin data class: no class body, so nothing is a declaration and the
    // whole document is the part that no member owns.
    let source = "package com.example;\n\ndata class Point(val x: int)\n";
    assert_eq!(shape(source), ["Point:header:1-3"]);
}

#[test]
fn the_record_is_one_json_line() {
    let mut out = String::new();
    render("public class T {\n    void a() {\n    }\n}\n", &mut out);
    assert!(!out.contains('\n'));
    assert_eq!(
        out,
        "{\"members\":[{\"name\":\"T\",\"kind\":\"header\",\"start\":1,\"end\":1},\
{\"name\":\"a\",\"kind\":\"method\",\"start\":2,\"end\":3},\
{\"name\":\"T\",\"kind\":\"footer\",\"start\":4,\"end\":4}]}"
    );
}
