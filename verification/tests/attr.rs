use bundle_rewrite::attr::{
    attr_is_doc, attr_is_word, attr_list, attr_string, find_string, has_path, has_word, path_is,
    Attr, Meta, MetaPath, Nested,
};
use bundle_rewrite::span::{Extent, Position};

fn at(from: usize, to: usize) -> Extent {
    Extent::new(Position::new(1, from), Position::new(1, to))
}

fn path(leading_colon: bool, segments: &[&str]) -> MetaPath {
    MetaPath { leading_colon, segments: segments.iter().map(|s| (*s).to_owned()).collect() }
}

fn word(name: &str) -> Attr {
    Attr { span: at(0, 5), path: path(false, &[name]), meta: Some(Meta::Path) }
}

fn list(name: &str, inner: &str) -> Attr {
    let nested = vec![Nested { text: inner.to_owned(), path: None }];
    Attr {
        span: at(0, 5),
        path: path(false, &[name]),
        meta: Some(Meta::List { nested, inner: inner.to_owned() }),
    }
}

fn value(name: &str, text: Option<&str>) -> Attr {
    Attr {
        span: at(0, 9),
        path: path(false, &[name]),
        meta: Some(Meta::NameValue { value: text.map(str::to_owned), span: at(2, 8) }),
    }
}

#[test]
fn a_path_is_a_name_if_it_is_one_segment_without_a_root() {
    assert!(path_is(&path(false, &["cfg"]), "cfg"));
    assert!(!path_is(&path(true, &["cfg"]), "cfg"));
    assert!(!path_is(&path(false, &["cfg", "x"]), "cfg"));
    assert!(!path_is(&path(false, &[]), "cfg"));
    assert!(!path_is(&path(false, &["cfgs"]), "cfg"));
}

#[test]
fn the_three_shapes_are_told_apart() {
    assert!(attr_is_word(&word("inline"), "inline"));
    assert!(!attr_is_word(&word("inline"), "cold"));
    assert!(!attr_is_word(&list("inline", "always"), "inline"));
    assert!(!attr_is_word(&Attr { meta: None, ..word("inline") }, "inline"));

    assert_eq!(attr_list(&list("cfg", "test"), "cfg").map(String::as_str), Some("test"));
    assert_eq!(attr_list(&list("cfg", "test"), "cfg_attr"), None);
    assert_eq!(attr_list(&word("cfg"), "cfg"), None);
    assert_eq!(attr_list(&value("cfg", Some("test")), "cfg"), None);

    let doc = value("doc", Some(" a"));
    assert_eq!(attr_string(&doc, "doc").map(|(text, span)| (text.as_str(), span)), Some((" a", at(2, 8))));
    assert_eq!(attr_string(&doc, "path"), None);
    assert_eq!(attr_string(&value("doc", None), "doc"), None);
    assert_eq!(attr_string(&list("doc", "hidden"), "doc"), None);
}

#[test]
fn documentation_is_any_shape_under_the_name_doc() {
    assert!(attr_is_doc(&value("doc", Some("a"))));
    assert!(attr_is_doc(&value("doc", None)));
    assert!(attr_is_doc(&list("doc", "hidden")));
    assert!(attr_is_doc(&word("doc")));
    assert!(!attr_is_doc(&Attr { meta: None, ..word("doc") }));
    assert!(!attr_is_doc(&word("docs")));
    assert!(!attr_is_doc(&Attr { path: path(true, &["doc"]), ..word("doc") }));
}

#[test]
fn attributes_are_searched_in_their_order() {
    let attrs = vec![
        list("macro_use", "a"),
        value("path", None),
        Attr { meta: None, ..word("macro_export") },
        value("path", Some("x.rs")),
        value("path", Some("y.rs")),
    ];
    assert!(!has_word(&attrs, "macro_use"));
    assert!(has_path(&attrs, "macro_use"));
    assert!(has_path(&attrs, "macro_export"));
    assert!(!has_word(&attrs, "macro_export"));
    assert!(!has_path(&attrs, "cfg"));
    assert_eq!(find_string(&attrs, "path").map(String::as_str), Some("x.rs"));
    assert_eq!(find_string(&attrs, "doc"), None);
    assert!(has_word(&vec![word("a"), word("macro_use")], "macro_use"));
    assert!(!has_word(&vec![], "macro_use"));
}
