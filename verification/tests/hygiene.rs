use bundle_rewrite::attr::{Attr, Meta, MetaPath};
use bundle_rewrite::hygiene::{self, MacroDef};
use bundle_rewrite::span::{Extent, Position};
use bundle_rewrite::token::{lex, Token};

/// The attribute `#[macro_export]`.
fn macro_export() -> Attr {
    Attr {
        span: Extent::new(Position::new(1, 0), Position::new(1, 15)),
        path: MetaPath { leading_colon: false, segments: vec!["macro_export".to_owned()] },
        meta: Some(Meta::Path),
    }
}

/// The bodies of the macros that `code` defines at its top level, in their
/// order, each marked as exported or not as `exported` says.
fn macro_defs(code: &str, exported: &[bool]) -> Vec<MacroDef> {
    let tokens = lex(code).expect("the text lexes");
    let mut defs = Vec::new();
    let mut state = 0;
    for token in tokens {
        state = match (state, token) {
            (0, Token::Ident { text, .. }) if text == "macro_rules" => 1,
            (1, Token::Punct { ch: '!', .. }) => 2,
            (2, Token::Ident { .. }) => 3,
            (3, Token::Group { inner, .. }) => {
                let attrs = if exported[defs.len()] { vec![macro_export()] } else { vec![] };
                defs.push(MacroDef { named: true, attrs, body: inner });
                0
            }
            _ => 0,
        };
    }
    defs
}

#[test]
fn modify_macros() {
    let input = r#"#[cfg_attr(cargo_equip, cargo_equip::translate_dollar_crates)]
#[macro_export]
macro_rules! hello {
    (1 $(,)?) => {
        $crate::hello::hello();
        $crate::__hello_inner!($n)
    };
    (0 $(,)?) => {};
}

macro_rules! _without_attr {
    () => {
        let _ = $crate::hello;
        $crate::hello!(0);
    };
}
"#;
    let expected = r#"#[cfg_attr(cargo_equip, cargo_equip::translate_dollar_crates)]
#[macro_export]
macro_rules! hello {
    (1 $(,)?) => {
        $crate::lib::hello::hello();
        $crate::__hello_inner!($n)
    };
    (0 $(,)?) => {};
}

macro_rules! _without_attr {
    () => {
        let _ = $crate::hello;
        $crate::hello!(0);
    };
}
"#;
    let defs = macro_defs(input, &[true, false]);
    assert_eq!(defs.len(), 2);
    assert_eq!(hygiene::modify_macros(input, &defs, "lib"), expected);
}

#[test]
fn a_call_through_the_root_is_not_qualified() {
    let input = "macro_rules! m { () => { $crate::helper(); $crate::other!(x); } }\n";
    let expected = "macro_rules! m { () => { $crate::lib::helper(); $crate::other!(x); } }\n";
    let defs = macro_defs(input, &[true]);
    assert_eq!(hygiene::modify_macros(input, &defs, "lib"), expected);
}

#[test]
fn a_group_of_one_token_is_searched_too() {
    let input = "macro_rules! m { () => { ({ $crate::f }) } }\n";
    let expected = "macro_rules! m { () => { ({ $crate::lib::f }) } }\n";
    let defs = macro_defs(input, &[true]);
    assert_eq!(hygiene::modify_macros(input, &defs, "lib"), expected);
}

#[test]
fn a_macro_without_a_name_is_left_alone() {
    let input = "macro_rules! m { () => { $crate::f } }\n";
    let mut defs = macro_defs(input, &[true]);
    defs[0].named = false;
    assert_eq!(hygiene::modify_macros(input, &defs, "lib"), input);
}

#[test]
fn a_macro_is_exported_by_the_attribute_of_that_name() {
    let input = "macro_rules! m { () => { $crate::f } }\n";
    let expected = "macro_rules! m { () => { $crate::lib::f } }\n";
    let with = |attr: Attr| {
        let mut defs = macro_defs(input, &[false]);
        defs[0].attrs = vec![attr];
        hygiene::modify_macros(input, &defs, "lib")
    };
    assert_eq!(with(macro_export()), expected);
    let list = Meta::List { nested: vec![], inner: "local_inner_macros".to_owned() };
    assert_eq!(with(Attr { meta: Some(list), ..macro_export() }), expected);
    assert_eq!(with(Attr { meta: None, ..macro_export() }), expected);
    let other = MetaPath { leading_colon: false, segments: vec!["macro_use".to_owned()] };
    assert_eq!(with(Attr { path: other, ..macro_export() }), input);
    let rooted = MetaPath { leading_colon: true, segments: vec!["macro_export".to_owned()] };
    assert_eq!(with(Attr { path: rooted, ..macro_export() }), input);
}
