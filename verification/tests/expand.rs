use bundle_rewrite::attr::{Attr, Meta, MetaPath};
use bundle_rewrite::expand::{
    candidates_for, count_out_of_line, expand_mods, first_existing, indent_code, indent_if,
    lookup_for, safe_to_indent,
    module_block, module_candidates, names_entry_file, Lookup,
};
use bundle_rewrite::span::{Extent, Position};
use bundle_rewrite::unit::{Item, ItemKind};

fn on_line(line: usize, from: usize, to: usize) -> Extent {
    Extent::new(Position::new(line, from), Position::new(line, to))
}

fn declared(line: usize, name: &str) -> Item {
    let width = "mod ".len() + name.len();
    Item {
        span: on_line(line, 0, width + 1),
        attrs: vec![],
        kind: ItemKind::Module {
            name: name.to_owned(),
            inline: false,
            semi: on_line(line, width, width + 1),
        },
    }
}

fn inline(line: usize, name: &str) -> Item {
    let width = "mod ".len() + name.len() + " {}".len();
    Item {
        span: on_line(line, 0, width),
        attrs: vec![],
        kind: ItemKind::Module {
            name: name.to_owned(),
            inline: true,
            semi: on_line(line, width, width),
        },
    }
}

#[test]
fn lines_are_moved_to_the_right_but_for_the_empty_ones() {
    assert_eq!(indent_code("fn f() {\n    1\n}\n\nfn g() {}", 1), "    fn f() {\n        1\n    }\n\n    fn g() {}\n");
    assert_eq!(indent_code("a\r\nb\n", 2), "        a\n        b\n");
    assert_eq!(indent_code("a\n", 0), "a\n");
    assert_eq!(indent_code("", 3), "");
}

#[test]
fn a_text_with_a_literal_over_several_lines_is_not_indented() {
    let top = "const S: &str = \"a\nb\";\n";
    assert_eq!(indent_code(top, 1), top);
    let nested = "fn f() {\n    g(\"a\nb\");\n}\n";
    assert_eq!(indent_code(nested, 1), nested);
    let unbalanced = "fn f() {\n";
    assert_eq!(indent_code(unbalanced, 1), unbalanced);
}

#[test]
fn a_block_is_the_body_in_braces() {
    assert_eq!(module_block("    fn f() {}\n", 1), " {\n    fn f() {}\n    }");
    assert_eq!(module_block("", 0), " {\n}");
    assert_eq!(module_block("x\n", 2), " {\nx\n        }");
}

#[test]
fn a_declared_module_gets_the_text_of_its_file_as_one_block() {
    let content = "mod a;\nmod b {}\nmod c;\nfn main() {}\n";
    let items = vec![declared(1, "a"), inline(2, "b"), declared(3, "c")];
    let bodies = vec!["pub fn f() {}\n".to_owned(), "pub fn g() {}\n\npub fn h() {}\n".to_owned()];
    assert_eq!(count_out_of_line(&items), 2);
    let expanded = expand_mods(content, &items, &bodies, 1).expect("one body for each module");
    assert_eq!(
        expanded,
        "mod a {\n    pub fn f() {}\n    }\nmod b {}\nmod c {\n    pub fn g() {}\n\n    pub fn h() {}\n    }\nfn main() {}\n"
    );
    assert_eq!(expanded.matches('{').count(), expanded.matches('}').count());
    assert_eq!(
        expanded.matches('{').count(),
        content.matches('{').count() + bodies.iter().map(|b| b.matches('{').count()).sum::<usize>() + 2
    );
}

#[test]
fn bodies_nest_as_deep_as_their_modules() {
    let inner = expand_mods("mod b;\n", &vec![declared(1, "b")], &vec!["fn f() {}\n".to_owned()], 2)
        .expect("one body");
    assert_eq!(inner, "mod b {\n        fn f() {}\n        }\n");
    let outer = expand_mods("mod a;\n", &vec![declared(1, "a")], &vec![inner], 1).expect("one body");
    assert_eq!(
        outer,
        "mod a {\n    mod b {\n            fn f() {}\n            }\n    }\n"
    );
}

#[test]
fn a_body_is_wanted_for_each_declared_module() {
    let items = vec![declared(1, "a")];
    assert!(expand_mods("mod a;\n", &items, &vec![], 1).is_none());
    let two = vec!["".to_owned(), "".to_owned()];
    assert!(expand_mods("mod a;\n", &items, &two, 1).is_none());
    assert_eq!(expand_mods("fn f() {}\n", &vec![], &vec![], 1).as_deref(), Some("fn f() {}\n"));
}

#[test]
fn the_rule_of_lookup() {
    assert_eq!(lookup_for(true, 0, false), Lookup::Named);
    assert_eq!(lookup_for(true, 3, true), Lookup::Named);
    assert_eq!(lookup_for(false, 0, false), Lookup::Beside);
    assert_eq!(lookup_for(false, 2, true), Lookup::Beside);
    assert_eq!(lookup_for(false, 2, false), Lookup::BesideStem);
}

#[test]
fn candidates_come_in_the_order_of_choice() {
    assert_eq!(
        module_candidates("src/lib.rs", 0, None, "a"),
        vec!["src/a.rs".to_owned(), "src/a/mod.rs".to_owned()]
    );
    assert_eq!(
        module_candidates("src/a/mod.rs", 1, None, "b"),
        vec!["src/a/b.rs".to_owned(), "src/a/b/mod.rs".to_owned()]
    );
    assert_eq!(
        module_candidates("src/a.rs", 1, None, "b"),
        vec!["src/b.rs".to_owned(), "src/b/mod.rs".to_owned()]
    );
    assert_eq!(
        module_candidates("src/a.rs", 1, Some("x/y.rs"), "b"),
        vec!["src/x/y.rs".to_owned()]
    );
    assert_eq!(
        module_candidates("src/a/mod.rs.bak", 1, None, "b"),
        vec!["src/a/b.rs".to_owned(), "src/a/b/mod.rs".to_owned()]
    );
    assert_eq!(
        module_candidates("src/mod.rs/x.rs", 2, None, "b"),
        vec!["src/mod.rs/b.rs".to_owned(), "src/mod.rs/b/mod.rs".to_owned()]
    );
}

#[test]
fn a_path_on_the_declaration_names_the_file() {
    let path = |value: Option<&str>| Attr {
        span: on_line(1, 0, 10),
        path: MetaPath { leading_colon: false, segments: vec!["path".to_owned()] },
        meta: Some(Meta::NameValue { value: value.map(str::to_owned), span: on_line(1, 2, 9) }),
    };
    let mut item = declared(2, "a");
    assert_eq!(
        candidates_for("src/lib.rs", 0, &item),
        Some(vec!["src/a.rs".to_owned(), "src/a/mod.rs".to_owned()])
    );
    item.attrs = vec![path(None), path(Some("x.rs")), path(Some("y.rs"))];
    assert_eq!(candidates_for("src/lib.rs", 0, &item), Some(vec!["src/x.rs".to_owned()]));
    assert_eq!(candidates_for("src/lib.rs", 0, &inline(1, "a")), None);
    let other = Item { span: on_line(1, 0, 3), attrs: vec![], kind: ItemKind::Other };
    assert_eq!(candidates_for("src/lib.rs", 0, &other), None);
}

#[test]
fn the_entry_file_of_a_directory_is_named_mod_rs() {
    assert!(names_entry_file(&Some("mod.rs".to_owned())));
    assert!(!names_entry_file(&Some("mod.rs.bak".to_owned())));
    assert!(!names_entry_file(&Some("lib.rs".to_owned())));
    assert!(!names_entry_file(&Some(String::new())));
    assert!(!names_entry_file(&None));
}

#[test]
fn the_first_file_that_exists_is_taken() {
    assert_eq!(first_existing(&vec![]), None);
    assert_eq!(first_existing(&vec![false, false]), None);
    assert_eq!(first_existing(&vec![true, true]), Some(0));
    assert_eq!(first_existing(&vec![false, true]), Some(1));
    assert_eq!(first_existing(&vec![false, false, true, false, true]), Some(2));
}

#[test]
fn a_text_is_indented_only_where_that_is_safe() {
    assert_eq!(indent_if("a\n\nb", true, 1), "    a\n\n    b\n");
    assert_eq!(indent_if("a\n\nb", false, 1), "a\n\nb");
    let lexed = |code: &str| bundle_rewrite::token::lex(code);
    assert!(safe_to_indent(&lexed("fn f() { \"a\" }")));
    assert!(!safe_to_indent(&lexed("fn f() { \"a\nb\" }")));
    assert!(!safe_to_indent(&lexed("fn f() {")));
    assert!(!safe_to_indent(&None));
    assert!(safe_to_indent(&Some(vec![])));
}
