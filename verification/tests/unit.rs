use bundle_rewrite::names::{UseDecl, UseTree};
use bundle_rewrite::span::{Extent, Position};
use bundle_rewrite::attr::{Attr, Meta, MetaPath, Nested};
use bundle_rewrite::unit::{self, Item, ItemKind, LibContent, UsedModule};

fn on_line(line: usize, from: usize, to: usize) -> Extent {
    Extent::new(Position::new(line, from), Position::new(line, to))
}

fn path(segments: &[&str]) -> MetaPath {
    MetaPath { leading_colon: false, segments: segments.iter().map(|s| (*s).to_owned()).collect() }
}

fn module(line: usize, width: usize, name: &str) -> Item {
    Item {
        span: on_line(line, 0, width),
        attrs: vec![],
        kind: ItemKind::Module {
            name: name.to_owned(),
            inline: true,
            semi: on_line(line, width, width),
        },
    }
}

fn other(line: usize, width: usize) -> Item {
    Item { span: on_line(line, 0, width), attrs: vec![], kind: ItemKind::Other }
}

fn extern_crate(line: usize, width: usize, name: &str, rename: Option<&str>, macro_use: bool) -> Item {
    let attrs = if macro_use {
        vec![Attr { span: on_line(line, 0, 12), path: path(&["macro_use"]), meta: Some(Meta::Path) }]
    } else {
        vec![Attr { span: on_line(line, 0, 9), path: path(&["inline"]), meta: Some(Meta::Path) }]
    };
    Item {
        span: on_line(line, 0, width),
        attrs,
        kind: ItemKind::ExternCrate { name: name.to_owned(), rename: rename.map(str::to_owned) },
    }
}

fn use_item(line: usize, width: usize, leading_colon: bool, first: &str) -> Item {
    let tree = UseTree::Path(first.to_owned(), Box::new(UseTree::Name("x".to_owned())));
    Item {
        span: on_line(line, 0, width),
        attrs: vec![],
        kind: ItemKind::Use(UseDecl { leading_colon, tree }),
    }
}

fn strings(names: &[&str]) -> Vec<String> {
    names.iter().map(|n| (*n).to_owned()).collect()
}

#[test]
fn modules_are_listed_once_each() {
    let items = vec![module(1, 8, "a"), other(2, 5), module(3, 8, "b"), module(4, 8, "a")];
    assert_eq!(unit::list_mod_names(&items), strings(&["a", "b"]));
    assert!(unit::list_mod_names(&vec![other(1, 3)]).is_empty());
}

#[test]
fn only_modules_and_extern_crates_stay() {
    let code = "mod a {}\nfn f() {}\nextern crate b;\nuse c::x;\nstruct S;\n";
    let items = vec![
        module(1, 8, "a"),
        other(2, 9),
        extern_crate(3, 15, "b", None, false),
        use_item(4, 9, false, "c"),
        other(5, 9),
    ];
    assert_eq!(
        unit::remove_toplevel_items_except_mods_and_extern_crates(code, &items),
        "mod a {}\n\nextern crate b;\n\n\n"
    );
}

#[test]
fn a_macro_use_of_a_crate_that_cannot_be_had_is_commented_out() {
    let code = "#[macro_use] extern crate a as _;\n#[macro_use] extern crate b as _;\n#[macro_use] extern crate c;\nextern crate d as _;\n#[macro_use] extern crate e as f;\n";
    let items = vec![
        extern_crate(1, 33, "a", Some("_"), true),
        extern_crate(2, 33, "b", Some("_"), true),
        extern_crate(3, 28, "c", None, true),
        extern_crate(4, 20, "d", Some("_"), false),
        extern_crate(5, 33, "e", Some("f"), true),
    ];
    assert_eq!(
        unit::comment_out_macro_uses(code, &items, &strings(&["b"])),
        "/*#[macro_use] extern crate a as _;*/\n#[macro_use] extern crate b as _;\n#[macro_use] extern crate c;\nextern crate d as _;\n#[macro_use] extern crate e as f;\n"
    );
}

/// The attribute `#![cfg_attr(condition, attrs..)]` on line 1.
fn marker(condition: &str, attrs: &[&[&str]]) -> Attr {
    let mut nested = vec![Nested { text: condition.to_owned(), path: None }];
    for attr in attrs {
        nested.push(Nested { text: attr.join(" :: "), path: Some(path(attr)) });
    }
    let inner = nested.iter().map(|n| n.text.clone()).collect::<Vec<_>>().join(" , ");
    Attr {
        span: on_line(1, 0, 45),
        path: path(&["cfg_attr"]),
        meta: Some(Meta::List { nested, inner }),
    }
}

#[test]
fn a_marked_unit_has_its_global_uses_commented_out() {
    let code = "#![cfg_attr(cargo_equip, cargo_equip::equip)]\nuse ::lib::x;use ::other::x;\nuse std::x;\nfn main() {}\n";
    let attrs = vec![marker("cargo_equip", &[&["cargo_equip", "equip"]])];
    let items = vec![
        Item {
            span: on_line(2, 0, 13),
            attrs: vec![],
            kind: ItemKind::Use(UseDecl {
                leading_colon: true,
                tree: UseTree::Path("lib".to_owned(), Box::new(UseTree::Name("x".to_owned()))),
            }),
        },
        Item {
            span: on_line(2, 13, 28),
            attrs: vec![],
            kind: ItemKind::Use(UseDecl {
                leading_colon: true,
                tree: UseTree::Path("other".to_owned(), Box::new(UseTree::Name("x".to_owned()))),
            }),
        },
        use_item(3, 11, false, "std"),
        other(4, 12),
    ];
    let found = unit::find_uses(code, &attrs, &items).expect("the unit is marked");
    assert_eq!(
        found.code,
        "/*#![cfg_attr(cargo_equip, cargo_equip::equip)]*/\n/*use ::lib::x;*//*use ::other::x;*/\nuse std::x;\nfn main() {}\n"
    );
    let firsts: Vec<&str> = found
        .uses
        .iter()
        .map(|decl| match &decl.tree {
            UseTree::Path(first, _) => first.as_str(),
            _ => "?",
        })
        .collect();
    assert_eq!(firsts, vec!["lib", "other"]);
    assert!(found.uses.iter().all(|decl| decl.leading_colon));
}

#[test]
fn a_unit_without_a_marker_is_left_alone() {
    let items = vec![use_item(2, 12, true, "lib")];
    let unmarked = |marker: Attr| {
        let attrs = vec![
            Attr { span: on_line(1, 0, 10), path: path(&["x"]), meta: Some(Meta::Path) },
            marker,
        ];
        unit::find_uses("#![x]\nuse ::lib::x;\n", &attrs, &items).is_none()
    };
    let renamed = |name: &str| Attr {
        path: path(&[name]),
        ..marker("cargo_equip", &[&["cargo_equip", "equip"]])
    };
    assert!(unmarked(renamed("cfg")));
    assert!(!unmarked(renamed("cfg_attr")));
    assert!(unmarked(Attr { meta: None, ..renamed("cfg_attr") }));
    assert!(unmarked(Attr { meta: Some(Meta::Path), ..renamed("cfg_attr") }));
    assert!(unmarked(Attr {
        meta: Some(Meta::List { nested: vec![], inner: String::new() }),
        ..renamed("cfg_attr")
    }));
    assert!(unmarked(marker("cargo_equip", &[&["cargo_equip"]])));
    assert!(unmarked(marker("cargo_equip", &[&["cargo_equip", "equip", "x"]])));
    assert!(unmarked(marker("cargo_equip", &[])));
    assert!(unmarked(marker("other", &[&["cargo_equip", "equip"]])));
    assert!(unmarked(marker("not(cargo_equip)", &[&["cargo_equip", "equip"]])));
    assert!(unmarked(marker("all(", &[&["cargo_equip", "equip"]])));
    assert!(!unmarked(marker("all(cargo_equip, not(test))", &[&["a"], &["cargo_equip", "equip"]])));
}

fn lib(package: &str, content: &str, modules: &[&str]) -> LibContent {
    LibContent {
        package_id: package.to_owned(),
        extern_crate_name: "lib".to_owned(),
        content: content.to_owned(),
        modules: strings(modules),
    }
}

fn used(pairs: &[(&str, &str)]) -> Vec<UsedModule> {
    pairs
        .iter()
        .map(|(p, m)| UsedModule { package: (*p).to_owned(), module: (*m).to_owned() })
        .collect()
}

#[test]
fn modules_that_nothing_uses_are_taken_out() {
    let code = "mod a {}\nmod b {}\nfn f() {}\n";
    let items = vec![module(1, 8, "a"), module(2, 8, "b"), other(3, 9)];
    let mut content = lib("p", code, &["z"]);
    unit::prune_modules(&mut content, &items, Some(&used(&[("p", "b"), ("q", "a")])));
    assert_eq!(content.content, "\nmod b {}\nfn f() {}\n");
    assert_eq!(content.modules, strings(&["z", "b"]));
    assert_eq!(content.package_id, "p");
    assert_eq!(content.extern_crate_name, "lib");

    let mut content = lib("p", code, &["a"]);
    unit::prune_modules(&mut content, &items, None);
    assert_eq!(content.content, code);
    assert_eq!(content.modules, strings(&["a", "b"]));
}

#[test]
fn each_library_is_pruned_by_its_own_items() {
    let mut contents = vec![lib("p", "mod a {}\n", &[]), lib("q", "mod a {}\n", &[])];
    let outlines = vec![vec![module(1, 8, "a")], vec![module(1, 8, "a")]];
    let list = used(&[("q", "a")]);
    assert!(unit::remove_unused_modules(&mut contents, &outlines, Some(&list)));
    assert_eq!(contents[0].content, "\n");
    assert!(contents[0].modules.is_empty());
    assert_eq!(contents[1].content, "mod a {}\n");
    assert_eq!(contents[1].modules, strings(&["a"]));

    let mut contents = vec![lib("p", "mod a {}\n", &[])];
    assert!(!unit::remove_unused_modules(&mut contents, &vec![], Some(&list)));
    assert_eq!(contents[0].content, "mod a {}\n");
}
