use bundle_rewrite::paths::{
    replace_crate_paths, replace_extern_crates, ExternCrate, PathHead, Segment, Site, UseNode,
};
use bundle_rewrite::span::{Extent, Position};

fn at(line: usize, column: usize) -> Position {
    Position::new(line, column)
}

fn head(leading_colon: bool, name: &str, plain: bool, end: Position) -> PathHead {
    PathHead { leading_colon, first: Some(Segment { name: name.to_owned(), plain, end }) }
}

fn path(name: &str, end: Position) -> Site {
    Site::Path(head(false, name, true, end))
}

#[test]
fn a_path_from_the_root_is_qualified() {
    let code = "fn f() -> crate::T { crate::g(std::x()) }\n";
    let sites = vec![path("crate", at(1, 15)), path("crate", at(1, 26)), path("std", at(1, 33))];
    let out = replace_crate_paths(code, &sites, "lib");
    assert!(out.rewrote);
    assert_eq!(out.text, "fn f() -> crate::lib::T { crate::lib::g(std::x()) }\n");
}

#[test]
fn a_text_without_such_paths_is_handed_back_as_it_is() {
    let code = "fn f() {}   \n\n";
    let sites = vec![
        path("std", at(1, 3)),
        Site::Path(head(true, "crate", true, at(1, 3))),
        Site::Path(head(false, "crate", false, at(1, 3))),
        Site::Path(PathHead { leading_colon: false, first: None }),
        Site::Use { leading_colon: true, tree: UseNode::Name { name: "crate".to_owned(), end: at(1, 3) } },
        Site::Restricted { has_in: false, path: head(false, "super", true, at(1, 3)), lone: true, start: at(1, 1) },
        Site::Restricted { has_in: false, path: head(false, "crate", true, at(1, 3)), lone: false, start: at(1, 1) },
    ];
    let out = replace_crate_paths(code, &sites, "lib");
    assert!(!out.rewrote);
    assert_eq!(out.text, code);
}

#[test]
fn use_trees_are_qualified_through_their_groups() {
    let code = "use {crate::a, std::b, {crate as c, crate}};\n";
    let tree = UseNode::Group(vec![
        UseNode::Path { name: "crate".to_owned(), end: at(1, 10) },
        UseNode::Path { name: "std".to_owned(), end: at(1, 18) },
        UseNode::Group(vec![
            UseNode::Rename { name: "crate".to_owned(), end: at(1, 29) },
            UseNode::Name { name: "crate".to_owned(), end: at(1, 41) },
            UseNode::Glob,
        ]),
    ]);
    let out = replace_crate_paths(code, &vec![Site::Use { leading_colon: false, tree }], "lib");
    assert!(out.rewrote);
    assert_eq!(out.text, "use {crate::lib::a, std::b, {crate::lib as c, crate::lib}};\n");
}

#[test]
fn a_visibility_of_the_root_becomes_one_of_a_path() {
    let code = "pub(crate) fn f() {}\npub(in crate::a) fn g() {}\npub(super) fn h() {}\n";
    let sites = vec![
        Site::Restricted { has_in: false, path: head(false, "crate", true, at(1, 9)), lone: true, start: at(1, 4) },
        Site::Restricted { has_in: true, path: head(false, "crate", true, at(2, 12)), lone: false, start: at(2, 7) },
        Site::Restricted { has_in: false, path: head(false, "super", true, at(3, 9)), lone: true, start: at(3, 4) },
    ];
    let out = replace_crate_paths(code, &sites, "lib");
    assert!(out.rewrote);
    assert_eq!(
        out.text,
        "pub(in crate::lib) fn f() {}\npub(in crate::lib::a) fn g() {}\npub(super) fn h() {}\n"
    );
}

fn item(line: usize, width: usize, replacement: Result<&str, &str>) -> ExternCrate {
    ExternCrate {
        span: Extent::new(at(line, 0), at(line, width)),
        replacement: replacement.map(str::to_owned).map_err(str::to_owned),
    }
}

#[test]
fn extern_crates_give_way_to_their_uses() {
    let code = "extern crate a;\nfn f() {}\npub extern crate b as c;\n";
    let items = vec![
        item(1, 15, Ok("use crate :: x as a ;")),
        item(3, 24, Ok("pub use crate :: y as c ;")),
    ];
    assert_eq!(
        replace_extern_crates(code, &items),
        Ok("use crate :: x as a ;\nfn f() {}\npub use crate :: y as c ;\n".to_owned())
    );
    assert_eq!(replace_extern_crates(code, &vec![]), Ok(code.to_owned()));
}

#[test]
fn the_last_failure_is_the_one_that_is_handed_out() {
    let code = "extern crate a;\nextern crate b;\nextern crate c;\nextern crate d;\n";
    let items = vec![
        item(1, 15, Ok("use crate :: x as a ;")),
        item(2, 15, Err("no b")),
        item(3, 15, Err("no c")),
        item(4, 15, Ok("use crate :: z as d ;")),
    ];
    assert_eq!(replace_extern_crates(code, &items), Err("no c".to_owned()));
}
