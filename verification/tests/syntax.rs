//! The passes on values read from a parsed syntax tree.

use bundle_rewrite::attr::{Attr, Meta, MetaPath, Nested};
use bundle_rewrite::cfg::{resolve_cfgs, CfgNode};
use bundle_rewrite::doc;
use bundle_rewrite::erase;
use bundle_rewrite::hygiene::{self, MacroDef};
use bundle_rewrite::paths::{self, PathHead, Segment, Site, UseNode};
use bundle_rewrite::span::{Extent, Position};
use bundle_rewrite::token::read_stream;
use bundle_rewrite::unit::{self, Item, ItemKind};
use quote::ToTokens;
use syn::spanned::Spanned;
use syn::visit::Visit;
use syn::{Attribute, Lit, NestedMeta};

fn extent(span: proc_macro2::Span) -> Extent {
    let (start, end) = (span.start(), span.end());
    Extent::new(
        Position::new(start.line, start.column),
        Position::new(end.line, end.column),
    )
}

fn parse(code: &str) -> syn::File {
    syn::parse_file(code).expect("the text is a source file")
}

fn meta_path(path: &syn::Path) -> MetaPath {
    MetaPath {
        leading_colon: path.leading_colon.is_some(),
        segments: path.segments.iter().map(|segment| segment.ident.to_string()).collect(),
    }
}

fn attr(attr: &Attribute) -> Attr {
    let meta = attr.parse_meta().ok().map(|meta| match meta {
        syn::Meta::Path(_) => Meta::Path,
        syn::Meta::List(list) => Meta::List {
            nested: list
                .nested
                .iter()
                .map(|item| Nested {
                    text: item.to_token_stream().to_string(),
                    path: match item {
                        NestedMeta::Meta(meta) => Some(meta_path(meta.path())),
                        NestedMeta::Lit(_) => None,
                    },
                })
                .collect(),
            inner: list.nested.to_token_stream().to_string(),
        },
        syn::Meta::NameValue(name_value) => Meta::NameValue {
            value: match &name_value.lit {
                Lit::Str(text) => Some(text.value()),
                _ => None,
            },
            span: extent(name_value.span()),
        },
    });
    Attr { span: extent(attr.span()), path: meta_path(&attr.path), meta }
}

fn attrs(attrs: &[Attribute]) -> Vec<Attr> {
    attrs.iter().map(attr).collect()
}

/// The functions at the top level of `code`, as nodes.
fn function_nodes(code: &str) -> Vec<CfgNode> {
    parse(code)
        .items
        .iter()
        .filter_map(|item| match item {
            syn::Item::Fn(function) => Some(CfgNode {
                span: extent(function.span()),
                attrs: attrs(&function.attrs),
                children: vec![],
            }),
            _ => None,
        })
        .collect()
}

fn features(names: &[&str]) -> Vec<String> {
    names.iter().map(|f| (*f).to_owned()).collect()
}

#[test]
fn the_truth_table_of_conditions() {
    let code = "#[cfg(feature = \"x\")]\nfn f() {}\n";
    let nodes = function_nodes(code);
    assert_eq!(nodes.len(), 1);
    assert_eq!(nodes[0].span, Extent::new(Position::new(1, 0), Position::new(2, 9)));
    assert_eq!(nodes[0].attrs[0].span, Extent::new(Position::new(1, 0), Position::new(1, 21)));
    assert_eq!(resolve_cfgs(code, &nodes, &features(&["x"])), "\nfn f() {}\n");
    assert_eq!(resolve_cfgs(code, &nodes, &features(&[])), "\n\n");

    let code = "#[cfg(test)]\nfn f() {}\n";
    assert_eq!(resolve_cfgs(code, &function_nodes(code), &features(&["x"])), "\n\n");

    let code = "#[cfg(unknown_flag)]\nfn f() {}\n";
    assert_eq!(resolve_cfgs(code, &function_nodes(code), &features(&["x"])), code);

    let code = "#[cfg(all(cargo_equip, not(feature = \"x\")))] #[inline]\nfn f() {}\nfn g() {}\n";
    assert_eq!(
        resolve_cfgs(code, &function_nodes(code), &features(&[])),
        " #[inline]\nfn f() {}\nfn g() {}\n"
    );
    assert_eq!(
        resolve_cfgs(code, &function_nodes(code), &features(&["x"])),
        "\n\nfn g() {}\n"
    );
}

/// The macro definitions at the top level of `code`.
fn macro_defs(code: &str) -> Vec<MacroDef> {
    parse(code)
        .items
        .iter()
        .filter_map(|item| match item {
            syn::Item::Macro(item) => Some(MacroDef {
                named: item.ident.is_some(),
                attrs: attrs(&item.attrs),
                body: read_stream(item.mac.tokens.clone()),
            }),
            _ => None,
        })
        .collect()
}

#[test]
fn only_the_bare_reference_to_the_root_is_qualified() {
    let code = "#[macro_export]\nmacro_rules! m {\n    () => { $crate::helper(); $crate::other!(x); };\n}\n";
    let expected = "#[macro_export]\nmacro_rules! m {\n    () => { $crate::lib::helper(); $crate::other!(x); };\n}\n";
    assert_eq!(hygiene::modify_macros(code, &macro_defs(code), "lib"), expected);
}

#[test]
fn a_macro_that_is_not_exported_is_left_alone() {
    let code = "macro_rules! m {\n    () => { $crate::helper() };\n}\nm!($crate::x);\n";
    let defs = macro_defs(code);
    assert_eq!(defs.len(), 2);
    assert!(defs[0].named && defs[0].attrs.is_empty());
    assert!(!defs[1].named);
    assert_eq!(hygiene::modify_macros(code, &defs, "lib"), code);
}

struct Sites(Vec<Site>);

fn path_head(path: &syn::Path) -> PathHead {
    PathHead {
        leading_colon: path.leading_colon.is_some(),
        first: path.segments.first().map(|segment| Segment {
            name: segment.ident.to_string(),
            plain: segment.arguments.is_empty(),
            end: extent(segment.ident.span()).end,
        }),
    }
}

fn use_node(tree: &syn::UseTree) -> UseNode {
    let end = |ident: &syn::Ident| extent(ident.span()).end;
    match tree {
        syn::UseTree::Path(p) => UseNode::Path { name: p.ident.to_string(), end: end(&p.ident) },
        syn::UseTree::Name(n) => UseNode::Name { name: n.ident.to_string(), end: end(&n.ident) },
        syn::UseTree::Rename(r) => {
            UseNode::Rename { name: r.ident.to_string(), end: end(&r.ident) }
        }
        syn::UseTree::Glob(_) => UseNode::Glob,
        syn::UseTree::Group(g) => UseNode::Group(g.items.iter().map(use_node).collect()),
    }
}

impl<'ast> Visit<'ast> for Sites {
    fn visit_path(&mut self, path: &'ast syn::Path) {
        self.0.push(Site::Path(path_head(path)));
        syn::visit::visit_path(self, path);
    }

    fn visit_item_use(&mut self, item: &'ast syn::ItemUse) {
        self.0.push(Site::Use {
            leading_colon: item.leading_colon.is_some(),
            tree: use_node(&item.tree),
        });
    }

    fn visit_vis_restricted(&mut self, vis: &'ast syn::VisRestricted) {
        self.0.push(Site::Restricted {
            has_in: vis.in_token.is_some(),
            path: path_head(&vis.path),
            lone: vis.path.segments.len() == 1,
            start: extent(vis.path.span()).start,
        });
    }
}

fn sites(code: &str) -> Vec<Site> {
    let mut sites = Sites(Vec::new());
    sites.visit_file(&parse(code));
    sites.0
}

#[test]
fn paths_from_the_root_are_qualified_throughout_a_file() {
    let code = "use crate::{a::A, b};\nuse {crate as me, std::fmt};\nuse ::crate_like::x;\n\npub(crate) struct S(pub(in crate::a) crate::a::A);\n\npub(super) fn f(s: S) -> crate::b::B {\n    let crate::a::A(n) = s.0;\n    crate::b::make(n, ::std::mem::size_of::<S>())\n}\n";
    let expected = "use crate::lib::{a::A, b};\nuse {crate::lib as me, std::fmt};\nuse ::crate_like::x;\n\npub(in crate::lib) struct S(pub(in crate::lib::a) crate::lib::a::A);\n\npub(super) fn f(s: S) -> crate::lib::b::B {\n    let crate::lib::a::A(n) = s.0;\n    crate::lib::b::make(n, ::std::mem::size_of::<S>())\n}\n";
    let out = paths::replace_crate_paths(code, &sites(code), "lib");
    assert!(out.rewrote);
    assert_eq!(out.text, expected);

    let plain = "use std::fmt;\npub fn f() -> fmt::Result { Ok(()) }\n";
    let out = paths::replace_crate_paths(plain, &sites(plain), "lib");
    assert!(!out.rewrote);
    assert_eq!(out.text, plain);
}

#[test]
fn documentation_is_moved_to_the_head_of_a_parsed_unit() {
    let code = "//! aaaaaaa\n//! bbbbbbb\n//! ccccccc\n\nfn main() {\n    todo!();\n}\n";
    let file = parse(code);
    let docs = doc::collect_docs(&attrs(&file.attrs));
    assert_eq!(docs.len(), 3);
    assert_eq!(docs[0].value, " aaaaaaa");
    assert_eq!(docs[0].span, Extent::new(Position::new(1, 0), Position::new(1, 11)));
    assert_eq!(
        doc::prepend_mod_doc(code, file.shebang.as_deref(), &attrs(&file.attrs), " ddddddd\n"),
        Ok("//! aaaaaaa\n//! bbbbbbb\n//! ccccccc\n//!\n//! ddddddd\n\nfn main() {\n    todo!();\n}\n"
            .to_owned())
    );

    let code = "#!/usr/bin/env run\n//! a\nfn main() {}\n";
    let file = parse(code);
    assert_eq!(file.shebang.as_deref(), Some("#!/usr/bin/env run"));
    assert_eq!(
        doc::prepend_mod_doc(code, file.shebang.as_deref(), &attrs(&file.attrs), " b"),
        Ok("#!/usr/bin/env run\n//! a\n//!\n//! b\n\nfn main() {}\n".to_owned())
    );
}

struct Attrs(Vec<Attr>);

impl<'ast> Visit<'ast> for Attrs {
    fn visit_attribute(&mut self, attr: &'ast Attribute) {
        self.0.push(self::attr(attr));
    }
}

#[test]
fn documentation_is_erased_wherever_it_stands() {
    let code = "//! a\n\n/// b\n#[doc = \"c\"]\n#[derive(Clone)]\nstruct S {\n    /// d\n    x: u8, // e\n}\n";
    let mut docs = Attrs(Vec::new());
    docs.visit_file(&parse(&erase::drop_interpreter_line(code)));
    assert_eq!(docs.0.len(), 5);
    assert_eq!(
        erase::erase_docs(code, &docs.0),
        Ok("     \n\n     \n            \n#[derive(Clone)]\nstruct S {\n         \n    x: u8, // e\n}\n".to_owned())
    );
}

/// The items at the top level of `code`.
fn items(code: &str) -> Vec<Item> {
    parse(code)
        .items
        .iter()
        .map(|item| Item {
            span: extent(item.span()),
            attrs: match item {
                syn::Item::Mod(module) => attrs(&module.attrs),
                syn::Item::ExternCrate(item) => attrs(&item.attrs),
                _ => vec![],
            },
            kind: match item {
                syn::Item::Mod(module) => ItemKind::Module {
                    name: module.ident.to_string(),
                    inline: module.content.is_some(),
                    semi: extent(module.semi.span()),
                },
                syn::Item::ExternCrate(item) => ItemKind::ExternCrate {
                    name: item.ident.to_string(),
                    rename: item.rename.as_ref().map(|(_, rename)| rename.to_string()),
                },
                _ => ItemKind::Other,
            },
        })
        .collect()
}

#[test]
fn the_top_level_of_a_parsed_unit() {
    let code = "//! doc\nmod a {\n    fn f() {}\n}\n#[macro_use]\nextern crate b as _;\nfn g() {}\nmod c;\n";
    let items = items(code);
    assert_eq!(unit::list_mod_names(&items), vec!["a".to_owned(), "c".to_owned()]);
    assert_eq!(
        unit::remove_toplevel_items_except_mods_and_extern_crates(code, &items),
        "//! doc\nmod a {\n    fn f() {}\n}\n#[macro_use]\nextern crate b as _;\n\nmod c;\n"
    );
    assert_eq!(
        unit::comment_out_macro_uses(code, &items, &vec![]),
        "//! doc\nmod a {\n    fn f() {}\n}\n/*#[macro_use]\nextern crate b as _;*/\nfn g() {}\nmod c;\n"
    );
    assert_eq!(unit::comment_out_macro_uses(code, &items, &vec!["b".to_owned()]), code);
    let expanded = bundle_rewrite::expand::expand_mods(code, &items, &vec!["fn h() {}\n".to_owned()], 1);
    assert_eq!(
        expanded.as_deref(),
        Some("//! doc\nmod a {\n    fn f() {}\n}\n#[macro_use]\nextern crate b as _;\nfn g() {}\nmod c {\n    fn h() {}\n    }\n")
    );
}

#[test]
fn a_marked_unit_is_found_by_its_attribute() {
    let code = "#![cfg_attr(cargo_equip, cargo_equip::equip)]\nuse ::lib::{a, b};\nuse std::fmt;\nfn main() {}\n";
    let file = parse(code);
    let items: Vec<Item> = file
        .items
        .iter()
        .map(|item| Item {
            span: extent(item.span()),
            attrs: vec![],
            kind: match item {
                syn::Item::Use(item) => ItemKind::Use(bundle_rewrite::names::UseDecl {
                    leading_colon: item.leading_colon.is_some(),
                    tree: bundle_rewrite::names::UseTree::Glob,
                }),
                _ => ItemKind::Other,
            },
        })
        .collect();
    let found = unit::find_uses(code, &attrs(&file.attrs), &items).expect("the unit is marked");
    assert_eq!(
        found.code,
        "/*#![cfg_attr(cargo_equip, cargo_equip::equip)]*/\n/*use ::lib::{a, b};*/\nuse std::fmt;\nfn main() {}\n"
    );
    assert_eq!(found.uses.len(), 1);

    let code = "#![cfg_attr(not(cargo_equip), cargo_equip::equip)]\nfn main() {}\n";
    let file = parse(code);
    assert!(unit::find_uses(code, &attrs(&file.attrs), &vec![]).is_none());
}

struct Nodes(Vec<Vec<CfgNode>>);

impl Nodes {
    fn proceed<'a, T: ToTokens>(
        &mut self,
        node: &'a T,
        node_attrs: &[Attribute],
        visit: fn(&mut Self, &'a T),
    ) {
        self.0.push(Vec::new());
        visit(self, node);
        let children = self.0.pop().unwrap_or_default();
        let node = CfgNode { span: extent(node.span()), attrs: attrs(node_attrs), children };
        if let Some(siblings) = self.0.last_mut() {
            siblings.push(node);
        }
    }
}

impl<'ast> Visit<'ast> for Nodes {
    fn visit_file(&mut self, node: &'ast syn::File) {
        self.proceed(node, &node.attrs, syn::visit::visit_file);
    }

    fn visit_item_mod(&mut self, node: &'ast syn::ItemMod) {
        self.proceed(node, &node.attrs, syn::visit::visit_item_mod);
    }

    fn visit_item_fn(&mut self, node: &'ast syn::ItemFn) {
        self.proceed(node, &node.attrs, syn::visit::visit_item_fn);
    }

    fn visit_item_struct(&mut self, node: &'ast syn::ItemStruct) {
        self.proceed(node, &node.attrs, syn::visit::visit_item_struct);
    }

    fn visit_field(&mut self, node: &'ast syn::Field) {
        self.proceed(node, &node.attrs, syn::visit::visit_field);
    }
}

fn nodes(code: &str) -> Vec<CfgNode> {
    let mut nodes = Nodes(vec![Vec::new()]);
    nodes.visit_file(&parse(code));
    nodes.0.pop().unwrap_or_default()
}

#[test]
fn conditions_are_resolved_through_the_tree() {
    let code = "mod m {\n    #[cfg(test)]\n    fn t() {}\n    #[cfg(cargo_equip)]\n    struct S {\n        #[cfg(feature = \"x\")]\n        a: u8,\n        b: u8,\n    }\n}\n";
    let tree = nodes(code);
    assert_eq!(tree.len(), 1);
    assert_eq!(tree[0].children.len(), 1);
    assert_eq!(tree[0].children[0].children.len(), 2);
    assert_eq!(tree[0].children[0].children[1].children.len(), 2);
    assert_eq!(
        resolve_cfgs(code, &tree, &features(&["x"])),
        "mod m {\n    \n\n    \n    struct S {\n        \n        a: u8,\n        b: u8,\n    }\n}\n"
    );
    assert_eq!(
        resolve_cfgs(code, &tree, &features(&[])),
        "mod m {\n    \n\n    \n    struct S {\n        \n,\n        b: u8,\n    }\n}\n"
    );

    let code = "#![cfg(test)]\nfn f() {}\n";
    assert_eq!(resolve_cfgs(code, &nodes(code), &features(&[])), "\n\n");
    let code = "#![cfg(not(test))]\n#[cfg(not(unix))]\nfn f() {}\n";
    assert_eq!(
        resolve_cfgs(code, &nodes(code), &features(&[])),
        "\n#[cfg(not(unix))]\nfn f() {}\n"
    );
}

#[test]
fn a_path_inside_the_arguments_of_a_path_is_qualified_too() {
    let code = "fn f(v: Vec<crate::A>) -> std::option::Option<crate::b::B<crate::C>> { g::<crate::D>(v) }\n";
    let expected = "fn f(v: Vec<crate::lib::A>) -> std::option::Option<crate::lib::b::B<crate::lib::C>> { g::<crate::lib::D>(v) }\n";
    let out = paths::replace_crate_paths(code, &sites(code), "lib");
    assert!(out.rewrote);
    assert_eq!(out.text, expected);
}
