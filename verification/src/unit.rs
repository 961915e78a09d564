//! The top level of a unit: its items, and the passes that look at
//! nothing deeper.

use crate::attr::{
    attr_views, has_word, holds_word, is_ident, path_is, Attr, AttrView, Meta, MetaView, Nested,
    NestedView, nested_views,
};
use crate::cfg::{condition_value, condition_verdict, CfgEnv, CfgEnvView};
use crate::names::{UseDecl, UseDeclView};
use crate::patcher::{patched, replace_ranges};
use crate::paths::insertion;
use crate::span::{EditSet, EditView, Extent, registered};
use crate::text::{holds_name, same_text, texts};
use vstd::prelude::*;

verus! {

/// What an item at the top level of a unit is, with what the passes read
/// of it.
#[derive(Debug, PartialEq, Eq)]
pub enum ItemKind {
    /// A module: its name, whether its body stands in line, and where its
    /// semicolon stands.
    Module { name: String, inline: bool, semi: Extent },
    /// An `extern crate` item: the crate's name, and the name it is given
    /// with `as`.
    ExternCrate { name: String, rename: Option<String> },
    /// A `use` declaration.
    Use(UseDecl),
    /// Anything else.
    Other,
}

/// An item at the top level of a unit: where it stands, its attributes,
/// and what it is.
#[derive(Debug, PartialEq, Eq)]
pub struct Item {
    pub span: Extent,
    pub attrs: Vec<Attr>,
    pub kind: ItemKind,
}

/// The kind of an item as specifications see it.
pub enum ItemKindView {
    Module { name: Seq<char>, inline: bool, semi: Extent },
    ExternCrate { name: Seq<char>, rename: Option<Seq<char>> },
    Use(UseDeclView),
    Other,
}

/// An item as specifications see it.
pub struct ItemView {
    pub span: Extent,
    pub attrs: Seq<AttrView>,
    pub kind: ItemKindView,
}

/// The text of a string that may be missing.
pub open spec fn text_of(s: Option<String>) -> Option<Seq<char>> {
    match s {
        Some(text) => Some(text@),
        None => None,
    }
}

impl View for Item {
    type V = ItemView;

    open spec fn view(&self) -> ItemView {
        ItemView {
            span: self.span,
            attrs: attr_views(self.attrs@),
            kind: match self.kind {
                ItemKind::Module { name, inline, semi } => ItemKindView::Module {
                    name: name@,
                    inline,
                    semi,
                },
                ItemKind::ExternCrate { name, rename } => ItemKindView::ExternCrate {
                    name: name@,
                    rename: text_of(rename),
                },
                ItemKind::Use(decl) => ItemKindView::Use(decl@),
                ItemKind::Other => ItemKindView::Other,
            },
        }
    }
}

/// The views of a run of items.
pub open spec fn item_views(items: Seq<Item>) -> Seq<ItemView> {
    Seq::new(items.len(), |i: int| items[i]@)
}

/// `names` with `name`, once.
pub open spec fn with_name(names: Seq<Seq<char>>, name: Seq<char>) -> Seq<Seq<char>> {
    if names.contains(name) {
        names
    } else {
        names.push(name)
    }
}

/// Adds `name` to `names` unless it is there.
pub fn add_name(names: &mut Vec<String>, name: &String)
    ensures
        texts(final(names)@) == with_name(texts(old(names)@), name@),
{
    if !holds_name(names, name.as_str()) {
        names.push(name.clone());
        assert(texts(names@) =~= texts(old(names)@).push(name@));
    }
}

/// `names` with the names of the modules among the first `n` items.
pub open spec fn module_names(items: Seq<ItemView>, n: nat, names: Seq<Seq<char>>) -> Seq<
    Seq<char>,
>
    decreases n,
{
    if n == 0 || n > items.len() {
        names
    } else {
        let before = module_names(items, (n - 1) as nat, names);
        match items[n - 1].kind {
            ItemKindView::Module { name, .. } => with_name(before, name),
            _ => before,
        }
    }
}

/// The names of the modules that a unit declares at its top level, each
/// once, in the order in which they are first declared.
pub fn list_mod_names(items: &Vec<Item>) -> (names: Vec<String>)
    ensures
        texts(names@) == module_names(item_views(items@), items@.len(), Seq::empty()),
{
    let mut names: Vec<String> = Vec::new();
    let mut i: usize = 0;
    assert(texts(names@) =~= Seq::<Seq<char>>::empty());
    while i < items.len()
        invariant
            i <= items.len(),
            texts(names@) == module_names(item_views(items@), i as nat, Seq::empty()),
        decreases items.len() - i,
    {
        assert(item_views(items@)[i as int] == items@[i as int]@);
        match &items[i].kind {
            ItemKind::Module { name, .. } => {
                add_name(&mut names, name);
            },
            _ => {},
        }
        i += 1;
    }
    names
}

/// The edit that deletes what stands in `span`.
pub open spec fn removal(span: Extent) -> EditView {
    EditView { span, text: Seq::empty() }
}

/// The deletions of the items among the first `n` that are neither a
/// module nor an `extern crate` item.
pub open spec fn clearing_edits(items: Seq<ItemView>, n: nat) -> Seq<EditView>
    decreases n,
{
    if n == 0 || n > items.len() {
        Seq::empty()
    } else {
        let before = clearing_edits(items, (n - 1) as nat);
        match items[n - 1].kind {
            ItemKindView::Module { .. } => before,
            ItemKindView::ExternCrate { .. } => before,
            _ => registered(before, removal(items[n - 1].span)),
        }
    }
}

/// `code` without the items at its top level that are neither a module
/// nor an `extern crate` item.
pub fn remove_toplevel_items_except_mods_and_extern_crates(code: &str, items: &Vec<Item>) -> (out:
    String)
    ensures
        out@ == patched(code@, clearing_edits(item_views(items@), items@.len())),
{
    let mut edits = EditSet::new();
    let mut i: usize = 0;
    while i < items.len()
        invariant
            i <= items.len(),
            edits@ == clearing_edits(item_views(items@), i as nat),
        decreases items.len() - i,
    {
        assert(item_views(items@)[i as int] == items@[i as int]@);
        match &items[i].kind {
            ItemKind::Module { .. } => {},
            ItemKind::ExternCrate { .. } => {},
            _ => {
                edits.insert(items[i].span, String::new());
            },
        }
        i += 1;
    }
    replace_ranges(code, &edits)
}

/// `acc` with `/*` inserted where `span` starts and `*/` where it ends.
pub open spec fn commented_out(acc: Seq<EditView>, span: Extent) -> Seq<EditView> {
    registered(
        registered(acc, insertion(span.start, seq!['/', '*'])),
        insertion(span.end, seq!['*', '/']),
    )
}

fn comment_out(edits: &mut EditSet, span: Extent)
    ensures
        final(edits)@ == commented_out(old(edits)@, span),
{
    proof {
        reveal_strlit("/*");
        reveal_strlit("*/");
        assert("/*"@ =~= seq!['/', '*']);
        assert("*/"@ =~= seq!['*', '/']);
    }
    edits.insert(Extent::point(span.start), "/*".to_owned());
    edits.insert(Extent::point(span.end), "*/".to_owned());
}

/// Whether an item brings in the macros of a crate that cannot be had: an
/// `extern crate` item that carries `#[macro_use]` and is given the name
/// `_`, for a crate that is not among `available`.
pub open spec fn is_lost_macro_use(item: ItemView, available: Seq<Seq<char>>) -> bool {
    match item.kind {
        ItemKindView::ExternCrate { name, rename } => holds_word(
            item.attrs,
            "macro_use"@,
            item.attrs.len(),
        ) && rename == Some(seq!['_']) && !available.contains(name),
        _ => false,
    }
}

/// The edits that comment out the items among the first `n` that bring in
/// the macros of a crate that cannot be had.
pub open spec fn macro_use_edits(items: Seq<ItemView>, n: nat, available: Seq<Seq<char>>) -> Seq<
    EditView,
>
    decreases n,
{
    if n == 0 || n > items.len() {
        Seq::empty()
    } else {
        let before = macro_use_edits(items, (n - 1) as nat, available);
        if is_lost_macro_use(items[n - 1], available) {
            commented_out(before, items[n - 1].span)
        } else {
            before
        }
    }
}

/// Whether an item is an `extern crate` item that carries `#[macro_use]`
/// and is given the name `_`.
pub open spec fn asks_availability(item: ItemView) -> bool {
    is_lost_macro_use(item, Seq::empty())
}

/// Whether it matters for `item` if its crate can be had: it is an
/// `extern crate` item that carries `#[macro_use]` and is given the name
/// `_`.
pub fn wants_availability(item: &Item) -> (r: bool)
    ensures
        r == asks_availability(item@),
{
    let none: Vec<String> = Vec::new();
    assert(texts(none@) =~= Seq::<Seq<char>>::empty());
    lost_macro_use(item, &none)
}

fn lost_macro_use(item: &Item, available: &Vec<String>) -> (r: bool)
    ensures
        r == is_lost_macro_use(item@, texts(available@)),
{
    match &item.kind {
        ItemKind::ExternCrate { name, rename } => {
            if !has_word(&item.attrs, "macro_use") {
                return false;
            }
            let underscore = match rename {
                Some(alias) => {
                    proof {
                        reveal_strlit("_");
                        assert("_"@ =~= seq!['_']);
                    }
                    same_text(alias.as_str(), "_")
                },
                None => false,
            };
            underscore && !holds_name(available, name.as_str())
        },
        _ => false,
    }
}

/// `code` with every `#[macro_use] extern crate name as _;` commented
/// out whose crate is not among `available`.
pub fn comment_out_macro_uses(code: &str, items: &Vec<Item>, available: &Vec<String>) -> (out:
    String)
    ensures
        out@ == patched(
            code@,
            macro_use_edits(item_views(items@), items@.len(), texts(available@)),
        ),
{
    let mut edits = EditSet::new();
    let mut i: usize = 0;
    while i < items.len()
        invariant
            i <= items.len(),
            edits@ == macro_use_edits(item_views(items@), i as nat, texts(available@)),
        decreases items.len() - i,
    {
        assert(item_views(items@)[i as int] == items@[i as int]@);
        if lost_macro_use(&items[i], available) {
            comment_out(&mut edits, items[i].span);
        }
        i += 1;
    }
    replace_ranges(code, &edits)
}

/// The environment in which only the bundling flag holds.
pub open spec fn flag_only_env() -> CfgEnvView {
    CfgEnvView { features: Seq::empty(), flag_only: true }
}

/// Whether an item of a list is the attribute `cargo_equip::equip`.
pub open spec fn is_equip(item: NestedView) -> bool {
    match item.path {
        Some(path) => path.segments.len() == 2 && path.segments[0] == "cargo_equip"@
            && path.segments[1] == "equip"@,
        None => false,
    }
}

/// Whether one of the items with an index from 1 up to `n` is
/// `cargo_equip::equip`.
pub open spec fn names_equip(nested: Seq<NestedView>, n: nat) -> bool
    decreases n,
{
    if n <= 1 || n > nested.len() {
        false
    } else {
        names_equip(nested, (n - 1) as nat) || is_equip(nested[n - 1])
    }
}

/// Whether an attribute marks the unit as one to bundle: it has the shape
/// `cfg_attr(condition, .., cargo_equip::equip, ..)`, and its condition
/// holds where only the bundling flag does.
pub open spec fn is_equip_marker(attr: AttrView) -> bool {
    match attr.meta {
        Some(MetaView::List { nested, .. }) => is_ident(attr.path, "cfg_attr"@) && nested.len()
            > 0 && condition_verdict(nested[0].text, flag_only_env()) == Some(Some(true))
            && names_equip(nested, nested.len()),
        _ => false,
    }
}

/// The index of the first marker among `attrs` from index `from` on, or
/// the number of attributes if there is none.
pub open spec fn first_marker(attrs: Seq<AttrView>, from: int) -> int
    decreases attrs.len() - from,
{
    if from < 0 || from >= attrs.len() {
        attrs.len() as int
    } else if is_equip_marker(attrs[from]) {
        from
    } else {
        first_marker(attrs, from + 1)
    }
}

fn equip_item(item: &Nested) -> (r: bool)
    ensures
        r == is_equip(item@),
{
    match &item.path {
        Some(path) => {
            if path.segments.len() != 2 {
                return false;
            }
            assert(path@.segments[0] == path.segments@[0]@);
            assert(path@.segments[1] == path.segments@[1]@);
            same_text(path.segments[0].as_str(), "cargo_equip") && same_text(
                path.segments[1].as_str(),
                "equip",
            )
        },
        None => false,
    }
}

fn equip_marker(attr: &Attr) -> (r: bool)
    ensures
        r == is_equip_marker(attr@),
{
    match &attr.meta {
        Some(Meta::List { nested, .. }) => {
            if !path_is(&attr.path, "cfg_attr") || nested.len() == 0 {
                return false;
            }
            let ghost items = nested_views(nested@);
            assert(items[0] == nested@[0]@);
            let env = CfgEnv { features: Vec::new(), flag_only: true };
            assert(env@.features =~= Seq::<Seq<char>>::empty());
            assert(env@ == flag_only_env());
            match condition_value(nested[0].text.as_str(), &env) {
                Some(Some(true)) => {
                    let mut found = false;
                    let mut i: usize = 1;
                    while i < nested.len()
                        invariant
                            1 <= i <= nested.len(),
                            items == nested_views(nested@),
                            found == names_equip(items, i as nat),
                        decreases nested.len() - i,
                    {
                        assert(items[i as int] == nested@[i as int]@);
                        if equip_item(&nested[i]) {
                            found = true;
                        }
                        i += 1;
                    }
                    found
                },
                _ => false,
            }
        },
        _ => false,
    }
}

/// The edits that comment out the declarations beginning with `::` among
/// the first `n` items, added to `acc`.
pub open spec fn global_use_edits(items: Seq<ItemView>, n: nat, acc: Seq<EditView>) -> Seq<EditView>
    decreases n,
{
    if n == 0 || n > items.len() {
        acc
    } else {
        let before = global_use_edits(items, (n - 1) as nat, acc);
        match items[n - 1].kind {
            ItemKindView::Use(decl) => if decl.leading_colon {
                commented_out(before, items[n - 1].span)
            } else {
                before
            },
            _ => before,
        }
    }
}

/// The declarations beginning with `::` among the first `n` items.
pub open spec fn global_uses(items: Seq<ItemView>, n: nat) -> Seq<UseDeclView>
    decreases n,
{
    if n == 0 || n > items.len() {
        Seq::empty()
    } else {
        let before = global_uses(items, (n - 1) as nat);
        match items[n - 1].kind {
            ItemKindView::Use(decl) => if decl.leading_colon {
                before.push(decl)
            } else {
                before
            },
            _ => before,
        }
    }
}

/// A unit that is marked as one to bundle: its text with the marker and
/// the declarations beginning with `::` commented out, and those
/// declarations.
#[derive(Debug, PartialEq, Eq)]
pub struct FoundUses {
    pub code: String,
    pub uses: Vec<UseDecl>,
}

/// What [`find_uses`] gives: nothing for a unit without a marker.
pub open spec fn uses_found(code: Seq<char>, attrs: Seq<AttrView>, items: Seq<ItemView>)
    -> Option<(Seq<char>, Seq<UseDeclView>)> {
    let at = first_marker(attrs, 0);
    if 0 <= at < attrs.len() {
        Some(
            (
                patched(
                    code,
                    global_use_edits(
                        items,
                        items.len(),
                        commented_out(Seq::empty(), attrs[at].span),
                    ),
                ),
                global_uses(items, items.len()),
            ),
        )
    } else {
        None
    }
}

/// Looks for the marker among the unit's attributes. Where there is one,
/// the marker and every declaration beginning with `::` are commented
/// out, and those declarations are handed out.
pub fn find_uses(code: &str, attrs: &Vec<Attr>, items: &Vec<Item>) -> (r: Option<FoundUses>)
    ensures
        match (r, uses_found(code@, attr_views(attrs@), item_views(items@))) {
            (Some(found), Some((text, uses))) => found.code@ == text && crate::names::decl_views(
                found.uses@,
            ) == uses,
            (None, None) => true,
            _ => false,
        },
{
    let ghost views = attr_views(attrs@);
    let mut at: usize = 0;
    while at < attrs.len() && !equip_marker(&attrs[at])
        invariant
            at <= attrs.len(),
            views == attr_views(attrs@),
            first_marker(views, 0) == first_marker(views, at as int),
        decreases attrs.len() - at,
    {
        assert(views[at as int] == attrs@[at as int]@);
        at += 1;
    }
    if at >= attrs.len() {
        return None;
    }
    assert(views[at as int] == attrs@[at as int]@);
    let mut edits = EditSet::new();
    comment_out(&mut edits, attrs[at].span);
    let ghost start = edits@;
    let mut uses: Vec<UseDecl> = Vec::new();
    let mut i: usize = 0;
    assert(crate::names::decl_views(uses@) =~= global_uses(item_views(items@), 0));
    while i < items.len()
        invariant
            i <= items.len(),
            edits@ == global_use_edits(item_views(items@), i as nat, start),
            crate::names::decl_views(uses@) == global_uses(item_views(items@), i as nat),
        decreases items.len() - i,
    {
        assert(item_views(items@)[i as int] == items@[i as int]@);
        match &items[i].kind {
            ItemKind::Use(decl) => {
                if decl.leading_colon {
                    comment_out(&mut edits, items[i].span);
                    let ghost before = crate::names::decl_views(uses@);
                    uses.push(UseDecl { leading_colon: true, tree: decl.tree.duplicate() });
                    assert(crate::names::decl_views(uses@) =~= before.push(decl@));
                }
            },
            _ => {},
        }
        i += 1;
    }
    Some(FoundUses { code: replace_ranges(code, &edits), uses })
}

/// One module of a unit that something else imports, named by the unit's
/// package and the module's name.
#[derive(Debug, PartialEq, Eq)]
pub struct UsedModule {
    pub package: String,
    pub module: String,
}

/// The library text of one package on its way into the bundle.
#[derive(Debug, PartialEq, Eq)]
pub struct LibContent {
    pub package_id: String,
    pub extern_crate_name: String,
    pub content: String,
    pub modules: Vec<String>,
}

/// Whether `used` names the module `module` of the package `package`.
pub open spec fn names_module(used: Seq<UsedModule>, n: nat, package: Seq<char>, module: Seq<char>)
    -> bool
    decreases n,
{
    if n == 0 || n > used.len() {
        false
    } else {
        names_module(used, (n - 1) as nat, package, module) || (used[n - 1].package@ == package
            && used[n - 1].module@ == module)
    }
}

/// Whether the module `module` of `package` goes: a list of used modules
/// is given, and it does not name the module.
pub open spec fn is_unused(used: Option<Seq<UsedModule>>, package: Seq<char>, module: Seq<char>)
    -> bool {
    match used {
        Some(list) => !names_module(list, list.len(), package, module),
        None => false,
    }
}

/// The deletions of the unused modules among the first `n` items.
pub open spec fn pruning_edits(
    items: Seq<ItemView>,
    n: nat,
    package: Seq<char>,
    used: Option<Seq<UsedModule>>,
) -> Seq<EditView>
    decreases n,
{
    if n == 0 || n > items.len() {
        Seq::empty()
    } else {
        let before = pruning_edits(items, (n - 1) as nat, package, used);
        match items[n - 1].kind {
            ItemKindView::Module { name, .. } => if is_unused(used, package, name) {
                registered(before, removal(items[n - 1].span))
            } else {
                before
            },
            _ => before,
        }
    }
}

/// `names` with the names of the modules among the first `n` items that
/// stay.
pub open spec fn kept_modules(
    items: Seq<ItemView>,
    n: nat,
    package: Seq<char>,
    used: Option<Seq<UsedModule>>,
    names: Seq<Seq<char>>,
) -> Seq<Seq<char>>
    decreases n,
{
    if n == 0 || n > items.len() {
        names
    } else {
        let before = kept_modules(items, (n - 1) as nat, package, used, names);
        match items[n - 1].kind {
            ItemKindView::Module { name, .. } => if is_unused(used, package, name) {
                before
            } else {
                with_name(before, name)
            },
            _ => before,
        }
    }
}

fn module_is_used(used: &Vec<UsedModule>, package: &str, module: &str) -> (r: bool)
    ensures
        r == names_module(used@, used@.len(), package@, module@),
{
    let mut found = false;
    let mut i: usize = 0;
    while i < used.len()
        invariant
            i <= used.len(),
            found == names_module(used@, i as nat, package@, module@),
        decreases used.len() - i,
    {
        if same_text(used[i].package.as_str(), package) && same_text(
            used[i].module.as_str(),
            module,
        ) {
            found = true;
        }
        i += 1;
    }
    found
}

/// The used modules as specifications take them.
pub open spec fn used_view(used: Option<&Vec<UsedModule>>) -> Option<Seq<UsedModule>> {
    match used {
        Some(list) => Some(list@),
        None => None,
    }
}

/// Takes the modules out of `lib` that `used` does not name, and notes
/// the names of those that stay. Where no list is given, every module
/// stays.
pub fn prune_modules(lib: &mut LibContent, items: &Vec<Item>, used: Option<&Vec<UsedModule>>)
    ensures
        final(lib).package_id == old(lib).package_id,
        final(lib).extern_crate_name == old(lib).extern_crate_name,
        final(lib).content@ == patched(
            old(lib).content@,
            pruning_edits(item_views(items@), items@.len(), old(lib).package_id@, used_view(used)),
        ),
        texts(final(lib).modules@) == kept_modules(
            item_views(items@),
            items@.len(),
            old(lib).package_id@,
            used_view(used),
            texts(old(lib).modules@),
        ),
{
    let mut edits = EditSet::new();
    let mut i: usize = 0;
    while i < items.len()
        invariant
            i <= items.len(),
            lib.package_id == old(lib).package_id,
            lib.extern_crate_name == old(lib).extern_crate_name,
            lib.content == old(lib).content,
            edits@ == pruning_edits(
                item_views(items@),
                i as nat,
                old(lib).package_id@,
                used_view(used),
            ),
            texts(lib.modules@) == kept_modules(
                item_views(items@),
                i as nat,
                old(lib).package_id@,
                used_view(used),
                texts(old(lib).modules@),
            ),
        decreases items.len() - i,
    {
        assert(item_views(items@)[i as int] == items@[i as int]@);
        match &items[i].kind {
            ItemKind::Module { name, .. } => {
                let unused = match used {
                    Some(list) => !module_is_used(list, lib.package_id.as_str(), name.as_str()),
                    None => false,
                };
                if unused {
                    edits.insert(items[i].span, String::new());
                } else {
                    add_name(&mut lib.modules, name);
                }
            },
            _ => {},
        }
        i += 1;
    }
    lib.content = replace_ranges(lib.content.as_str(), &edits);
}

/// Prunes each library by the items of its unit: `outlines` holds, for
/// each of `contents` in turn, the items at the top level of its text.
/// Nothing is touched where the two differ in length.
pub fn remove_unused_modules(
    contents: &mut Vec<LibContent>,
    outlines: &Vec<Vec<Item>>,
    used: Option<&Vec<UsedModule>>,
) -> (done: bool)
    ensures
        done == (old(contents)@.len() == outlines@.len()),
        !done ==> final(contents)@ == old(contents)@,
        final(contents)@.len() == old(contents)@.len(),
        done ==> forall|i: int|
            0 <= i < outlines@.len() ==> {
                let before = old(contents)@[i];
                let after = #[trigger] final(contents)@[i];
                &&& after.package_id == before.package_id
                &&& after.extern_crate_name == before.extern_crate_name
                &&& after.content@ == patched(
                    before.content@,
                    pruning_edits(
                        item_views(outlines@[i]@),
                        outlines@[i]@.len(),
                        before.package_id@,
                        used_view(used),
                    ),
                )
                &&& texts(after.modules@) == kept_modules(
                    item_views(outlines@[i]@),
                    outlines@[i]@.len(),
                    before.package_id@,
                    used_view(used),
                    texts(before.modules@),
                )
            },
{
    if contents.len() != outlines.len() {
        return false;
    }
    let mut i: usize = 0;
    while i < contents.len()
        invariant
            i <= contents.len(),
            contents@.len() == old(contents)@.len(),
            contents@.len() == outlines@.len(),
            forall|j: int| i <= j < contents@.len() ==> contents@[j] == old(contents)@[j],
            forall|j: int|
                0 <= j < i ==> {
                    let before = old(contents)@[j];
                    let after = #[trigger] contents@[j];
                    &&& after.package_id == before.package_id
                    &&& after.extern_crate_name == before.extern_crate_name
                    &&& after.content@ == patched(
                        before.content@,
                        pruning_edits(
                            item_views(outlines@[j]@),
                            outlines@[j]@.len(),
                            before.package_id@,
                            used_view(used),
                        ),
                    )
                    &&& texts(after.modules@) == kept_modules(
                        item_views(outlines@[j]@),
                        outlines@[j]@.len(),
                        before.package_id@,
                        used_view(used),
                        texts(before.modules@),
                    )
                },
        decreases contents.len() - i,
    {
        prune_modules(&mut contents[i], &outlines[i], used);
        i += 1;
    }
    true
}

} // verus!
