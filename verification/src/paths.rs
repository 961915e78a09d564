//! The crate-path rewriter: paths and visibilities that name the unit's own
//! root get the unit's qualifying name, so that they still resolve once
//! the unit is nested under another root.

use crate::hygiene::qualifier;
use crate::patcher::{patched, replace_ranges};
use crate::span::{EditSet, EditView, Extent, Position, registered};
use crate::text::same_text;
use vstd::prelude::*;

verus! {

/// The first segment of a path: its name, whether it comes without
/// arguments, and where it ends.
#[derive(Debug, PartialEq, Eq)]
pub struct Segment {
    pub name: String,
    pub plain: bool,
    pub end: Position,
}

/// The head of a path: whether the path begins with `::`, and its first
/// segment if it has one.
#[derive(Debug, PartialEq, Eq)]
pub struct PathHead {
    pub leading_colon: bool,
    pub first: Option<Segment>,
}

/// A use tree as the rewriter reads it: of a path, a name and a renamed
/// name only the first name and where it ends.
#[derive(Debug, PartialEq, Eq)]
pub enum UseNode {
    Path { name: String, end: Position },
    Name { name: String, end: Position },
    Rename { name: String, end: Position },
    Glob,
    Group(Vec<UseNode>),
}

/// One place that the rewriter looks at.
#[derive(Debug, PartialEq, Eq)]
pub enum Site {
    /// A path in an expression, a type, a pattern, an attribute or a macro
    /// call.
    Path(PathHead),
    /// A `use` declaration: whether it begins with `::`, and its tree.
    Use { leading_colon: bool, tree: UseNode },
    /// A visibility restricted to a path: whether it is written with `in`,
    /// the head of the path, whether the path is one segment long, and
    /// where the path starts.
    Restricted { has_in: bool, path: PathHead, lone: bool, start: Position },
}

/// The head of a path as specifications see it: the first segment is
/// given by its name, whether it is plain, and its end.
pub struct PathHeadView {
    pub leading_colon: bool,
    pub first: Option<(Seq<char>, bool, Position)>,
}

impl View for PathHead {
    type V = PathHeadView;

    open spec fn view(&self) -> PathHeadView {
        PathHeadView {
            leading_colon: self.leading_colon,
            first: match self.first {
                Some(segment) => Some((segment.name@, segment.plain, segment.end)),
                None => None,
            },
        }
    }
}

/// A use tree of the rewriter as specifications see it.
pub enum UseNodeView {
    Path { name: Seq<char>, end: Position },
    Name { name: Seq<char>, end: Position },
    Rename { name: Seq<char>, end: Position },
    Glob,
    Group(Seq<UseNodeView>),
}

impl UseNode {
    /// The tree as specifications see it.
    pub open spec fn shape(&self) -> UseNodeView
        decreases self,
    {
        match self {
            UseNode::Path { name, end } => UseNodeView::Path { name: name@, end: *end },
            UseNode::Name { name, end } => UseNodeView::Name { name: name@, end: *end },
            UseNode::Rename { name, end } => UseNodeView::Rename { name: name@, end: *end },
            UseNode::Glob => UseNodeView::Glob,
            UseNode::Group(items) => UseNodeView::Group(
                Seq::new(
                    items@.len(),
                    |i: int|
                        if 0 <= i < items@.len() {
                            items@[i].shape()
                        } else {
                            UseNodeView::Glob
                        },
                ),
            ),
        }
    }
}

impl View for UseNode {
    type V = UseNodeView;

    open spec fn view(&self) -> UseNodeView {
        self.shape()
    }
}

/// A site as specifications see it.
pub enum SiteView {
    Path(PathHeadView),
    Use { leading_colon: bool, tree: UseNodeView },
    Restricted { has_in: bool, path: PathHeadView, lone: bool, start: Position },
}

impl View for Site {
    type V = SiteView;

    open spec fn view(&self) -> SiteView {
        match self {
            Site::Path(head) => SiteView::Path(head@),
            Site::Use { leading_colon, tree } => SiteView::Use {
                leading_colon: *leading_colon,
                tree: tree@,
            },
            Site::Restricted { has_in, path, lone, start } => SiteView::Restricted {
                has_in: *has_in,
                path: path@,
                lone: *lone,
                start: *start,
            },
        }
    }
}

/// The views of a run of sites.
pub open spec fn site_views(sites: Seq<Site>) -> Seq<SiteView> {
    Seq::new(sites.len(), |i: int| sites[i]@)
}

/// The edit that inserts `text` at `at`.
pub open spec fn insertion(at: Position, text: Seq<char>) -> EditView {
    EditView { span: Extent { start: at, end: at }, text }
}

/// The name of the unit's own root.
pub open spec fn is_self_root(name: Seq<char>) -> bool {
    name == "crate"@
}

/// Where the qualifying name goes in a path: behind its first segment, if
/// the path does not begin with `::` and that segment is a plain `crate`.
pub open spec fn self_root_end(head: PathHeadView) -> Option<Position> {
    match head.first {
        Some((name, plain, end)) => if !head.leading_colon && plain && is_self_root(name) {
            Some(end)
        } else {
            None
        },
        None => None,
    }
}

/// `acc` with the edits for a path.
pub open spec fn path_edits(head: PathHeadView, qualified: Seq<char>, acc: Seq<EditView>) -> Seq<
    EditView,
> {
    match self_root_end(head) {
        Some(end) => registered(acc, insertion(end, qualified)),
        None => acc,
    }
}

/// `acc` with the edits for a use tree: a path, a name or a renamed name
/// that is `crate` gets the qualifying name behind it; the trees of a
/// group are looked at in turn; what follows the first segment of a path
/// is not looked at.
pub open spec fn use_edits(tree: UseNodeView, qualified: Seq<char>, acc: Seq<EditView>) -> Seq<
    EditView,
>
    decreases tree, 0nat,
{
    match tree {
        UseNodeView::Path { name, end } => if is_self_root(name) {
            registered(acc, insertion(end, qualified))
        } else {
            acc
        },
        UseNodeView::Name { name, end } => if is_self_root(name) {
            registered(acc, insertion(end, qualified))
        } else {
            acc
        },
        UseNodeView::Rename { name, end } => if is_self_root(name) {
            registered(acc, insertion(end, qualified))
        } else {
            acc
        },
        UseNodeView::Glob => acc,
        UseNodeView::Group(items) => group_edits(items, items.len(), qualified, acc),
    }
}

/// `acc` with the edits for the first `n` trees of a group.
pub open spec fn group_edits(
    items: Seq<UseNodeView>,
    n: nat,
    qualified: Seq<char>,
    acc: Seq<EditView>,
) -> Seq<EditView>
    decreases items, n,
{
    if n == 0 || n > items.len() {
        acc
    } else {
        use_edits(items[n - 1], qualified, group_edits(items, (n - 1) as nat, qualified, acc))
    }
}

/// `acc` with the edits for one site. A `use` that begins with `::` is
/// left alone. A visibility written with `in` is treated as its path. One
/// written without, `pub(crate)`, gets `in ` before the path and the
/// qualifying name behind it.
pub open spec fn site_edits(site: SiteView, qualified: Seq<char>, acc: Seq<EditView>) -> Seq<
    EditView,
> {
    match site {
        SiteView::Path(head) => path_edits(head, qualified, acc),
        SiteView::Use { leading_colon, tree } => if leading_colon {
            acc
        } else {
            use_edits(tree, qualified, acc)
        },
        SiteView::Restricted { has_in, path, lone, start } => if has_in {
            path_edits(path, qualified, acc)
        } else {
            match self_root_end(path) {
                Some(end) => if lone {
                    registered(
                        registered(acc, insertion(start, seq!['i', 'n', ' '])),
                        insertion(end, qualified),
                    )
                } else {
                    acc
                },
                None => acc,
            }
        },
    }
}

/// The edits for the first `n` of `sites`.
pub open spec fn crate_path_edits(sites: Seq<SiteView>, n: nat, qualified: Seq<char>) -> Seq<
    EditView,
>
    decreases n,
{
    if n == 0 || n > sites.len() {
        Seq::empty()
    } else {
        site_edits(sites[n - 1], qualified, crate_path_edits(sites, (n - 1) as nat, qualified))
    }
}

fn is_crate_name(name: &String) -> (r: bool)
    ensures
        r == is_self_root(name@),
{
    same_text(name.as_str(), "crate")
}

fn root_end(head: &PathHead) -> (r: Option<Position>)
    ensures
        r == self_root_end(head@),
{
    match &head.first {
        Some(segment) => {
            if !head.leading_colon && segment.plain && is_crate_name(&segment.name) {
                Some(segment.end)
            } else {
                None
            }
        },
        None => None,
    }
}

fn insert_text(edits: &mut EditSet, at: Position, text: &str)
    ensures
        final(edits)@ == registered(old(edits)@, insertion(at, text@)),
{
    edits.insert(Extent::point(at), text.to_owned());
}

fn visit_path(head: &PathHead, qualified: &str, edits: &mut EditSet)
    ensures
        final(edits)@ == path_edits(head@, qualified@, old(edits)@),
{
    match root_end(head) {
        Some(end) => insert_text(edits, end, qualified),
        None => {},
    }
}

fn visit_use_tree(tree: &UseNode, qualified: &str, edits: &mut EditSet)
    ensures
        final(edits)@ == use_edits(tree@, qualified@, old(edits)@),
    decreases tree,
{
    match tree {
        UseNode::Path { name, end } => {
            if is_crate_name(name) {
                insert_text(edits, *end, qualified);
            }
        },
        UseNode::Name { name, end } => {
            if is_crate_name(name) {
                insert_text(edits, *end, qualified);
            }
        },
        UseNode::Rename { name, end } => {
            if is_crate_name(name) {
                insert_text(edits, *end, qualified);
            }
        },
        UseNode::Glob => {},
        UseNode::Group(items) => {
            let mut i: usize = 0;
            while i < items.len()
                invariant
                    *tree == UseNode::Group(*items),
                    i <= items.len(),
                    edits@ == group_edits(tree@->Group_0, i as nat, qualified@, old(edits)@),
                decreases items.len() - i,
            {
                assert(decreases_to!(*tree => tree->Group_0));
                assert(decreases_to!(*items => items[i as int]));
                assert(tree@->Group_0[i as int] == items@[i as int]@);
                visit_use_tree(&items[i], qualified, edits);
                i += 1;
            }
        },
    }
}

fn visit_site(site: &Site, qualified: &str, edits: &mut EditSet)
    ensures
        final(edits)@ == site_edits(site@, qualified@, old(edits)@),
{
    match site {
        Site::Path(head) => visit_path(head, qualified, edits),
        Site::Use { leading_colon, tree } => {
            if !*leading_colon {
                visit_use_tree(tree, qualified, edits);
            }
        },
        Site::Restricted { has_in, path, lone, start } => {
            if *has_in {
                visit_path(path, qualified, edits);
            } else {
                match root_end(path) {
                    Some(end) => {
                        if *lone {
                            proof {
                                reveal_strlit("in ");
                                assert("in "@ =~= seq!['i', 'n', ' ']);
                            }
                            insert_text(edits, *start, "in ");
                            insert_text(edits, end, qualified);
                        }
                    },
                    None => {},
                }
            }
        },
    }
}

/// A text after the rewriter went over it, and whether anything in it
/// named the unit's own root.
#[derive(Debug, PartialEq, Eq)]
pub struct Rewritten {
    pub text: String,
    pub rewrote: bool,
}

/// What [`replace_crate_paths`] gives: the text and whether it was
/// rewritten. A text in which nothing names the unit's own root is handed
/// back as it is.
pub open spec fn crate_paths_replaced(code: Seq<char>, sites: Seq<SiteView>, name: Seq<char>) -> (
    Seq<char>,
    bool,
) {
    let edits = crate_path_edits(sites, sites.len(), seq![':', ':'] + name);
    if edits.len() == 0 {
        (code, false)
    } else {
        (patched(code, edits), true)
    }
}

/// `code` with `::` and `extern_crate_name` behind every `crate` that
/// `sites` show to start a path, a `use` or a restricted visibility.
pub fn replace_crate_paths(code: &str, sites: &Vec<Site>, extern_crate_name: &str) -> (r: Rewritten)
    ensures
        (r.text@, r.rewrote) == crate_paths_replaced(
            code@,
            site_views(sites@),
            extern_crate_name@,
        ),
{
    let qualified = qualifier(extern_crate_name);
    let mut edits = EditSet::new();
    let mut i: usize = 0;
    while i < sites.len()
        invariant
            i <= sites.len(),
            qualified@ == seq![':', ':'] + extern_crate_name@,
            edits@ == crate_path_edits(site_views(sites@), i as nat, qualified@),
        decreases sites.len() - i,
    {
        assert(site_views(sites@)[i as int] == sites@[i as int]@);
        visit_site(&sites[i], qualified.as_str(), &mut edits);
        i += 1;
    }
    if edits.is_empty() {
        Rewritten { text: code.to_owned(), rewrote: false }
    } else {
        Rewritten { text: replace_ranges(code, &edits), rewrote: true }
    }
}

/// One `extern crate` item: where it stands, up to its semicolon, and the
/// `use` declaration that takes its place, or why none could be made.
#[derive(Debug, PartialEq, Eq)]
pub struct ExternCrate {
    pub span: Extent,
    pub replacement: Result<String, String>,
}

/// An `extern crate` item as specifications see it.
pub struct ExternCrateView {
    pub span: Extent,
    pub replacement: Result<Seq<char>, Seq<char>>,
}

impl View for ExternCrate {
    type V = ExternCrateView;

    open spec fn view(&self) -> ExternCrateView {
        ExternCrateView {
            span: self.span,
            replacement: match self.replacement {
                Ok(text) => Ok(text@),
                Err(why) => Err(why@),
            },
        }
    }
}

/// The views of a run of `extern crate` items.
pub open spec fn extern_views(items: Seq<ExternCrate>) -> Seq<ExternCrateView> {
    Seq::new(items.len(), |i: int| items[i]@)
}

/// The edits for the first `n` items, as long as each has a replacement;
/// from the first item that has none on, the reason that the last such
/// item gave.
pub open spec fn extern_crate_edits(items: Seq<ExternCrateView>, n: nat) -> Result<
    Seq<EditView>,
    Seq<char>,
>
    decreases n,
{
    if n == 0 || n > items.len() {
        Ok(Seq::empty())
    } else {
        let before = extern_crate_edits(items, (n - 1) as nat);
        match items[n - 1].replacement {
            Err(why) => Err(why),
            Ok(text) => match before {
                Ok(edits) => Ok(registered(edits, EditView { span: items[n - 1].span, text })),
                Err(why) => Err(why),
            },
        }
    }
}

/// What [`replace_extern_crates`] gives.
pub open spec fn extern_crates_replaced(code: Seq<char>, items: Seq<ExternCrateView>) -> Result<
    Seq<char>,
    Seq<char>,
> {
    match extern_crate_edits(items, items.len()) {
        Ok(edits) => Ok(patched(code, edits)),
        Err(why) => Err(why),
    }
}

/// `code` with each `extern crate` item replaced by its `use`
/// declaration; the reason of the last item without one, if there is such
/// an item.
pub fn replace_extern_crates(code: &str, items: &Vec<ExternCrate>) -> (r: Result<String, String>)
    ensures
        match (r, extern_crates_replaced(code@, extern_views(items@))) {
            (Ok(text), Ok(expected)) => text@ == expected,
            (Err(why), Err(expected)) => why@ == expected,
            _ => false,
        },
{
    let mut edits = EditSet::new();
    let mut failure: Option<String> = None;
    let mut i: usize = 0;
    while i < items.len()
        invariant
            i <= items.len(),
            match (failure, extern_crate_edits(extern_views(items@), i as nat)) {
                (None, Ok(expected)) => edits@ == expected,
                (Some(why), Err(expected)) => why@ == expected,
                _ => false,
            },
        decreases items.len() - i,
    {
        assert(extern_views(items@)[i as int] == items@[i as int]@);
        match &items[i].replacement {
            Err(why) => {
                failure = Some(why.clone());
            },
            Ok(text) => {
                if failure.is_none() {
                    edits.insert(items[i].span, text.clone());
                }
            },
        }
        i += 1;
    }
    match failure {
        Some(why) => Err(why),
        None => Ok(replace_ranges(code, &edits)),
    }
}

} // verus!
