//! Attributes as the passes read them, and the shapes they look for.

use crate::span::Extent;
use crate::text::{same_text, texts};
use vstd::prelude::*;

verus! {

/// The path of an attribute: whether it begins with `::`, and the names of
/// its segments.
#[derive(Debug, PartialEq, Eq)]
pub struct MetaPath {
    pub leading_colon: bool,
    pub segments: Vec<String>,
}

/// One item in the list of an attribute: its text, and its path if it is
/// itself of the shape of an attribute rather than a literal.
#[derive(Debug, PartialEq, Eq)]
pub struct Nested {
    pub text: String,
    pub path: Option<MetaPath>,
}

/// What stands behind the path of an attribute.
#[derive(Debug, PartialEq, Eq)]
pub enum Meta {
    /// Nothing: `#[name]`.
    Path,
    /// A list in parentheses, `#[name(..)]`: its items, and the text of
    /// them all.
    List { nested: Vec<Nested>, inner: String },
    /// A value, `#[name = ..]`: the text that the value holds if it is a
    /// string, and where name and value stand.
    NameValue { value: Option<String>, span: Extent },
}

/// An attribute: where it stands, its path, and what stands behind the
/// path if it has one of the three shapes of [`Meta`].
#[derive(Debug, PartialEq, Eq)]
pub struct Attr {
    pub span: Extent,
    pub path: MetaPath,
    pub meta: Option<Meta>,
}

/// A path as specifications see it.
pub struct MetaPathView {
    pub leading_colon: bool,
    pub segments: Seq<Seq<char>>,
}

/// An item of a list as specifications see it.
pub struct NestedView {
    pub text: Seq<char>,
    pub path: Option<MetaPathView>,
}

/// What stands behind a path as specifications see it.
pub enum MetaView {
    Path,
    List { nested: Seq<NestedView>, inner: Seq<char> },
    NameValue { value: Option<Seq<char>>, span: Extent },
}

/// An attribute as specifications see it.
pub struct AttrView {
    pub span: Extent,
    pub path: MetaPathView,
    pub meta: Option<MetaView>,
}

impl View for MetaPath {
    type V = MetaPathView;

    open spec fn view(&self) -> MetaPathView {
        MetaPathView { leading_colon: self.leading_colon, segments: texts(self.segments@) }
    }
}

impl View for Nested {
    type V = NestedView;

    open spec fn view(&self) -> NestedView {
        NestedView {
            text: self.text@,
            path: match self.path {
                Some(path) => Some(path@),
                None => None,
            },
        }
    }
}

/// The views of the items of a list.
pub open spec fn nested_views(nested: Seq<Nested>) -> Seq<NestedView> {
    Seq::new(nested.len(), |i: int| nested[i]@)
}

impl View for Meta {
    type V = MetaView;

    open spec fn view(&self) -> MetaView {
        match self {
            Meta::Path => MetaView::Path,
            Meta::List { nested, inner } => MetaView::List {
                nested: nested_views(nested@),
                inner: inner@,
            },
            Meta::NameValue { value, span } => MetaView::NameValue {
                value: match value {
                    Some(text) => Some(text@),
                    None => None,
                },
                span: *span,
            },
        }
    }
}

impl View for Attr {
    type V = AttrView;

    open spec fn view(&self) -> AttrView {
        AttrView {
            span: self.span,
            path: self.path@,
            meta: match self.meta {
                Some(meta) => Some(meta@),
                None => None,
            },
        }
    }
}

/// The views of a run of attributes.
pub open spec fn attr_views(attrs: Seq<Attr>) -> Seq<AttrView> {
    Seq::new(attrs.len(), |i: int| attrs[i]@)
}

/// Whether a path is the one name `name`.
pub open spec fn is_ident(path: MetaPathView, name: Seq<char>) -> bool {
    !path.leading_colon && path.segments.len() == 1 && path.segments[0] == name
}

/// Whether an attribute is the bare word `name`: `#[name]`.
pub open spec fn is_word(attr: AttrView, name: Seq<char>) -> bool {
    attr.meta == Some(MetaView::Path) && is_ident(attr.path, name)
}

/// The text inside `#[name(..)]`, if the attribute has that shape.
pub open spec fn list_of(attr: AttrView, name: Seq<char>) -> Option<Seq<char>> {
    match attr.meta {
        Some(MetaView::List { inner, .. }) => if is_ident(attr.path, name) {
            Some(inner)
        } else {
            None
        },
        _ => None,
    }
}

/// The string in `#[name = ".."]`, and where name and value stand, if the
/// attribute has that shape.
pub open spec fn string_of(attr: AttrView, name: Seq<char>) -> Option<(Seq<char>, Extent)> {
    match attr.meta {
        Some(MetaView::NameValue { value: Some(text), span }) => if is_ident(attr.path, name) {
            Some((text, span))
        } else {
            None
        },
        _ => None,
    }
}

/// Whether an attribute documents what it stands on: it has one of the
/// three shapes and its path is `doc`.
pub open spec fn is_doc(attr: AttrView) -> bool {
    attr.meta is Some && is_ident(attr.path, "doc"@)
}

/// Whether `path` is the one name `name`.
pub fn path_is(path: &MetaPath, name: &str) -> (r: bool)
    ensures
        r == is_ident(path@, name@),
{
    if path.leading_colon || path.segments.len() != 1 {
        return false;
    }
    assert(path@.segments[0] == path.segments@[0]@);
    same_text(path.segments[0].as_str(), name)
}

/// Whether `attr` is the bare word `name`.
pub fn attr_is_word(attr: &Attr, name: &str) -> (r: bool)
    ensures
        r == is_word(attr@, name@),
{
    match &attr.meta {
        Some(Meta::Path) => path_is(&attr.path, name),
        _ => false,
    }
}

/// The text inside `attr` if it has the shape `#[name(..)]`.
pub fn attr_list<'a>(attr: &'a Attr, name: &str) -> (r: Option<&'a String>)
    ensures
        match (r, list_of(attr@, name@)) {
            (Some(text), Some(expected)) => text@ == expected,
            (None, None) => true,
            _ => false,
        },
{
    match &attr.meta {
        Some(Meta::List { inner, .. }) => {
            if path_is(&attr.path, name) {
                Some(inner)
            } else {
                None
            }
        },
        _ => None,
    }
}

/// The string in `attr`, and where name and value stand, if it has the
/// shape `#[name = ".."]`.
pub fn attr_string<'a>(attr: &'a Attr, name: &str) -> (r: Option<(&'a String, Extent)>)
    ensures
        match (r, string_of(attr@, name@)) {
            (Some((text, span)), Some((expected, at))) => text@ == expected && span == at,
            (None, None) => true,
            _ => false,
        },
{
    match &attr.meta {
        Some(Meta::NameValue { value: Some(text), span }) => {
            if path_is(&attr.path, name) {
                Some((text, *span))
            } else {
                None
            }
        },
        _ => None,
    }
}

/// Whether `attr` documents what it stands on.
pub fn attr_is_doc(attr: &Attr) -> (r: bool)
    ensures
        r == is_doc(attr@),
{
    attr.meta.is_some() && path_is(&attr.path, "doc")
}

/// Whether one of the first `n` attributes is the bare word `name`.
pub open spec fn holds_word(attrs: Seq<AttrView>, name: Seq<char>, n: nat) -> bool
    decreases n,
{
    if n == 0 || n > attrs.len() {
        false
    } else {
        holds_word(attrs, name, (n - 1) as nat) || is_word(attrs[n - 1], name)
    }
}

/// Whether one of `attrs` is the bare word `name`.
pub fn has_word(attrs: &Vec<Attr>, name: &str) -> (r: bool)
    ensures
        r == holds_word(attr_views(attrs@), name@, attrs@.len()),
{
    let mut found = false;
    let mut i: usize = 0;
    while i < attrs.len()
        invariant
            i <= attrs.len(),
            found == holds_word(attr_views(attrs@), name@, i as nat),
        decreases attrs.len() - i,
    {
        assert(attr_views(attrs@)[i as int] == attrs@[i as int]@);
        if attr_is_word(&attrs[i], name) {
            found = true;
        }
        i += 1;
    }
    found
}

/// Whether one of the first `n` attributes has the path `name`, whatever
/// stands behind it.
pub open spec fn holds_path(attrs: Seq<AttrView>, name: Seq<char>, n: nat) -> bool
    decreases n,
{
    if n == 0 || n > attrs.len() {
        false
    } else {
        holds_path(attrs, name, (n - 1) as nat) || is_ident(attrs[n - 1].path, name)
    }
}

/// Whether one of `attrs` has the path `name`.
pub fn has_path(attrs: &Vec<Attr>, name: &str) -> (r: bool)
    ensures
        r == holds_path(attr_views(attrs@), name@, attrs@.len()),
{
    let mut found = false;
    let mut i: usize = 0;
    while i < attrs.len()
        invariant
            i <= attrs.len(),
            found == holds_path(attr_views(attrs@), name@, i as nat),
        decreases attrs.len() - i,
    {
        assert(attr_views(attrs@)[i as int] == attrs@[i as int]@);
        if path_is(&attrs[i].path, name) {
            found = true;
        }
        i += 1;
    }
    found
}

/// The string of the first attribute from index `from` on that has the
/// shape `#[name = ".."]`.
pub open spec fn first_string(attrs: Seq<AttrView>, name: Seq<char>, from: int) -> Option<
    Seq<char>,
>
    decreases attrs.len() - from,
{
    if from < 0 || from >= attrs.len() {
        None
    } else {
        match string_of(attrs[from], name) {
            Some((text, _)) => Some(text),
            None => first_string(attrs, name, from + 1),
        }
    }
}

/// The string of the first of `attrs` that has the shape
/// `#[name = ".."]`.
pub fn find_string<'a>(attrs: &'a Vec<Attr>, name: &str) -> (r: Option<&'a String>)
    ensures
        match (r, first_string(attr_views(attrs@), name@, 0)) {
            (Some(text), Some(expected)) => text@ == expected,
            (None, None) => true,
            _ => false,
        },
{
    let ghost views = attr_views(attrs@);
    let mut i: usize = 0;
    while i < attrs.len()
        invariant
            i <= attrs.len(),
            views == attr_views(attrs@),
            first_string(views, name@, 0) == first_string(views, name@, i as int),
        decreases attrs.len() - i,
    {
        assert(views[i as int] == attrs@[i as int]@);
        match attr_string(&attrs[i], name) {
            Some((text, _)) => {
                return Some(text);
            },
            None => {},
        }
        i += 1;
    }
    None
}

} // verus!
