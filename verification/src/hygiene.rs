//! The macro hygiene rewriter: `$crate` in the body of an exported macro
//! gets the unit's qualifying name behind it, except where it leads to the
//! call of another macro.

use crate::attr::{attr_views, has_path, holds_path, Attr, AttrView};
use crate::patcher::{only_inserts, patched, replace_ranges};
use crate::span::{EditSet, EditView, Extent, Position, registered};
use crate::text::{from_chars, push_str, same_text};
use crate::token::{lemma_group_views, token_views, Token, TokenView};
use vstd::prelude::*;

verus! {

/// One macro definition as the rewriter reads it: whether it has a name,
/// its attributes, and the tokens of its body.
#[derive(Debug, PartialEq, Eq)]
pub struct MacroDef {
    pub named: bool,
    pub attrs: Vec<Attr>,
    pub body: Vec<Token>,
}

/// A macro definition as specifications see it.
pub struct MacroDefView {
    pub named: bool,
    pub attrs: Seq<AttrView>,
    pub body: Seq<TokenView>,
}

impl View for MacroDef {
    type V = MacroDefView;

    open spec fn view(&self) -> MacroDefView {
        MacroDefView {
            named: self.named,
            attrs: attr_views(self.attrs@),
            body: token_views(self.body@),
        }
    }
}

/// The views of a run of macro definitions.
pub open spec fn def_views(defs: Seq<MacroDef>) -> Seq<MacroDefView> {
    Seq::new(defs.len(), |i: int| defs[i]@)
}

/// The punctuation character `ch`.
pub open spec fn is_mark(token: TokenView, ch: char) -> bool {
    token matches TokenView::Punct { ch: c, .. } && c == ch
}

/// The identifier `crate`.
pub open spec fn is_root(token: TokenView) -> bool {
    token matches TokenView::Ident { text, .. } && text == "crate"@
}

/// Where a token ends.
pub open spec fn end_of(token: TokenView) -> Position {
    match token {
        TokenView::Ident { span, .. } => span.end,
        TokenView::Literal { span, .. } => span.end,
        TokenView::Punct { span, .. } => span.end,
        TokenView::Group { close, .. } => close.end,
    }
}

/// `points` with `p`, once.
pub open spec fn with_point(points: Seq<Position>, p: Position) -> Seq<Position> {
    if points.contains(p) {
        points
    } else {
        points.push(p)
    }
}

/// Every place but `p`.
pub open spec fn other_than(p: Position) -> spec_fn(Position) -> bool {
    |q: Position| q != p
}

/// `points` without `p`.
pub open spec fn without_point(points: Seq<Position>, p: Position) -> Seq<Position> {
    points.filter(other_than(p))
}

/// `acc` with the end of every `crate` that directly follows a `$` among
/// the first `n` of `tokens` and in the groups among them, at any depth.
pub open spec fn found(tokens: Seq<TokenView>, n: nat, acc: Seq<Position>) -> Seq<Position>
    decreases tokens, n,
{
    if n == 0 || n > tokens.len() {
        acc
    } else {
        let before = found(tokens, (n - 1) as nat, acc);
        match tokens[n - 1] {
            TokenView::Group { inner, .. } => found(inner, inner.len(), before),
            _ => if n >= 2 && is_mark(tokens[n - 2], '$') && is_root(tokens[n - 1]) {
                with_point(before, end_of(tokens[n - 1]))
            } else {
                before
            },
        }
    }
}

/// Whether the six tokens that end before index `n` read `$crate::name!`:
/// the call of a macro through the root.
pub open spec fn calls_macro(tokens: Seq<TokenView>, n: int) -> bool {
    &&& 6 <= n <= tokens.len()
    &&& is_mark(tokens[n - 6], '$')
    &&& is_root(tokens[n - 5])
    &&& is_mark(tokens[n - 4], ':')
    &&& is_mark(tokens[n - 3], ':')
    &&& tokens[n - 2] is Ident
    &&& is_mark(tokens[n - 1], '!')
}

/// `acc` without the end of every `crate` that, among the first `n` of
/// `tokens` and in the groups among them, leads to the call of a macro.
pub open spec fn cleared(tokens: Seq<TokenView>, n: nat, acc: Seq<Position>) -> Seq<Position>
    decreases tokens, n,
{
    if n == 0 || n > tokens.len() {
        acc
    } else {
        let before = cleared(tokens, (n - 1) as nat, acc);
        match tokens[n - 1] {
            TokenView::Group { inner, .. } => cleared(inner, inner.len(), before),
            _ => if calls_macro(tokens, n as int) {
                without_point(before, end_of(tokens[n - 5]))
            } else {
                before
            },
        }
    }
}

/// Whether the body of `def` is scanned: the macro has a name and is
/// exported, that is, one of its attributes is `macro_export`.
pub open spec fn is_scanned(def: MacroDefView) -> bool {
    def.named && holds_path(def.attrs, "macro_export"@, def.attrs.len())
}

/// The points that want a qualifying name after the first `n` definitions.
pub open spec fn hygiene_points(defs: Seq<MacroDefView>, n: nat) -> Seq<Position>
    decreases n,
{
    if n == 0 || n > defs.len() {
        Seq::empty()
    } else {
        let before = hygiene_points(defs, (n - 1) as nat);
        let body = defs[n - 1].body;
        if is_scanned(defs[n - 1]) {
            cleared(body, body.len(), found(body, body.len(), before))
        } else {
            before
        }
    }
}

/// The edits that insert `text` at each of the first `n` of `points`.
pub open spec fn insertions(points: Seq<Position>, text: Seq<char>, n: nat) -> Seq<EditView>
    decreases n,
{
    if n == 0 || n > points.len() {
        Seq::empty()
    } else {
        registered(
            insertions(points, text, (n - 1) as nat),
            EditView { span: Extent { start: points[n - 1], end: points[n - 1] }, text },
        )
    }
}

fn is_punct(token: &Token, ch: char) -> (r: bool)
    ensures
        r == is_mark(token@, ch),
{
    match token {
        Token::Punct { ch: c, .. } => *c == ch,
        _ => false,
    }
}

fn is_crate(token: &Token) -> (r: bool)
    ensures
        r == is_root(token@),
{
    match token {
        Token::Ident { text, .. } => same_text(text.as_str(), "crate"),
        _ => false,
    }
}

fn token_end(token: &Token) -> (r: Position)
    ensures
        r == end_of(token@),
{
    match token {
        Token::Ident { span, .. } => span.end,
        Token::Literal { span, .. } => span.end,
        Token::Punct { span, .. } => span.end,
        Token::Group { close, .. } => close.end,
    }
}

fn add_point(points: &mut Vec<Position>, p: Position)
    ensures
        final(points)@ == with_point(old(points)@, p),
{
    let mut i: usize = 0;
    while i < points.len()
        invariant
            i <= points.len(),
            points@ == old(points)@,
            forall|j: int| 0 <= j < i ==> points@[j] != p,
        decreases points.len() - i,
    {
        if points[i].is_at(&p) {
            assert(points@.contains(p));
            return ;
        }
        i += 1;
    }
    points.push(p);
}

fn remove_point(points: &mut Vec<Position>, p: Position)
    ensures
        final(points)@ == without_point(old(points)@, p),
{
    let ghost keep = other_than(p);
    let mut out: Vec<Position> = Vec::new();
    let mut i: usize = 0;
    assert(points@.take(0).filter(keep) =~= Seq::<Position>::empty()) by {
        reveal(Seq::filter);
    }
    while i < points.len()
        invariant
            i <= points.len(),
            points@ == old(points)@,
            keep == other_than(p),
            out@ == points@.take(i as int).filter(keep),
        decreases points.len() - i,
    {
        proof {
            reveal(Seq::filter);
            assert(points@.take(i + 1).drop_last() =~= points@.take(i as int));
        }
        if !points[i].is_at(&p) {
            out.push(points[i]);
        }
        i += 1;
    }
    assert(points@.take(i as int) =~= points@);
    *points = out;
}

/// Adds to `acc` the end of every `crate` behind a `$`, at any depth.
fn find_dollar_crates(tokens: &Vec<Token>, acc: &mut Vec<Position>)
    ensures
        final(acc)@ == found(token_views(tokens@), tokens@.len(), old(acc)@),
    decreases tokens,
{
    let ghost views = token_views(tokens@);
    let mut i: usize = 0;
    while i < tokens.len()
        invariant
            i <= tokens.len(),
            views == token_views(tokens@),
            acc@ == found(views, i as nat, old(acc)@),
        decreases tokens.len() - i,
    {
        assert(views[i as int] == tokens@[i as int]@);
        match &tokens[i] {
            Token::Group { inner, .. } => {
                proof {
                    lemma_group_views(tokens@[i as int]);
                    assert(decreases_to!(*tokens => tokens[i as int]));
                    assert(decreases_to!(tokens[i as int] => tokens[i as int]->inner));
                }
                find_dollar_crates(inner, acc);
            },
            _ => {
                if i >= 1 {
                    assert(views[i - 1] == tokens@[i - 1]@);
                    if is_punct(&tokens[i - 1], '$') && is_crate(&tokens[i]) {
                        add_point(acc, token_end(&tokens[i]));
                    }
                }
            },
        }
        i += 1;
    }
}

fn is_macro_call(tokens: &Vec<Token>, n: usize) -> (r: bool)
    requires
        n <= tokens.len(),
    ensures
        r == calls_macro(token_views(tokens@), n as int),
{
    if n < 6 {
        return false;
    }
    let ghost views = token_views(tokens@);
    assert(views[n - 6] == tokens@[n - 6]@);
    assert(views[n - 5] == tokens@[n - 5]@);
    assert(views[n - 4] == tokens@[n - 4]@);
    assert(views[n - 3] == tokens@[n - 3]@);
    assert(views[n - 2] == tokens@[n - 2]@);
    assert(views[n - 1] == tokens@[n - 1]@);
    let named = match &tokens[n - 2] {
        Token::Ident { .. } => true,
        _ => false,
    };
    is_punct(&tokens[n - 6], '$') && is_crate(&tokens[n - 5]) && is_punct(&tokens[n - 4], ':')
        && is_punct(&tokens[n - 3], ':') && named && is_punct(&tokens[n - 1], '!')
}

/// Takes from `acc` the end of every `crate` that leads to the call of a
/// macro, at any depth.
fn exclude_crate_macros(tokens: &Vec<Token>, acc: &mut Vec<Position>)
    ensures
        final(acc)@ == cleared(token_views(tokens@), tokens@.len(), old(acc)@),
    decreases tokens,
{
    let ghost views = token_views(tokens@);
    let mut i: usize = 0;
    while i < tokens.len()
        invariant
            i <= tokens.len(),
            views == token_views(tokens@),
            acc@ == cleared(views, i as nat, old(acc)@),
        decreases tokens.len() - i,
    {
        assert(views[i as int] == tokens@[i as int]@);
        match &tokens[i] {
            Token::Group { inner, .. } => {
                proof {
                    lemma_group_views(tokens@[i as int]);
                    assert(decreases_to!(*tokens => tokens[i as int]));
                    assert(decreases_to!(tokens[i as int] => tokens[i as int]->inner));
                }
                exclude_crate_macros(inner, acc);
            },
            _ => {
                if is_macro_call(tokens, i + 1) {
                    assert(views[i - 4] == tokens@[i - 4]@);
                    remove_point(acc, token_end(&tokens[i - 4]));
                }
            },
        }
        i += 1;
    }
}

/// The points in the bodies of `defs` at which the qualifying name is
/// wanted.
pub fn dollar_crate_points(defs: &Vec<MacroDef>) -> (points: Vec<Position>)
    ensures
        points@ == hygiene_points(def_views(defs@), defs@.len()),
{
    let mut points: Vec<Position> = Vec::new();
    let mut i: usize = 0;
    while i < defs.len()
        invariant
            i <= defs.len(),
            points@ == hygiene_points(def_views(defs@), i as nat),
        decreases defs.len() - i,
    {
        assert(def_views(defs@)[i as int] == defs@[i as int]@);
        if defs[i].named && has_path(&defs[i].attrs, "macro_export") {
            find_dollar_crates(&defs[i].body, &mut points);
            exclude_crate_macros(&defs[i].body, &mut points);
        }
        i += 1;
    }
    points
}

/// The edits that insert `text` at each of `points`.
pub fn insert_at_points(points: &Vec<Position>, text: &str) -> (edits: EditSet)
    ensures
        edits@ == insertions(points@, text@, points@.len()),
{
    let mut edits = EditSet::new();
    let mut i: usize = 0;
    while i < points.len()
        invariant
            i <= points.len(),
            edits@ == insertions(points@, text@, i as nat),
        decreases points.len() - i,
    {
        edits.insert(Extent::point(points[i]), text.to_owned());
        i += 1;
    }
    edits
}

/// `::` and `name`.
pub fn qualifier(name: &str) -> (r: String)
    ensures
        r@ == seq![':', ':'] + name@,
{
    let mut out: Vec<char> = Vec::new();
    out.push(':');
    out.push(':');
    push_str(&mut out, name);
    assert(out@ =~= seq![':', ':'] + name@);
    from_chars(&out)
}

/// `code` with `::` and `extern_crate_name` behind every `$crate` in the
/// bodies of the named, exported macros among `defs` that does not lead to
/// the call of a macro.
pub fn modify_macros(code: &str, defs: &Vec<MacroDef>, extern_crate_name: &str) -> (out: String)
    ensures
        out@ == patched(
            code@,
            insertions(
                hygiene_points(def_views(defs@), defs@.len()),
                seq![':', ':'] + extern_crate_name@,
                hygiene_points(def_views(defs@), defs@.len()).len(),
            ),
        ),
{
    let points = dollar_crate_points(defs);
    let text = qualifier(extern_crate_name);
    let edits = insert_at_points(&points, text.as_str());
    replace_ranges(code, &edits)
}

/// Whether `p` is where a `crate` ends that directly follows a `$`, among
/// the first `n` of `tokens` or in the groups among them, at any depth.
pub open spec fn ends_root(tokens: Seq<TokenView>, n: nat, p: Position) -> bool
    decreases tokens, n,
{
    if n == 0 || n > tokens.len() {
        false
    } else {
        ends_root(tokens, (n - 1) as nat, p) || match tokens[n - 1] {
            TokenView::Group { inner, .. } => ends_root(inner, inner.len(), p),
            _ => n >= 2 && is_mark(tokens[n - 2], '$') && is_root(tokens[n - 1]) && end_of(
                tokens[n - 1],
            ) == p,
        }
    }
}

/// Whether `p` is where a `crate` ends that leads to the call of a macro,
/// `$crate::name!`, among the first `n` of `tokens` or in the groups among
/// them, at any depth.
pub open spec fn ends_call_root(tokens: Seq<TokenView>, n: nat, p: Position) -> bool
    decreases tokens, n,
{
    if n == 0 || n > tokens.len() {
        false
    } else {
        ends_call_root(tokens, (n - 1) as nat, p) || match tokens[n - 1] {
            TokenView::Group { inner, .. } => ends_call_root(inner, inner.len(), p),
            _ => calls_macro(tokens, n as int) && end_of(tokens[n - 5]) == p,
        }
    }
}

proof fn lemma_push_contains(s: Seq<Position>, q: Position, p: Position)
    ensures
        s.push(q).contains(p) <==> s.contains(p) || p == q,
{
    if s.contains(p) {
        let i = choose|i: int| 0 <= i < s.len() && s[i] == p;
        assert(s.push(q)[i] == p);
    }
    if p == q {
        assert(s.push(q)[s.len() as int] == p);
    }
    if s.push(q).contains(p) {
        let i = choose|i: int| 0 <= i < s.push(q).len() && s.push(q)[i] == p;
        if i < s.len() {
            assert(s[i] == p);
        }
    }
}

proof fn lemma_with_point(s: Seq<Position>, q: Position, p: Position)
    ensures
        with_point(s, q).contains(p) <==> s.contains(p) || p == q,
        s.no_duplicates() ==> with_point(s, q).no_duplicates(),
{
    lemma_push_contains(s, q, p);
}

proof fn lemma_without_point(s: Seq<Position>, q: Position, p: Position)
    ensures
        without_point(s, q).contains(p) <==> s.contains(p) && p != q,
    decreases s.len(),
{
    reveal(Seq::filter);
    if s.len() > 0 {
        let rest = s.drop_last();
        lemma_without_point(rest, q, p);
        lemma_push_contains(rest, s.last(), p);
        assert(rest.push(s.last()) =~= s);
        if s.last() != q {
            assert(without_point(s, q) == without_point(rest, q).push(s.last()));
            lemma_push_contains(without_point(rest, q), s.last(), p);
        } else {
            assert(without_point(s, q) == without_point(rest, q));
        }
    }
}

proof fn lemma_without_point_distinct(s: Seq<Position>, q: Position)
    requires
        s.no_duplicates(),
    ensures
        without_point(s, q).no_duplicates(),
    decreases s.len(),
{
    reveal(Seq::filter);
    if s.len() > 0 {
        let rest = s.drop_last();
        assert forall|i: int, j: int| 0 <= i < j < rest.len() implies rest[i] != rest[j] by {
            assert(rest[i] == s[i] && rest[j] == s[j]);
        }
        lemma_without_point_distinct(rest, q);
        if s.last() != q {
            let kept = without_point(rest, q);
            assert(without_point(s, q) == kept.push(s.last()));
            lemma_without_point(rest, q, s.last());
            if rest.contains(s.last()) {
                let i = choose|i: int| 0 <= i < rest.len() && rest[i] == s.last();
                assert(s[i] == s[s.len() - 1]);
            }
            assert(!kept.contains(s.last()));
        } else {
            assert(without_point(s, q) == without_point(rest, q));
        }
    }
}

/// What is found is what was there before and the end of every `crate`
/// behind a `$`; nothing is listed twice.
pub proof fn lemma_found(tokens: Seq<TokenView>, n: nat, acc: Seq<Position>, p: Position)
    ensures
        found(tokens, n, acc).contains(p) <==> acc.contains(p) || ends_root(tokens, n, p),
        acc.no_duplicates() ==> found(tokens, n, acc).no_duplicates(),
    decreases tokens, n,
{
    if n == 0 || n > tokens.len() {
    } else {
        let before = found(tokens, (n - 1) as nat, acc);
        lemma_found(tokens, (n - 1) as nat, acc, p);
        match tokens[n - 1] {
            TokenView::Group { inner, .. } => {
                lemma_found(inner, inner.len(), before, p);
            },
            _ => {
                lemma_with_point(before, end_of(tokens[n - 1]), p);
            },
        }
    }
}

/// What is left is what was there before without the end of every
/// `crate` that leads to the call of a macro; nothing is listed twice.
pub proof fn lemma_cleared(tokens: Seq<TokenView>, n: nat, acc: Seq<Position>, p: Position)
    ensures
        cleared(tokens, n, acc).contains(p) <==> acc.contains(p) && !ends_call_root(tokens, n, p),
        acc.no_duplicates() ==> cleared(tokens, n, acc).no_duplicates(),
    decreases tokens, n,
{
    if n == 0 || n > tokens.len() {
    } else {
        let before = cleared(tokens, (n - 1) as nat, acc);
        lemma_cleared(tokens, (n - 1) as nat, acc, p);
        match tokens[n - 1] {
            TokenView::Group { inner, .. } => {
                lemma_cleared(inner, inner.len(), before, p);
            },
            _ => {
                if calls_macro(tokens, n as int) {
                    lemma_without_point(before, end_of(tokens[n - 5]), p);
                    if before.no_duplicates() {
                        lemma_without_point_distinct(before, end_of(tokens[n - 5]));
                    }
                }
            },
        }
    }
}

/// Whether the qualifying name is wanted at `p` after the first `n`
/// definitions: `p` is where a `$crate` ends in the body of a named,
/// exported macro, and in no such body scanned since does a `$crate` that
/// leads to the call of a macro end there.
pub open spec fn wanted(defs: Seq<MacroDefView>, n: nat, p: Position) -> bool
    decreases n,
{
    if n == 0 || n > defs.len() {
        false
    } else if is_scanned(defs[n - 1]) {
        let body = defs[n - 1].body;
        (wanted(defs, (n - 1) as nat, p) || ends_root(body, body.len(), p)) && !ends_call_root(
            body,
            body.len(),
            p,
        )
    } else {
        wanted(defs, (n - 1) as nat, p)
    }
}

/// The points at which the qualifying name is inserted are exactly the
/// ends of those `$crate` that do not lead to the call of a macro, each
/// of them once.
pub proof fn lemma_hygiene_points(defs: Seq<MacroDefView>, n: nat, p: Position)
    ensures
        hygiene_points(defs, n).contains(p) <==> wanted(defs, n, p),
        hygiene_points(defs, n).no_duplicates(),
    decreases n,
{
    if n == 0 || n > defs.len() {
    } else {
        let before = hygiene_points(defs, (n - 1) as nat);
        lemma_hygiene_points(defs, (n - 1) as nat, p);
        if is_scanned(defs[n - 1]) {
            let body = defs[n - 1].body;
            lemma_found(body, body.len(), before, p);
            lemma_cleared(body, body.len(), found(body, body.len(), before), p);
        }
    }
}

/// The edit that inserts `text` at `at`.
pub open spec fn insertion_at(at: Position, text: Seq<char>) -> EditView {
    EditView { span: Extent { start: at, end: at }, text }
}

proof fn lemma_insert_contains(s: Seq<EditView>, r: int, e: EditView, x: EditView)
    requires
        0 <= r <= s.len(),
    ensures
        s.insert(r, e).contains(x) <==> s.contains(x) || x == e,
{
    let t = s.insert(r, e);
    if s.contains(x) {
        let i = choose|i: int| 0 <= i < s.len() && s[i] == x;
        if i < r {
            assert(t[i] == x);
        } else {
            assert(t[i + 1] == x);
        }
    }
    if x == e {
        assert(t[r] == x);
    }
    if t.contains(x) {
        let i = choose|i: int| 0 <= i < t.len() && t[i] == x;
        if i < r {
            assert(s[i] == x);
        } else if i > r {
            assert(s[i - 1] == x);
        }
    }
}

/// The insertions at the first `n` of `points` are one edit for each of
/// them: an edit is among them just if it inserts `text` at one of those
/// points.
pub proof fn lemma_insertions(points: Seq<Position>, text: Seq<char>, n: nat, x: EditView)
    requires
        n <= points.len(),
    ensures
        insertions(points, text, n).len() == n,
        insertions(points, text, n).contains(x) <==> x == insertion_at(x.span.start, text)
            && points.take(n as int).contains(x.span.start),
    decreases n,
{
    if n > 0 {
        let before = insertions(points, text, (n - 1) as nat);
        let e = insertion_at(points[n - 1], text);
        lemma_insertions(points, text, (n - 1) as nat, x);
        crate::span::lemma_rank_bounds(before, e.span);
        let r = crate::span::rank(before, e.span);
        assert(insertions(points, text, n) == before.insert(r, e));
        lemma_insert_contains(before, r, e, x);
        assert(points.take(n as int) =~= points.take(n - 1).push(points[n - 1]));
        lemma_push_contains(points.take(n - 1), points[n - 1], x.span.start);
    } else {
        assert(points.take(0).len() == 0);
    }
}

/// What [`modify_macros`] does to a text: its edits are the insertions of
/// `::` and the name at the ends of those `$crate` that are wanted, one
/// for each such end and no other edit, so that no character of the text
/// is taken away.
pub proof fn lemma_modify_macros(defs: Seq<MacroDefView>, name: Seq<char>)
    ensures
        ({
            let points = hygiene_points(defs, defs.len());
            let text = seq![':', ':'] + name;
            let edits = insertions(points, text, points.len());
            &&& points.no_duplicates()
            &&& edits.len() == points.len()
            &&& only_inserts(edits)
            &&& forall|x: EditView| #[trigger]
                edits.contains(x) <==> x == insertion_at(x.span.start, text) && wanted(
                    defs,
                    defs.len(),
                    x.span.start,
                )
        }),
{
    let points = hygiene_points(defs, defs.len());
    let text = seq![':', ':'] + name;
    let edits = insertions(points, text, points.len());
    assert(points.take(points.len() as int) =~= points);
    assert forall|x: EditView| #[trigger]
        edits.contains(x) <==> x == insertion_at(x.span.start, text) && wanted(
            defs,
            defs.len(),
            x.span.start,
        ) by {
        lemma_insertions(points, text, points.len(), x);
        lemma_hygiene_points(defs, defs.len(), x.span.start);
    }
    assert forall|i: int| 0 <= i < edits.len() implies (#[trigger] edits[i]).span.is_point() by {
        assert(edits.contains(edits[i]));
    }
    lemma_insertions(points, text, points.len(), insertion_at(Position { line: 0, column: 0 }, text));
    lemma_hygiene_points(defs, defs.len(), Position { line: 0, column: 0 });
}

} // verus!
