//! The module expander: a module declared with a semicolon gets the text
//! of its file as a body in braces.

use crate::attr::{find_string, first_string};
use crate::patcher::{patched, replace_ranges};
use crate::span::{EditSet, EditView, registered};
use crate::text::{
    count_of, first_newline, from_chars, lemma_first_newline_is_first, lines, push_all,
    push_repeat, push_str, split_lines, strip_cr, texts, to_chars,
};
use crate::token::{lemma_group_views, lex, lexed, token_views, Token, TokenView};
use crate::unit::{item_views, Item, ItemKind, ItemKindView, ItemView};
use vstd::prelude::*;

verus! {

/// Whether a literal that reaches over more than one line stands among
/// the first `n` of `tokens` or in the groups among them, at any depth.
pub open spec fn holds_long_literal(tokens: Seq<TokenView>, n: nat) -> bool
    decreases tokens, n,
{
    if n == 0 || n > tokens.len() {
        false
    } else {
        holds_long_literal(tokens, (n - 1) as nat) || match tokens[n - 1] {
            TokenView::Literal { span, .. } => span.start.line != span.end.line,
            TokenView::Group { inner, .. } => holds_long_literal(inner, inner.len()),
            _ => false,
        }
    }
}

/// Whether what the lexer made of a text lets the text be indented
/// without harm: the lexer took it, and no literal reaches over more than
/// one line.
pub open spec fn is_safe(tokens: Option<Seq<TokenView>>) -> bool {
    match tokens {
        Some(tokens) => !holds_long_literal(tokens, tokens.len()),
        None => false,
    }
}

/// Whether a text can be indented without harm: the lexer takes it, and
/// no literal in it reaches over more than one line.
pub open spec fn is_safe_to_indent(code: Seq<char>) -> bool {
    is_safe(lexed(code))
}

/// The white space that `level` levels of indentation take.
pub open spec fn indent_of(level: nat) -> Seq<char> {
    Seq::new(4 * level, |i: int| ' ')
}

/// The first `n` of `lines`, each closed by a line feed, and each but the
/// empty ones indented by `level` levels.
pub open spec fn indented_lines(lines: Seq<Seq<char>>, level: nat, n: nat) -> Seq<char>
    decreases n,
{
    if n == 0 || n > lines.len() {
        Seq::empty()
    } else if lines[n - 1].len() == 0 {
        indented_lines(lines, level, (n - 1) as nat) + seq!['\n']
    } else {
        indented_lines(lines, level, (n - 1) as nat) + indent_of(level) + lines[n - 1] + seq![
            '\n',
        ]
    }
}

/// `code` indented by `level` levels where `safe` holds, and as it is
/// where it does not.
pub open spec fn indented_if(code: Seq<char>, safe: bool, level: nat) -> Seq<char> {
    if safe {
        indented_lines(lines(code), level, lines(code).len())
    } else {
        code
    }
}

/// `code` indented by `level` levels, or as it is where that is not safe.
pub open spec fn indented(code: Seq<char>, level: nat) -> Seq<char> {
    if is_safe_to_indent(code) {
        indented_lines(lines(code), level, lines(code).len())
    } else {
        code
    }
}

fn has_long_literal(tokens: &Vec<Token>) -> (r: bool)
    ensures
        r == holds_long_literal(token_views(tokens@), tokens@.len()),
    decreases tokens,
{
    let ghost views = token_views(tokens@);
    let mut found = false;
    let mut i: usize = 0;
    while i < tokens.len()
        invariant
            i <= tokens.len(),
            views == token_views(tokens@),
            found == holds_long_literal(views, i as nat),
        decreases tokens.len() - i,
    {
        assert(views[i as int] == tokens@[i as int]@);
        match &tokens[i] {
            Token::Literal { span, .. } => {
                if span.start.line != span.end.line {
                    found = true;
                }
            },
            Token::Group { inner, .. } => {
                proof {
                    lemma_group_views(tokens@[i as int]);
                    assert(decreases_to!(*tokens => tokens[i as int]));
                    assert(decreases_to!(tokens[i as int] => tokens[i as int]->inner));
                }
                if has_long_literal(inner) {
                    found = true;
                }
            },
            _ => {},
        }
        i += 1;
    }
    found
}

/// Appends `level` levels of indentation to `out`.
fn push_indent(out: &mut Vec<char>, level: usize)
    ensures
        final(out)@ == old(out)@ + indent_of(level as nat),
{
    let mut i: usize = 0;
    assert(out@ =~= old(out)@ + indent_of(0));
    while i < level
        invariant
            i <= level,
            out@ == old(out)@ + indent_of(i as nat),
        decreases level - i,
    {
        push_repeat(out, ' ', 4);
        assert(out@ =~= old(out)@ + indent_of((i + 1) as nat));
        i += 1;
    }
}

/// `code` with each of its lines but the empty ones moved `n` levels to
/// the right, and each closed by a line feed. A text that the lexer
/// refuses, or in which a literal reaches over more than one line, is
/// handed back as it is.
pub fn indent_code(code: &str, n: usize) -> (out: String)
    ensures
        out@ == indented(code@, n as nat),
{
    let tokens = lex(code);
    let safe = safe_to_indent(&tokens);
    indent_if(code, safe, n)
}

/// The views of the tokens that the lexer gave, if it gave any.
pub open spec fn lexed_views(tokens: Option<Vec<Token>>) -> Option<Seq<TokenView>> {
    match tokens {
        Some(tokens) => Some(token_views(tokens@)),
        None => None,
    }
}

/// Whether `tokens`, what the lexer made of a text, let the text be
/// indented without harm.
pub fn safe_to_indent(tokens: &Option<Vec<Token>>) -> (safe: bool)
    ensures
        safe == is_safe(lexed_views(*tokens)),
{
    match tokens {
        Some(tokens) => !has_long_literal(tokens),
        None => false,
    }
}

/// `code` with each of its lines but the empty ones moved `n` levels to
/// the right, and each closed by a line feed, where `safe` holds; `code`
/// as it is where it does not.
pub fn indent_if(code: &str, safe: bool, n: usize) -> (out: String)
    ensures
        out@ == indented_if(code@, safe, n as nat),
{
    if !safe {
        return code.to_owned();
    }
    let chars = to_chars(code);
    let rows = split_lines(&chars);
    let ghost all = lines(code@);
    let mut out: Vec<char> = Vec::new();
    let mut i: usize = 0;
    while i < rows.len()
        invariant
            i <= rows.len(),
            rows@.len() == all.len(),
            forall|k: int| 0 <= k < rows@.len() ==> (#[trigger] rows@[k])@ == all[k],
            out@ == indented_lines(all, n as nat, i as nat),
        decreases rows.len() - i,
    {
        let ghost before = out@;
        if rows[i].len() > 0 {
            push_indent(&mut out, n);
            push_all(&mut out, &rows[i]);
        }
        out.push('\n');
        assert(out@ =~= indented_lines(all, n as nat, (i + 1) as nat));
        i += 1;
    }
    from_chars(&out)
}

/// The body that takes the place of a module's semicolon: ` {`, a line
/// feed, `content`, `level` levels of indentation and `}`.
pub open spec fn block_of(content: Seq<char>, level: nat) -> Seq<char> {
    seq![' ', '{', '\n'] + content + indent_of(level) + seq!['}']
}

/// The body that takes the place of a module's semicolon.
pub fn module_block(content: &str, level: usize) -> (out: String)
    ensures
        out@ == block_of(content@, level as nat),
{
    let mut out: Vec<char> = Vec::new();
    out.push(' ');
    out.push('{');
    out.push('\n');
    push_str(&mut out, content);
    push_indent(&mut out, level);
    out.push('}');
    assert(out@ =~= block_of(content@, level as nat));
    from_chars(&out)
}

/// Whether an item is a module declared with a semicolon.
pub open spec fn is_out_of_line(item: ItemView) -> bool {
    item.kind matches ItemKindView::Module { inline, .. } && !inline
}

/// How many of the first `n` items are modules declared with a semicolon.
pub open spec fn out_of_line_count(items: Seq<ItemView>, n: nat) -> nat
    decreases n,
{
    if n == 0 || n > items.len() {
        0
    } else if is_out_of_line(items[n - 1]) {
        out_of_line_count(items, (n - 1) as nat) + 1
    } else {
        out_of_line_count(items, (n - 1) as nat)
    }
}

/// The texts of a run of strings.
pub open spec fn body_texts(bodies: Seq<String>) -> Seq<Seq<char>> {
    Seq::new(bodies.len(), |i: int| bodies[i]@)
}

/// The edits that put a body in place of the semicolon of each module
/// declared with one among the first `n` items: the `k`-th such module
/// gets the `k`-th of `bodies`, indented by `level` levels and set in
/// braces.
pub open spec fn expansion_edits(
    items: Seq<ItemView>,
    n: nat,
    bodies: Seq<Seq<char>>,
    level: nat,
) -> Seq<EditView>
    decreases n,
{
    if n == 0 || n > items.len() {
        Seq::empty()
    } else {
        let before = expansion_edits(items, (n - 1) as nat, bodies, level);
        match items[n - 1].kind {
            ItemKindView::Module { inline, semi, .. } => if inline {
                before
            } else {
                registered(
                    before,
                    EditView {
                        span: semi,
                        text: block_of(
                            indented(
                                bodies[out_of_line_count(items, (n - 1) as nat) as int],
                                level,
                            ),
                            level,
                        ),
                    },
                )
            },
            _ => before,
        }
    }
}

proof fn lemma_count_grows(items: Seq<ItemView>, a: nat, b: nat)
    requires
        a <= b <= items.len(),
    ensures
        out_of_line_count(items, a) <= out_of_line_count(items, b),
    decreases b - a,
{
    if a < b {
        lemma_count_grows(items, a, (b - 1) as nat);
    }
}

/// The number of modules that `items` declare with a semicolon.
pub fn count_out_of_line(items: &Vec<Item>) -> (count: usize)
    ensures
        count == out_of_line_count(item_views(items@), items@.len()),
{
    let mut count: usize = 0;
    let mut i: usize = 0;
    while i < items.len()
        invariant
            i <= items.len(),
            count <= i,
            count == out_of_line_count(item_views(items@), i as nat),
        decreases items.len() - i,
    {
        assert(item_views(items@)[i as int] == items@[i as int]@);
        match &items[i].kind {
            ItemKind::Module { inline, .. } => {
                if !*inline {
                    count += 1;
                }
            },
            _ => {},
        }
        i += 1;
    }
    count
}

/// What [`expand_mods`] gives: nothing unless there is one body for each
/// module declared with a semicolon.
pub open spec fn mods_expanded(
    content: Seq<char>,
    items: Seq<ItemView>,
    bodies: Seq<Seq<char>>,
    level: nat,
) -> Option<Seq<char>> {
    if bodies.len() == out_of_line_count(items, items.len()) {
        Some(patched(content, expansion_edits(items, items.len(), bodies, level)))
    } else {
        None
    }
}

/// The text of a unit with each module that is declared with a semicolon
/// given a body: `bodies` holds, for each such module in turn, the text of
/// its file, expanded already; `level` says how deep those bodies nest, 1
/// for the modules of the unit's root.
pub fn expand_mods(content: &str, items: &Vec<Item>, bodies: &Vec<String>, level: usize) -> (r:
    Option<String>)
    ensures
        match (r, mods_expanded(content@, item_views(items@), body_texts(bodies@), level as nat)) {
            (Some(text), Some(expected)) => text@ == expected,
            (None, None) => true,
            _ => false,
        },
{
    if count_out_of_line(items) != bodies.len() {
        return None;
    }
    let ghost views = item_views(items@);
    let mut edits = EditSet::new();
    let mut next: usize = 0;
    let mut i: usize = 0;
    while i < items.len()
        invariant
            i <= items.len(),
            views == item_views(items@),
            bodies@.len() == out_of_line_count(views, items@.len()),
            next <= i,
            next == out_of_line_count(views, i as nat),
            edits@ == expansion_edits(views, i as nat, body_texts(bodies@), level as nat),
        decreases items.len() - i,
    {
        assert(views[i as int] == items@[i as int]@);
        match &items[i].kind {
            ItemKind::Module { inline, semi, .. } => {
                if !*inline {
                    proof {
                        lemma_count_grows(views, (i + 1) as nat, items@.len());
                    }
                    assert(body_texts(bodies@)[next as int] == bodies@[next as int]@);
                    let body = indent_code(bodies[next].as_str(), level);
                    let block = module_block(body.as_str(), level);
                    edits.insert(*semi, block);
                    next += 1;
                }
            },
            _ => {},
        }
        i += 1;
    }
    Some(replace_ranges(content, &edits))
}

/// Where the file of a module is looked for.
#[derive(Clone, Copy, Debug, PartialEq, Eq, Structural)]
pub enum Lookup {
    /// At the path that the declaration names, taken from the directory of
    /// the declaring file.
    Named,
    /// Beside the declaring file.
    Beside,
    /// Beside the declaring file once its extension is cut off.
    BesideStem,
}

/// The rule by which the file of a module is looked for. A path named on
/// the declaration wins. Else the file is looked for beside the declaring
/// file if that is the root of the unit or an entry file of a directory,
/// and beside its stem otherwise.
pub open spec fn lookup_rule(named: bool, depth: nat, entry_file: bool) -> Lookup {
    if named {
        Lookup::Named
    } else if depth == 0 || entry_file {
        Lookup::Beside
    } else {
        Lookup::BesideStem
    }
}

/// The rule that applies to a module declared in a file at nesting depth
/// `depth`; `entry_file` says whether that file is named `mod.rs`.
pub fn lookup_for(named: bool, depth: usize, entry_file: bool) -> (rule: Lookup)
    ensures
        rule == lookup_rule(named, depth as nat, entry_file),
{
    if named {
        Lookup::Named
    } else if depth == 0 || entry_file {
        Lookup::Beside
    } else {
        Lookup::BesideStem
    }
}

/// What `std::path::Path::with_file_name` makes of `path` and `name` on
/// the platform that the library is built for: `path` with its last
/// component replaced by `name`.
pub uninterp spec fn path_with_file_name(path: Seq<char>, name: Seq<char>) -> Seq<char>;

/// What `std::path::Path::with_extension` makes of `path` and `extension`
/// on the platform that the library is built for: `path` with the
/// extension of its last component replaced by `extension`.
pub uninterp spec fn path_with_extension(path: Seq<char>, extension: Seq<char>) -> Seq<char>;

/// What `std::path::Path::join` makes of `path` and `tail` on the platform
/// that the library is built for: `path` extended by `tail`.
pub uninterp spec fn path_joined(path: Seq<char>, tail: Seq<char>) -> Seq<char>;

/// What `std::path::Path::file_name` gives for `path` on the platform that
/// the library is built for: its last component, if it has one.
pub uninterp spec fn path_file_name(path: Seq<char>) -> Option<Seq<char>>;

/// Whether a text holds no character that separates the components of a
/// path on some platform: neither `/` nor `\`.
pub open spec fn holds_no_separator(text: Seq<char>) -> bool {
    forall|i: int| 0 <= i < text.len() ==> text[i] != '/' && text[i] != '\\'
}

/// `std::path::Path::with_file_name`: `path` with its last component
/// replaced by `name`.
#[verifier::external_body]
fn with_file_name(path: &str, name: &str) -> (r: String)
    ensures
        r@ == path_with_file_name(path@, name@),
{
    std::path::Path::new(path).with_file_name(name).to_string_lossy().into_owned()
}

/// `std::path::Path::with_extension`: `path` with the extension of its
/// last component replaced by `extension`. It panics on an extension that
/// holds a path separator.
#[verifier::external_body]
fn with_extension(path: &str, extension: &str) -> (r: String)
    requires
        holds_no_separator(extension@),
    ensures
        r@ == path_with_extension(path@, extension@),
{
    std::path::Path::new(path).with_extension(extension).to_string_lossy().into_owned()
}

/// `std::path::Path::join`: `path` extended by `tail`.
#[verifier::external_body]
fn join_path(path: &str, tail: &str) -> (r: String)
    ensures
        r@ == path_joined(path@, tail@),
{
    std::path::Path::new(path).join(tail).to_string_lossy().into_owned()
}

/// `std::path::Path::file_name`: the last component of `path`, if it has
/// one.
#[verifier::external_body]
fn file_name(path: &str) -> (r: Option<String>)
    ensures
        match r {
            Some(name) => path_file_name(path@) == Some(name@),
            None => path_file_name(path@) is None,
        },
{
    std::path::Path::new(path).file_name().map(|name| name.to_string_lossy().into_owned())
}

/// Whether the last component of `path` is `mod.rs`.
fn is_entry_file(path: &str) -> (r: bool)
    ensures
        r == is_entry_name(path_file_name(path@)),
{
    let name = file_name(path);
    names_entry_file(&name)
}

/// Whether a file of the name `name` is the entry file of a directory:
/// there is a name, and it is `mod.rs`.
pub open spec fn is_entry_name(name: Option<Seq<char>>) -> bool {
    name == Some("mod.rs"@)
}

/// Whether `name`, the last component of a path if it has one, names the
/// entry file of a directory.
pub fn names_entry_file(name: &Option<String>) -> (r: bool)
    ensures
        r == is_entry_name(
            match name {
                Some(text) => Some(text@),
                None => None,
            },
        ),
{
    match name {
        Some(text) => crate::text::same_text(text.as_str(), "mod.rs"),
        None => false,
    }
}

/// The files in which the module `name` is looked for, first choice
/// first. `src_path` is the file that declares the module, at nesting
/// depth `depth`. Where the declaration names a path, the one file is that
/// path, taken from the directory of the declaring file. Otherwise the
/// files are `name.rs` and then `name/mod.rs`, beside the declaring file
/// where that is the root of the unit or an entry file, and beside its
/// stem, the file without its extension, where it is not.
pub open spec fn candidates(
    src_path: Seq<char>,
    depth: nat,
    named: Option<Seq<char>>,
    name: Seq<char>,
) -> Seq<Seq<char>> {
    match named {
        Some(path) => seq![path_joined(path_with_file_name(src_path, Seq::empty()), path)],
        None => {
            let base = if lookup_rule(false, depth, is_entry_name(path_file_name(src_path)))
                == Lookup::BesideStem {
                path_with_extension(src_path, Seq::empty())
            } else {
                src_path
            };
            let beside = path_with_file_name(base, name);
            seq![path_with_extension(beside, "rs"@), path_joined(beside, "mod.rs"@)]
        },
    }
}

/// The text of a string that may be missing.
pub open spec fn name_view(name: Option<&str>) -> Option<Seq<char>> {
    match name {
        Some(text) => Some(text@),
        None => None,
    }
}

/// The files in which the module `name` is looked for, first choice
/// first: one file where the declaration names a path, else `name.rs` and
/// `name/mod.rs` in the place that the rule gives. `src_path` is the file
/// that declares the module, at nesting depth `depth`.
pub fn module_candidates(src_path: &str, depth: usize, named: Option<&str>, name: &str) -> (r:
    Vec<String>)
    ensures
        texts(r@) == candidates(src_path@, depth as nat, name_view(named), name@),
{
    proof {
        reveal_strlit("");
        reveal_strlit("rs");
        assert(""@ =~= Seq::<char>::empty());
        assert(holds_no_separator(""@));
        assert(holds_no_separator("rs"@));
    }
    let mut r: Vec<String> = Vec::new();
    match named {
        Some(path) => {
            let dir = with_file_name(src_path, "");
            r.push(join_path(dir.as_str(), path));
            assert(texts(r@) =~= candidates(src_path@, depth as nat, name_view(named), name@));
        },
        None => {
            let base = match lookup_for(false, depth, is_entry_file(src_path)) {
                Lookup::BesideStem => with_extension(src_path, ""),
                _ => src_path.to_owned(),
            };
            let beside = with_file_name(base.as_str(), name);
            r.push(with_extension(beside.as_str(), "rs"));
            r.push(join_path(beside.as_str(), "mod.rs"));
            assert(texts(r@) =~= candidates(src_path@, depth as nat, name_view(named), name@));
        },
    }
    r
}

/// The index of the first `true` in `exists` from index `from` on, if
/// there is one.
pub open spec fn first_true(exists: Seq<bool>, from: int) -> Option<int>
    decreases exists.len() - from,
{
    if from < 0 || from >= exists.len() {
        None
    } else if exists[from] {
        Some(from)
    } else {
        first_true(exists, from + 1)
    }
}

/// Which of the files that a module is looked for in is taken: the first
/// that exists. `exists` says of each candidate in turn whether it does;
/// nothing is taken where none exists.
pub fn first_existing(exists: &Vec<bool>) -> (r: Option<usize>)
    ensures
        match r {
            Some(at) => first_true(exists@, 0) == Some(at as int) && at < exists@.len()
                && exists@[at as int] && forall|i: int| 0 <= i < at ==> !exists@[i],
            None => first_true(exists@, 0) is None && forall|i: int|
                0 <= i < exists@.len() ==> !exists@[i],
        },
{
    let mut i: usize = 0;
    while i < exists.len()
        invariant
            i <= exists.len(),
            first_true(exists@, 0) == first_true(exists@, i as int),
            forall|j: int| 0 <= j < i ==> !exists@[j],
        decreases exists.len() - i,
    {
        if exists[i] {
            return Some(i);
        }
        i += 1;
    }
    None
}

proof fn lemma_count_add(a: Seq<char>, b: Seq<char>, c: char)
    ensures
        count_of(a + b, c) == count_of(a, c) + count_of(b, c),
    decreases b.len(),
{
    if b.len() == 0 {
        assert(a + b =~= a);
    } else {
        assert((a + b).drop_last() =~= a + b.drop_last());
        lemma_count_add(a, b.drop_last(), c);
    }
}

proof fn lemma_count_indent(level: nat, c: char)
    requires
        c != ' ',
    ensures
        count_of(indent_of(level), c) == 0,
    decreases level,
{
    if level > 0 {
        let rest = indent_of((level - 1) as nat);
        let four = seq![' ', ' ', ' ', ' '];
        assert(indent_of(level) =~= rest + four);
        lemma_count_indent((level - 1) as nat, c);
        lemma_count_add(rest, four, c);
        reveal_with_fuel(count_of, 5);
        assert(count_of(four, c) == 0);
    }
}

/// The body of a module is one block: it holds one opening brace and one
/// closing brace more than the content it encloses, so that it is
/// balanced wherever the content is.
pub proof fn lemma_block_is_one_block(content: Seq<char>, level: nat)
    ensures
        count_of(block_of(content, level), '{') == count_of(content, '{') + 1,
        count_of(block_of(content, level), '}') == count_of(content, '}') + 1,
{
    let head = seq![' ', '{', '\n'];
    let tail = seq!['}'];
    reveal_with_fuel(count_of, 4);
    assert(count_of(head, '{') == 1 && count_of(head, '}') == 0);
    assert(count_of(tail, '{') == 0 && count_of(tail, '}') == 1);
    lemma_count_indent(level, '{');
    lemma_count_indent(level, '}');
    lemma_count_add(head, content, '{');
    lemma_count_add(head + content, indent_of(level), '{');
    lemma_count_add(head + content + indent_of(level), tail, '{');
    lemma_count_add(head, content, '}');
    lemma_count_add(head + content, indent_of(level), '}');
    lemma_count_add(head + content + indent_of(level), tail, '}');
}

/// How often `c` stands in the lines `all`.
pub open spec fn count_in_lines(all: Seq<Seq<char>>, c: char) -> nat
    decreases all.len(),
{
    if all.len() == 0 {
        0
    } else {
        count_in_lines(all.drop_last(), c) + count_of(all.last(), c)
    }
}

proof fn lemma_count_in_lines_add(a: Seq<Seq<char>>, b: Seq<Seq<char>>, c: char)
    ensures
        count_in_lines(a + b, c) == count_in_lines(a, c) + count_in_lines(b, c),
    decreases b.len(),
{
    if b.len() == 0 {
        assert(a + b =~= a);
    } else {
        assert((a + b).drop_last() =~= a + b.drop_last());
        lemma_count_in_lines_add(a, b.drop_last(), c);
    }
}

proof fn lemma_count_one(c: char, d: char)
    ensures
        count_of(seq![d], c) == if c == d {
            1nat
        } else {
            0nat
        },
{
    reveal_with_fuel(count_of, 2);
    assert(seq![d].drop_last() =~= Seq::<char>::empty());
}

proof fn lemma_count_strip_cr(line: Seq<char>, c: char)
    requires
        c != '\r',
    ensures
        count_of(strip_cr(line), c) == count_of(line, c),
{
}

/// A character that is neither a line feed nor a carriage return stands
/// in a text as often as in its lines.
proof fn lemma_count_lines(code: Seq<char>, c: char)
    requires
        c != '\n',
        c != '\r',
    ensures
        count_in_lines(lines(code), c) == count_of(code, c),
    decreases code.len(),
{
    if code.len() > 0 {
        lemma_first_newline_is_first(code);
        let k = first_newline(code);
        if k < code.len() {
            let head = code.take(k);
            let rest = code.skip(k + 1);
            lemma_count_lines(rest, c);
            lemma_count_strip_cr(head, c);
            lemma_count_in_lines_add(seq![strip_cr(head)], lines(rest), c);
            assert(seq![strip_cr(head)].drop_last() =~= Seq::<Seq<char>>::empty());
            assert(count_in_lines(seq![strip_cr(head)], c) == count_of(head, c)) by {
                reveal_with_fuel(count_in_lines, 2);
            }
            assert(code =~= head + seq!['\n'] + rest);
            lemma_count_add(head, seq!['\n'], c);
            lemma_count_one(c, '\n');
            lemma_count_add(head + seq!['\n'], rest, c);
        } else {
            assert(seq![code].drop_last() =~= Seq::<Seq<char>>::empty());
            assert(count_in_lines(seq![code], c) == count_of(code, c)) by {
                reveal_with_fuel(count_in_lines, 2);
            }
        }
    }
}

proof fn lemma_count_indented_lines(all: Seq<Seq<char>>, level: nat, n: nat, c: char)
    requires
        n <= all.len(),
        c != '\n',
        c != ' ',
    ensures
        count_of(indented_lines(all, level, n), c) == count_in_lines(all.take(n as int), c),
    decreases n,
{
    if n > 0 {
        let before = indented_lines(all, level, (n - 1) as nat);
        lemma_count_indented_lines(all, level, (n - 1) as nat, c);
        assert(all.take(n as int).drop_last() =~= all.take(n - 1));
        lemma_count_one(c, '\n');
        if all[n - 1].len() == 0 {
            lemma_count_add(before, seq!['\n'], c);
        } else {
            lemma_count_indent(level, c);
            lemma_count_add(before, indent_of(level), c);
            lemma_count_add(before + indent_of(level), all[n - 1], c);
            lemma_count_add(before + indent_of(level) + all[n - 1], seq!['\n'], c);
        }
    } else {
        assert(all.take(0) =~= Seq::<Seq<char>>::empty());
    }
}

/// Indentation changes no brace: a character that is neither white space
/// nor a line ending stands in the indented text as often as in the text.
pub proof fn lemma_indentation_keeps(code: Seq<char>, safe: bool, level: nat, c: char)
    requires
        c != '\n',
        c != '\r',
        c != ' ',
    ensures
        count_of(indented_if(code, safe, level), c) == count_of(code, c),
        count_of(indented(code, level), c) == count_of(code, c),
{
    let all = lines(code);
    lemma_count_lines(code, c);
    lemma_count_indented_lines(all, level, all.len(), c);
    assert(all.take(all.len() as int) =~= all);
}

/// A module that is given its body is one balanced block: what takes the
/// place of its semicolon holds the braces of the file's text and one
/// pair more, the pair that encloses the text. Where the braces of the
/// text are balanced, so are those of the block, one level deeper.
pub proof fn lemma_module_is_one_block(body: Seq<char>, level: nat)
    ensures
        count_of(block_of(indented(body, level), level), '{') == count_of(body, '{') + 1,
        count_of(block_of(indented(body, level), level), '}') == count_of(body, '}') + 1,
{
    lemma_indentation_keeps(body, true, level, '{');
    lemma_indentation_keeps(body, true, level, '}');
    lemma_block_is_one_block(indented(body, level), level);
}

/// A unit that declares one module with a semicolon, and nothing else,
/// is changed in one place: the semicolon gives way to the block that
/// holds the text of the module's file, and no declaration with a
/// semicolon is left.
pub proof fn lemma_one_module_expanded(
    content: Seq<char>,
    item: ItemView,
    body: Seq<char>,
    level: nat,
)
    requires
        is_out_of_line(item),
    ensures
        mods_expanded(content, seq![item], seq![body], level) == Some(
            patched(
                content,
                seq![
                    EditView {
                        span: item.kind->Module_semi,
                        text: block_of(indented(body, level), level),
                    },
                ],
            ),
        ),
{
    let items = seq![item];
    let bodies = seq![body];
    reveal_with_fuel(out_of_line_count, 2);
    reveal_with_fuel(expansion_edits, 2);
    assert(out_of_line_count(items, 1) == 1);
    let e = EditView { span: item.kind->Module_semi, text: block_of(indented(body, level), level) };
    assert(expansion_edits(items, 0, bodies, level) =~= Seq::<EditView>::empty());
    assert(crate::span::rank(Seq::<EditView>::empty(), e.span) == 0);
    assert(registered(Seq::<EditView>::empty(), e) =~= seq![e]);
}

/// The files in which the module that `item` declares is looked for;
/// nothing where `item` is no module declared with a semicolon. A `path`
/// attribute on the declaration names the file.
pub fn candidates_for(src_path: &str, depth: usize, item: &Item) -> (r: Option<Vec<String>>)
    ensures
        match r {
            Some(files) => item@.kind matches ItemKindView::Module { name, inline, .. } && !inline
                && texts(files@) == candidates(
                src_path@,
                depth as nat,
                first_string(item@.attrs, "path"@, 0),
                name,
            ),
            None => !is_out_of_line(item@),
        },
{
    match &item.kind {
        ItemKind::Module { name, inline, .. } => {
            if *inline {
                None
            } else {
                let named = match find_string(&item.attrs, "path") {
                    Some(path) => Some(path.as_str()),
                    None => None,
                };
                Some(module_candidates(src_path, depth, named, name.as_str()))
            }
        },
        _ => None,
    }
}

} // verus!
