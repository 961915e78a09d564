//! The text eraser: blanks documentation or comments and keeps every line
//! as long as it was.

use crate::attr::{attr_is_doc, attr_views, is_doc, Attr, AttrView};
use crate::span::Extent;
use crate::text::{
    first_newline, from_chars, is_one_line, leading_white, leading_white_len,
    lemma_first_newline, lemma_lines_append, lemma_lines_hold_no_newline, lemma_lines_of_one,
    lines, slice_chars, split_lines, starts_with_hash_bang, strip_cr, to_chars,
};
use crate::token::{lemma_group_views, lex, lexed, token_views, Token, TokenView};
use fixedbitset::FixedBitSet;
use vstd::prelude::*;

verus! {

/// `fixedbitset::FixedBitSet`: a row of bits of a fixed length.
#[verifier::external_type_specification]
#[verifier::external_body]
pub struct ExFixedBitSet(FixedBitSet);

/// The bits that a `FixedBitSet` holds, from bit 0 on; as many as its
/// length says.
pub uninterp spec fn bits(set: FixedBitSet) -> Seq<bool>;

/// `row` with the bits from `from` up to `to` set to `on`.
pub open spec fn with_bits(row: Seq<bool>, from: int, to: int, on: bool) -> Seq<bool> {
    Seq::new(row.len(), |j: int| if from <= j < to { on } else { row[j] })
}

/// `FixedBitSet::with_capacity`: a set of `n` bits, all of them off.
#[verifier::external_body]
fn new_row(n: usize) -> (row: FixedBitSet)
    ensures
        bits(row) == Seq::new(n as nat, |j: int| false),
{
    FixedBitSet::with_capacity(n)
}

/// `FixedBitSet::set_range` with the range from `from` up to `to`: those
/// bits become `on`, the others stay. It panics on a range that ends
/// behind the set or before its own start.
#[verifier::external_body]
fn set_bits(row: &mut FixedBitSet, from: usize, to: usize, on: bool)
    requires
        from <= to <= bits(*old(row)).len(),
    ensures
        bits(*final(row)) == with_bits(bits(*old(row)), from as int, to as int, on),
{
    row.set_range(from..to, on)
}

/// `FixedBitSet::contains`: whether bit `j` is on; a bit behind the end
/// of the set is off.
#[verifier::external_body]
pub(crate) fn bit(row: &FixedBitSet, j: usize) -> (on: bool)
    ensures
        on == (j < bits(*row).len() && bits(*row)[j as int]),
{
    row.contains(j)
}

/// `FixedBitSet::len`: the number of bits.
#[verifier::external_body]
fn row_len(row: &FixedBitSet) -> (n: usize)
    ensures
        n == bits(*row).len(),
{
    row.len()
}

/// The bits of each row.
pub open spec fn rows(mask: Seq<FixedBitSet>) -> Seq<Seq<bool>> {
    Seq::new(mask.len(), |i: int| bits(mask[i]))
}

fn set_row(mask: &mut Vec<FixedBitSet>, i: usize, from: usize, to: usize, on: bool)
    requires
        i < old(mask)@.len(),
        from <= to <= rows(old(mask)@)[i as int].len(),
    ensures
        rows(final(mask)@) == rows(old(mask)@).update(
            i as int,
            with_bits(rows(old(mask)@)[i as int], from as int, to as int, on),
        ),
{
    set_bits(&mut mask[i], from, to, on);
    assert(rows(mask@) =~= rows(old(mask)@).update(
        i as int,
        with_bits(rows(old(mask)@)[i as int], from as int, to as int, on),
    ));
}

/// Whether `span` lies within the lines that `mask` has a row for.
pub open spec fn fits(mask: Seq<Seq<bool>>, span: Extent) -> bool {
    &&& 1 <= span.start.line <= span.end.line <= mask.len()
    &&& span.start.column <= mask[span.start.line - 1].len()
    &&& span.end.column <= mask[span.end.line - 1].len()
    &&& span.start.line == span.end.line ==> span.start.column <= span.end.column
}

/// The first column of line `line` that `span` covers.
pub open spec fn first_column(span: Extent, line: int) -> int {
    if line == span.start.line {
        span.start.column as int
    } else {
        0
    }
}

/// The column of line `line` behind the last one that `span` covers, in a
/// line with `len` columns.
pub open spec fn end_column(span: Extent, line: int, len: int) -> int {
    if line == span.end.line {
        span.end.column as int
    } else {
        len
    }
}

/// Row `i` of `mask` once the bits that `span` covers are set to `on`.
pub open spec fn marked_row(mask: Seq<Seq<bool>>, span: Extent, on: bool, i: int) -> Seq<bool> {
    if span.start.line <= i + 1 <= span.end.line {
        with_bits(
            mask[i],
            first_column(span, i + 1),
            end_column(span, i + 1, mask[i].len() as int),
            on,
        )
    } else {
        mask[i]
    }
}

/// `mask` with the first `n` rows as [`marked_row`] gives them.
pub open spec fn marked_upto(mask: Seq<Seq<bool>>, span: Extent, on: bool, n: int) -> Seq<
    Seq<bool>,
> {
    Seq::new(mask.len(), |i: int| if i < n { marked_row(mask, span, on, i) } else { mask[i] })
}

/// `mask` with every bit that `span` covers set to `on`: on each line of
/// the span, the columns from its start, or from the start of the line, up
/// to its end, or to the end of the line.
pub open spec fn marked(mask: Seq<Seq<bool>>, span: Extent, on: bool) -> Seq<Seq<bool>> {
    marked_upto(mask, span, on, mask.len() as int)
}

/// [`marked`], if there is a mask and `span` fits it.
pub open spec fn try_marked(mask: Option<Seq<Seq<bool>>>, span: Extent, on: bool) -> Option<
    Seq<Seq<bool>>,
> {
    match mask {
        Some(m) => if fits(m, span) {
            Some(marked(m, span, on))
        } else {
            None
        },
        None => None,
    }
}

/// Marking keeps the number of rows and the length of each.
pub proof fn lemma_marked_shape(mask: Seq<Seq<bool>>, span: Extent, on: bool)
    ensures
        marked(mask, span, on).len() == mask.len(),
        forall|i: int|
            0 <= i < mask.len() ==> (#[trigger] marked(mask, span, on)[i]).len() == mask[i].len(),
{
}

/// Sets every bit that `span` covers to `on`; `false` where `span` does
/// not fit the mask.
pub(crate) fn set_span(mask: &mut Vec<FixedBitSet>, span: Extent, on: bool) -> (ok: bool)
    ensures
        ok == fits(rows(old(mask)@), span),
        ok ==> rows(final(mask)@) == marked(rows(old(mask)@), span, on),
        !ok ==> rows(final(mask)@) == rows(old(mask)@),
{
    let ghost before = rows(mask@);
    let n = mask.len();
    if span.start.line < 1 || span.start.line > span.end.line || span.end.line > n {
        return false;
    }
    let first = span.start.line - 1;
    let last = span.end.line - 1;
    assert(before[first as int] == bits(mask@[first as int]));
    assert(before[last as int] == bits(mask@[last as int]));
    let first_len = row_len(&mask[first]);
    let last_len = row_len(&mask[last]);
    if span.start.column > first_len || span.end.column > last_len || (first == last
        && span.start.column > span.end.column) {
        return false;
    }
    assert(rows(mask@) =~= marked_upto(before, span, on, first as int));
    let mut i: usize = first;
    while i <= last
        invariant
            first <= i <= last + 1,
            last < n,
            n == mask.len(),
            n == before.len(),
            fits(before, span),
            first == span.start.line - 1,
            last == span.end.line - 1,
            rows(mask@) == marked_upto(before, span, on, i as int),
        decreases last + 1 - i,
    {
        assert(rows(mask@)[i as int] == bits(mask@[i as int]));
        let len = row_len(&mask[i]);
        let from = if i == first {
            span.start.column
        } else {
            0
        };
        let to = if i == last {
            span.end.column
        } else {
            len
        };
        set_row(mask, i, from, to, on);
        assert(rows(mask@) =~= marked_upto(before, span, on, i + 1));
        i += 1;
    }
    assert(rows(mask@) =~= marked(before, span, on));
    true
}

/// A mask for `lines` with every bit set to `on`.
pub open spec fn full_mask(lines: Seq<Seq<char>>, on: bool) -> Seq<Seq<bool>> {
    Seq::new(lines.len(), |i: int| Seq::new(lines[i].len(), |j: int| on))
}

pub(crate) fn new_mask(lines: &Vec<Vec<char>>, on: bool) -> (mask: Vec<FixedBitSet>)
    ensures
        mask@.len() == lines@.len(),
        rows(mask@) == full_mask(line_texts(lines@), on),
{
    let mut mask: Vec<FixedBitSet> = Vec::new();
    let mut i: usize = 0;
    while i < lines.len()
        invariant
            i <= lines.len(),
            mask@.len() == i,
            forall|k: int|
                0 <= k < i ==> bits(#[trigger] mask@[k]) == Seq::new(
                    lines@[k]@.len(),
                    |j: int| on,
                ),
        decreases lines.len() - i,
    {
        let len = lines[i].len();
        let mut row = new_row(len);
        if on {
            set_bits(&mut row, 0, len, true);
        }
        assert(bits(row) =~= Seq::new(len as nat, |j: int| on));
        mask.push(row);
        i += 1;
    }
    assert(rows(mask@) =~= full_mask(line_texts(lines@), on));
    mask
}

/// The characters of each line.
pub open spec fn line_texts(lines: Seq<Vec<char>>) -> Seq<Seq<char>> {
    Seq::new(lines.len(), |i: int| lines[i]@)
}

/// `line` with a space in place of every character whose bit is on.
pub open spec fn blanked(line: Seq<char>, row: Seq<bool>) -> Seq<char> {
    Seq::new(line.len(), |j: int| if j < row.len() && row[j] { ' ' } else { line[j] })
}

/// The first `n` of `lines`, each blanked by its row of `mask` and closed
/// by a line feed.
pub open spec fn blanked_text(lines: Seq<Seq<char>>, mask: Seq<Seq<bool>>, n: nat) -> Seq<char>
    decreases n,
{
    if n == 0 || n > lines.len() {
        Seq::empty()
    } else {
        blanked_text(lines, mask, (n - 1) as nat) + blanked(lines[n - 1], mask[n - 1]) + seq!['\n']
    }
}

/// The text that is left of `lines` under `mask`: each line blanked and
/// closed by a line feed. It has as many lines as there were, and each is
/// as long as it was.
pub open spec fn erased(lines: Seq<Seq<char>>, mask: Seq<Seq<bool>>) -> Seq<char> {
    blanked_text(lines, mask, lines.len())
}

fn write_erased(lines: &Vec<Vec<char>>, mask: &Vec<FixedBitSet>) -> (out: String)
    requires
        mask@.len() == lines@.len(),
    ensures
        out@ == erased(line_texts(lines@), rows(mask@)),
{
    let ghost texts = line_texts(lines@);
    let ghost m = rows(mask@);
    let mut acc: Vec<char> = Vec::new();
    let mut i: usize = 0;
    while i < lines.len()
        invariant
            i <= lines.len(),
            mask@.len() == lines@.len(),
            texts == line_texts(lines@),
            m == rows(mask@),
            acc@ == blanked_text(texts, m, i as nat),
        decreases lines.len() - i,
    {
        let line = &lines[i];
        let row = &mask[i];
        let ghost start = acc@;
        assert(texts[i as int] == line@);
        assert(m[i as int] == bits(*row));
        let mut j: usize = 0;
        while j < line.len()
            invariant
                j <= line.len(),
                acc@ == start + blanked(line@, bits(*row)).take(j as int),
            decreases line.len() - j,
        {
            let c = if bit(row, j) {
                ' '
            } else {
                line[j]
            };
            acc.push(c);
            assert(acc@ =~= start + blanked(line@, bits(*row)).take(j + 1));
            j += 1;
        }
        acc.push('\n');
        assert(acc@ =~= start + blanked(line@, bits(*row)) + seq!['\n']) by {
            assert(blanked(line@, bits(*row)).take(j as int) =~= blanked(line@, bits(*row)));
        }
        i += 1;
    }
    from_chars(&acc)
}

/// Whether `[` is what follows the first two characters of `code` once
/// white space is passed over.
pub open spec fn attribute_follows(code: Seq<char>) -> bool {
    let at = 2 + leading_white(code.skip(2));
    at < code.len() && code[at] == '['
}

/// Whether `code` begins with a line for an interpreter: with `#!`, and
/// not with `#![`, which begins an attribute of the unit, white space
/// between `#!` and `[` or not.
pub open spec fn has_interpreter_line(code: Seq<char>) -> bool {
    starts_with_hash_bang(code) && !attribute_follows(code)
}

/// Whether `chars` begin with a line for an interpreter.
pub fn begins_with_interpreter_line(chars: &Vec<char>) -> (r: bool)
    ensures
        r == has_interpreter_line(chars@),
{
    if !(chars.len() >= 2 && chars[0] == '#' && chars[1] == '!') {
        return false;
    }
    let rest = slice_chars(chars, 2, chars.len());
    assert(rest@ =~= chars@.skip(2));
    let k = leading_white_len(&rest);
    proof {
        crate::text::lemma_leading_white_bounds(rest@);
    }
    !(k < rest.len() && rest[k] == '[')
}

/// `code` without its first line where that is a line for an interpreter;
/// the line feed that ended the line stays.
pub open spec fn without_interpreter_line(code: Seq<char>) -> Seq<char> {
    if has_interpreter_line(code) {
        code.skip(first_newline(code))
    } else {
        code
    }
}

fn strip_interpreter_line(chars: &Vec<char>) -> (out: Vec<char>)
    ensures
        out@ == without_interpreter_line(chars@),
{
    if begins_with_interpreter_line(chars) {
        let mut k: usize = 0;
        while k < chars.len() && chars[k] != '\n'
            invariant
                k <= chars.len(),
                forall|i: int| 0 <= i < k ==> chars@[i] != '\n',
            decreases chars.len() - k,
        {
            k += 1;
        }
        proof {
            lemma_first_newline(chars@, k as int);
        }
        let out = slice_chars(chars, k, chars.len());
        assert(out@ =~= chars@.skip(k as int));
        out
    } else {
        let out = slice_chars(chars, 0, chars.len());
        assert(out@ =~= chars@);
        out
    }
}

/// `code` without its first line where that is a line for an interpreter.
pub fn drop_interpreter_line(code: &str) -> (out: String)
    ensures
        out@ == without_interpreter_line(code@),
{
    let chars = to_chars(code);
    let text = strip_interpreter_line(&chars);
    from_chars(&text)
}

/// Why a text could not be erased.
#[derive(Clone, Copy, Debug, PartialEq, Eq, Structural)]
pub enum EraseError {
    /// The lexer refused the text.
    Lex,
    /// A span reaches outside the lines of the text.
    Layout,
}

/// `mask` with the bits of the first `n` spans set to `on`; nothing where
/// one of them does not fit.
pub open spec fn marked_all(
    spans: Seq<Extent>,
    n: nat,
    mask: Option<Seq<Seq<bool>>>,
    on: bool,
) -> Option<Seq<Seq<bool>>>
    decreases n,
{
    if n == 0 || n > spans.len() {
        mask
    } else {
        try_marked(marked_all(spans, (n - 1) as nat, mask, on), spans[n - 1], on)
    }
}

/// `mask` with the bits of every token among the first `n` of `tokens`
/// turned off: those of an identifier, a literal and a punctuation
/// character, and those of the two brackets of a group and of the tokens
/// inside it. Nothing where a span does not fit.
pub open spec fn tokens_kept(
    tokens: Seq<TokenView>,
    n: nat,
    mask: Option<Seq<Seq<bool>>>,
) -> Option<Seq<Seq<bool>>>
    decreases tokens, n,
{
    if n == 0 || n > tokens.len() {
        mask
    } else {
        let before = tokens_kept(tokens, (n - 1) as nat, mask);
        match tokens[n - 1] {
            TokenView::Group { inner, open, close, .. } => try_marked(
                tokens_kept(inner, inner.len(), try_marked(before, open, false)),
                close,
                false,
            ),
            TokenView::Ident { span, .. } => try_marked(before, span, false),
            TokenView::Literal { span, .. } => try_marked(before, span, false),
            TokenView::Punct { span, .. } => try_marked(before, span, false),
        }
    }
}

proof fn lemma_tokens_kept_nothing(tokens: Seq<TokenView>, n: nat)
    ensures
        tokens_kept(tokens, n, None) is None,
    decreases tokens, n,
{
    if n == 0 || n > tokens.len() {
    } else {
        lemma_tokens_kept_nothing(tokens, (n - 1) as nat);
        match tokens[n - 1] {
            TokenView::Group { inner, open, close, .. } => {
                lemma_tokens_kept_nothing(inner, inner.len());
            },
            _ => {},
        }
    }
}

proof fn lemma_tokens_kept_fails(tokens: Seq<TokenView>, from: nat, to: nat, mask: Option<Seq<Seq<bool>>>)
    requires
        from <= to <= tokens.len(),
        tokens_kept(tokens, from, mask) is None,
    ensures
        tokens_kept(tokens, to, mask) is None,
    decreases to - from,
{
    if from < to {
        lemma_tokens_kept_fails(tokens, from, (to - 1) as nat, mask);
        match tokens[to - 1] {
            TokenView::Group { inner, open, close, .. } => {
                lemma_tokens_kept_nothing(inner, inner.len());
            },
            _ => {},
        }
    }
}

/// Turns off the bits of every token; `false` where a span does not fit.
fn keep_tokens(mask: &mut Vec<FixedBitSet>, tokens: &Vec<Token>) -> (ok: bool)
    ensures
        match tokens_kept(token_views(tokens@), tokens@.len(), Some(rows(old(mask)@))) {
            Some(m) => ok && rows(final(mask)@) == m,
            None => !ok,
        },
    decreases tokens,
{
    let ghost views = token_views(tokens@);
    let ghost start = Some(rows(mask@));
    let mut i: usize = 0;
    while i < tokens.len()
        invariant
            i <= tokens.len(),
            views == token_views(tokens@),
            start == Some(rows(old(mask)@)),
            tokens_kept(views, i as nat, start) == Some(rows(mask@)),
        decreases tokens.len() - i,
    {
        assert(views[i as int] == tokens@[i as int]@);
        let ok = match &tokens[i] {
            Token::Group { inner, open, close, .. } => {
                proof {
                    lemma_group_views(tokens@[i as int]);
                    assert(decreases_to!(*tokens => tokens[i as int]));
                    assert(decreases_to!(tokens[i as int] => tokens[i as int]->inner));
                }
                if !set_span(mask, *open, false) {
                    proof {
                        lemma_tokens_kept_nothing(token_views(inner@), inner@.len());
                    }
                    false
                } else if !keep_tokens(mask, inner) {
                    false
                } else {
                    set_span(mask, *close, false)
                }
            },
            Token::Ident { span, .. } => set_span(mask, *span, false),
            Token::Literal { span, .. } => set_span(mask, *span, false),
            Token::Punct { span, .. } => set_span(mask, *span, false),
        };
        if !ok {
            proof {
                lemma_tokens_kept_fails(views, (i + 1) as nat, tokens@.len(), start);
            }
            return false;
        }
        i += 1;
    }
    true
}

/// What [`erase_outside_tokens`] gives for `code` and its tokens: `code`
/// without its interpreter line, with a space in place of every
/// character that none of `tokens` covers.
pub open spec fn tokens_erased(code: Seq<char>, tokens: Seq<TokenView>) -> Result<
    Seq<char>,
    EraseError,
> {
    let text = without_interpreter_line(code);
    match tokens_kept(tokens, tokens.len(), Some(full_mask(lines(text), true))) {
        None => Err(EraseError::Layout),
        Some(mask) => Ok(erased(lines(text), mask)),
    }
}

/// What [`erase_comments`] gives for `code`.
pub open spec fn comments_erased(code: Seq<char>) -> Result<Seq<char>, EraseError> {
    match lexed(without_interpreter_line(code)) {
        None => Err(EraseError::Lex),
        Some(tokens) => tokens_erased(code, tokens),
    }
}

/// What [`erase_spans`] gives for `code` and the spans of its
/// documentation.
pub open spec fn docs_erased(code: Seq<char>, docs: Seq<Extent>) -> Result<Seq<char>, EraseError> {
    let text = without_interpreter_line(code);
    match marked_all(docs, docs.len(), Some(full_mask(lines(text), false)), true) {
        None => Err(EraseError::Layout),
        Some(mask) => Ok(erased(lines(text), mask)),
    }
}

/// Whether `r` holds the text, or the error, that `expected` holds.
pub open spec fn gives(r: Result<String, EraseError>, expected: Result<Seq<char>, EraseError>) -> bool {
    match (r, expected) {
        (Ok(s), Ok(t)) => s@ == t,
        (Err(e), Err(f)) => e == f,
        _ => false,
    }
}

/// `code` with a space in place of every character that belongs to no
/// token: what is left are the tokens, each where it stood. The line of
/// an interpreter at the start is emptied. Every line keeps its length.
pub fn erase_comments(code: &str) -> (r: Result<String, EraseError>)
    ensures
        gives(r, comments_erased(code@)),
{
    let source = drop_interpreter_line(code);
    match lex(source.as_str()) {
        Some(tokens) => erase_outside_tokens(code, &tokens),
        None => Err(EraseError::Lex),
    }
}

/// `code` with a space in place of every character that none of `tokens`
/// covers; `tokens` are the tokens of `code` without its interpreter
/// line. A token that reaches outside the lines of the text is refused.
pub fn erase_outside_tokens(code: &str, tokens: &Vec<Token>) -> (r: Result<String, EraseError>)
    ensures
        gives(r, tokens_erased(code@, token_views(tokens@))),
{
    let chars = to_chars(code);
    let text = strip_interpreter_line(&chars);
    let rows_of = split_lines(&text);
    assert(line_texts(rows_of@) =~= lines(text@));
    let mut mask = new_mask(&rows_of, true);
    if !keep_tokens(&mut mask, tokens) {
        return Err(EraseError::Layout);
    }
    proof {
        lemma_kept_shape(token_views(tokens@), tokens@.len(), full_mask(lines(text@), true));
    }
    Ok(write_erased(&rows_of, &mask))
}

/// Where those among the first `n` attributes stand that document
/// something.
pub open spec fn doc_places(attrs: Seq<AttrView>, n: nat) -> Seq<Extent>
    decreases n,
{
    if n == 0 || n > attrs.len() {
        Seq::empty()
    } else if is_doc(attrs[n - 1]) {
        doc_places(attrs, (n - 1) as nat).push(attrs[n - 1].span)
    } else {
        doc_places(attrs, (n - 1) as nat)
    }
}

/// `code` with a space in place of every character of an attribute that
/// documents something; `attrs` are the attributes found in `code`. The
/// line of an interpreter at the start is emptied. Every line keeps its
/// length.
pub fn erase_docs(code: &str, attrs: &Vec<Attr>) -> (r: Result<String, EraseError>)
    ensures
        gives(r, docs_erased(code@, doc_places(attr_views(attrs@), attrs@.len()))),
{
    let mut docs: Vec<Extent> = Vec::new();
    let mut i: usize = 0;
    while i < attrs.len()
        invariant
            i <= attrs.len(),
            docs@ == doc_places(attr_views(attrs@), i as nat),
        decreases attrs.len() - i,
    {
        assert(attr_views(attrs@)[i as int] == attrs@[i as int]@);
        if attr_is_doc(&attrs[i]) {
            docs.push(attrs[i].span);
        }
        i += 1;
    }
    erase_spans(code, &docs)
}

/// `code` with a space in place of every character that one of `docs`
/// covers. The line of an interpreter at the start is emptied. Every line
/// keeps its length.
pub fn erase_spans(code: &str, docs: &Vec<Extent>) -> (r: Result<String, EraseError>)
    ensures
        gives(r, docs_erased(code@, docs@)),
{
    let chars = to_chars(code);
    let text = strip_interpreter_line(&chars);
    let rows_of = split_lines(&text);
    assert(line_texts(rows_of@) =~= lines(text@));
    let mut mask = new_mask(&rows_of, false);
    let ghost start = Some(rows(mask@));
    let mut i: usize = 0;
    while i < docs.len()
        invariant
            i <= docs.len(),
            mask@.len() == rows_of@.len(),
            text@ == without_interpreter_line(code@),
            start == Some(full_mask(lines(text@), false)),
            marked_all(docs@, i as nat, start, true) == Some(rows(mask@)),
        decreases docs.len() - i,
    {
        let ghost before = rows(mask@);
        if !set_span(&mut mask, docs[i], true) {
            proof {
                assert(marked_all(docs@, (i + 1) as nat, start, true) is None);
                lemma_marked_all_fails(docs@, (i + 1) as nat, docs@.len(), start, true);
            }
            return Err(EraseError::Layout);
        }
        proof {
            lemma_marked_shape(before, docs@[i as int], true);
        }
        i += 1;
    }
    Ok(write_erased(&rows_of, &mask))
}

pub(crate) proof fn lemma_marked_all_fails(
    spans: Seq<Extent>,
    from: nat,
    to: nat,
    mask: Option<Seq<Seq<bool>>>,
    on: bool,
)
    requires
        from <= to <= spans.len(),
        marked_all(spans, from, mask, on) is None,
    ensures
        marked_all(spans, to, mask, on) is None,
    decreases to - from,
{
    if from < to {
        lemma_marked_all_fails(spans, from, (to - 1) as nat, mask, on);
    }
}

/// Keeping tokens leaves the mask with the rows it had, each as long as
/// it was.
pub proof fn lemma_kept_shape(tokens: Seq<TokenView>, n: nat, mask: Seq<Seq<bool>>)
    ensures
        match tokens_kept(tokens, n, Some(mask)) {
            Some(m) => m.len() == mask.len() && forall|i: int|
                0 <= i < mask.len() ==> (#[trigger] m[i]).len() == mask[i].len(),
            None => true,
        },
    decreases tokens, n,
{
    if n == 0 || n > tokens.len() {
    } else {
        lemma_kept_shape(tokens, (n - 1) as nat, mask);
        match tokens_kept(tokens, (n - 1) as nat, Some(mask)) {
            Some(before) => {
                match tokens[n - 1] {
                    TokenView::Group { inner, open, close, .. } => {
                        if fits(before, open) {
                            let opened = marked(before, open, false);
                            lemma_marked_shape(before, open, false);
                            lemma_kept_shape(inner, inner.len(), opened);
                            match tokens_kept(inner, inner.len(), Some(opened)) {
                                Some(inside) => {
                                    lemma_marked_shape(inside, close, false);
                                },
                                None => {},
                            }
                        } else {
                            lemma_tokens_kept_nothing(inner, inner.len());
                        }
                    },
                    TokenView::Ident { span, .. } => {
                        lemma_marked_shape(before, span, false);
                    },
                    TokenView::Literal { span, .. } => {
                        lemma_marked_shape(before, span, false);
                    },
                    TokenView::Punct { span, .. } => {
                        lemma_marked_shape(before, span, false);
                    },
                }
            },
            None => {
                match tokens[n - 1] {
                    TokenView::Group { inner, open, close, .. } => {
                        lemma_tokens_kept_nothing(inner, inner.len());
                    },
                    _ => {},
                }
            },
        }
    }
}

/// Whether no line of `lines` ends with a carriage return.
pub open spec fn ends_plainly(lines: Seq<Seq<char>>) -> bool {
    forall|i: int|
        0 <= i < lines.len() && (#[trigger] lines[i]).len() > 0 ==> lines[i].last() != '\r'
}

proof fn lemma_blanked_lines(lines_in: Seq<Seq<char>>, mask: Seq<Seq<bool>>, n: nat)
    requires
        n <= lines_in.len(),
        ends_plainly(lines_in),
        forall|i: int| 0 <= i < lines_in.len() ==> is_one_line(#[trigger] lines_in[i]),
    ensures
        lines(blanked_text(lines_in, mask, n)) == Seq::new(
            n,
            |i: int| blanked(lines_in[i], mask[i]),
        ),
        n > 0 ==> blanked_text(lines_in, mask, n).last() == '\n',
    decreases n,
{
    if n == 0 {
        assert(lines(blanked_text(lines_in, mask, n)) =~= Seq::new(
            n,
            |i: int| blanked(lines_in[i], mask[i]),
        ));
    } else {
        let before = blanked_text(lines_in, mask, (n - 1) as nat);
        let line = blanked(lines_in[n - 1], mask[n - 1]);
        lemma_blanked_lines(lines_in, mask, (n - 1) as nat);
        assert(is_one_line(lines_in[n - 1]));
        assert(is_one_line(line));
        lemma_lines_of_one(line);
        assert(strip_cr(line) == line) by {
            if line.len() > 0 {
                assert(lines_in[n - 1].last() != '\r');
            }
        }
        lemma_lines_append(before, line + seq!['\n']);
        assert(before + (line + seq!['\n']) =~= blanked_text(lines_in, mask, n));
        assert(lines(blanked_text(lines_in, mask, n)) =~= Seq::new(
            n,
            |i: int| blanked(lines_in[i], mask[i]),
        ));
    }
}

/// Blanking keeps the layout: what is written for the lines of a text
/// under any mask has as many lines as the text, each is as long as it
/// was, and each character is the one that stood there or a space. This
/// holds where no line of the text ends with a carriage return.
pub proof fn lemma_blanking_keeps_layout(text: Seq<char>, mask: Seq<Seq<bool>>)
    requires
        ends_plainly(lines(text)),
    ensures
        ({
            let out = blanked_text(lines(text), mask, lines(text).len());
            &&& lines(out).len() == lines(text).len()
            &&& forall|i: int|
                0 <= i < lines(text).len() ==> (#[trigger] lines(out)[i]).len() == lines(
                    text,
                )[i].len()
            &&& forall|i: int, j: int|
                0 <= i < lines(text).len() && 0 <= j < lines(text)[i].len() ==> (
                #[trigger] lines(out)[i][j]) == lines(text)[i][j] || lines(out)[i][j] == ' '
        }),
{
    lemma_lines_hold_no_newline(text);
    lemma_blanked_lines(lines(text), mask, lines(text).len());
}

/// Erasure keeps the layout: what is left of a text under any mask has
/// as many lines as the text, each is as long as it was, and each
/// character is the one that stood there or a space. This holds where
/// the text has no line for an interpreter, which is emptied, and no line
/// of it ends with a carriage return.
pub proof fn lemma_erasure_keeps_layout(code: Seq<char>, mask: Seq<Seq<bool>>)
    requires
        !has_interpreter_line(code),
        ends_plainly(lines(code)),
    ensures
        ({
            let out = erased(lines(without_interpreter_line(code)), mask);
            &&& lines(out).len() == lines(code).len()
            &&& forall|i: int|
                0 <= i < lines(code).len() ==> (#[trigger] lines(out)[i]).len() == lines(
                    code,
                )[i].len()
            &&& forall|i: int, j: int|
                0 <= i < lines(code).len() && 0 <= j < lines(code)[i].len() ==> (
                #[trigger] lines(out)[i][j]) == lines(code)[i][j] || lines(out)[i][j] == ' '
        }),
{
    lemma_blanking_keeps_layout(code, mask);
}

/// What [`erase_spans`] hands out has the layout of the text it was given.
pub proof fn lemma_docs_erased_layout(code: Seq<char>, docs: Seq<Extent>, out: Seq<char>)
    requires
        !has_interpreter_line(code),
        ends_plainly(lines(code)),
        docs_erased(code, docs) == Ok::<Seq<char>, EraseError>(out),
    ensures
        lines(out).len() == lines(code).len(),
        forall|i: int|
            0 <= i < lines(code).len() ==> (#[trigger] lines(out)[i]).len() == lines(code)[i].len(),
{
    let start = Some(full_mask(lines(code), false));
    let mask = marked_all(docs, docs.len(), start, true)->0;
    lemma_erasure_keeps_layout(code, mask);
}

/// What [`erase_comments`] hands out has the layout of the text it was
/// given.
pub proof fn lemma_comments_erased_layout(code: Seq<char>, out: Seq<char>)
    requires
        !has_interpreter_line(code),
        ends_plainly(lines(code)),
        comments_erased(code) == Ok::<Seq<char>, EraseError>(out),
    ensures
        lines(out).len() == lines(code).len(),
        forall|i: int|
            0 <= i < lines(code).len() ==> (#[trigger] lines(out)[i]).len() == lines(code)[i].len(),
{
    let tokens = lexed(code)->0;
    let mask = tokens_kept(tokens, tokens.len(), Some(full_mask(lines(code), true)))->0;
    lemma_erasure_keeps_layout(code, mask);
}

} // verus!
