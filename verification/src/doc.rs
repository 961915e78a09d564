//! Documentation of a unit: the lines that document it are gathered at
//! its head, and more are put behind them.

use crate::attr::{attr_string, attr_views, string_of, Attr, AttrView};
use crate::erase::{
    bit, bits, blanked, full_mask, lemma_marked_all_fails, lemma_marked_shape, line_texts,
    marked_all, new_mask, rows, set_span, EraseError,
};
use crate::span::Extent;
use crate::text::{
    from_chars, leading_white_len, lemma_leading_white_bounds, lines, push_all, push_str,
    slice_chars, split_lines, to_chars, trim_start,
};
use vstd::prelude::*;

verus! {

/// One piece of a unit's documentation: the text it holds, and where it
/// stands.
#[derive(Debug, PartialEq, Eq)]
pub struct DocAttr {
    pub value: String,
    pub span: Extent,
}

/// The pieces of documentation as specifications see them.
pub open spec fn doc_views(docs: Seq<DocAttr>) -> Seq<(Seq<char>, Extent)> {
    Seq::new(docs.len(), |i: int| (docs[i].value@, docs[i].span))
}

/// The documentation among the first `n` attributes: of each attribute of
/// the shape `#[doc = ".."]` the string that it holds, and where name and
/// value stand.
pub open spec fn documentation(attrs: Seq<AttrView>, n: nat) -> Seq<(Seq<char>, Extent)>
    decreases n,
{
    if n == 0 || n > attrs.len() {
        Seq::empty()
    } else {
        match string_of(attrs[n - 1], "doc"@) {
            Some(piece) => documentation(attrs, (n - 1) as nat).push(piece),
            None => documentation(attrs, (n - 1) as nat),
        }
    }
}

/// The documentation among `attrs`.
pub fn collect_docs(attrs: &Vec<Attr>) -> (docs: Vec<DocAttr>)
    ensures
        doc_views(docs@) == documentation(attr_views(attrs@), attrs@.len()),
{
    let mut docs: Vec<DocAttr> = Vec::new();
    let mut i: usize = 0;
    assert(doc_views(docs@) =~= documentation(attr_views(attrs@), 0));
    while i < attrs.len()
        invariant
            i <= attrs.len(),
            doc_views(docs@) == documentation(attr_views(attrs@), i as nat),
        decreases attrs.len() - i,
    {
        assert(attr_views(attrs@)[i as int] == attrs@[i as int]@);
        let ghost before = doc_views(docs@);
        match attr_string(&attrs[i], "doc") {
            Some((text, span)) => {
                docs.push(DocAttr { value: text.clone(), span });
                assert(doc_views(docs@) =~= before.push((text@, span)));
            },
            None => {},
        }
        i += 1;
    }
    docs
}

/// The texts that the pieces hold.
pub open spec fn doc_values(docs: Seq<(Seq<char>, Extent)>) -> Seq<Seq<char>> {
    Seq::new(docs.len(), |i: int| docs[i].0)
}

/// Where the pieces stand.
pub open spec fn doc_spans(docs: Seq<(Seq<char>, Extent)>) -> Seq<Extent> {
    Seq::new(docs.len(), |i: int| docs[i].1)
}

/// The first `n` of `values` as lines of documentation: `//!`, the value
/// and a line feed for each.
pub open spec fn doc_lines(values: Seq<Seq<char>>, n: nat) -> Seq<char>
    decreases n,
{
    if n == 0 || n > values.len() {
        Seq::empty()
    } else {
        doc_lines(values, (n - 1) as nat) + seq!['/', '/', '!'] + values[n - 1] + seq!['\n']
    }
}

/// Whether each of the first `n` of `values` is empty.
pub open spec fn all_empty(values: Seq<Seq<char>>, n: nat) -> bool
    decreases n,
{
    if n == 0 || n > values.len() {
        true
    } else {
        all_empty(values, (n - 1) as nat) && values[n - 1].len() == 0
    }
}

/// The first `n` of `lines`, each blanked by its row of `mask`, with a
/// line feed between one and the next.
pub open spec fn joined(lines: Seq<Seq<char>>, mask: Seq<Seq<bool>>, n: nat) -> Seq<char>
    decreases n,
{
    if n == 0 || n > lines.len() {
        Seq::empty()
    } else if n == 1 {
        blanked(lines[0], mask[0])
    } else {
        joined(lines, mask, (n - 1) as nat) + seq!['\n'] + blanked(lines[n - 1], mask[n - 1])
    }
}

/// The lines of `code`; the first of them emptied where the unit begins
/// with an interpreter line.
pub open spec fn unit_lines(code: Seq<char>, interpreted: bool) -> Seq<Seq<char>> {
    if interpreted && lines(code).len() > 0 {
        lines(code).update(0, Seq::empty())
    } else {
        lines(code)
    }
}

/// The interpreter line and a line feed, if there is one.
pub open spec fn head_of(shebang: Option<Seq<char>>) -> Seq<char> {
    match shebang {
        Some(line) => line + seq!['\n'],
        None => Seq::empty(),
    }
}

/// What [`prepend_docs`] gives. At the head stands the interpreter
/// line, if there is one. Then come the values of `docs` as lines of
/// documentation; an empty line of documentation, unless all of those
/// values are empty; the lines of `append` as lines of documentation; and
/// an empty line. Last comes the unit itself, with spaces where `docs`
/// stood and without white space at its start, closed by a line feed.
pub open spec fn mod_doc_prepended(
    code: Seq<char>,
    shebang: Option<Seq<char>>,
    docs: Seq<(Seq<char>, Extent)>,
    append: Seq<char>,
) -> Result<Seq<char>, EraseError> {
    let all = unit_lines(code, shebang is Some);
    let values = doc_values(docs);
    match marked_all(doc_spans(docs), docs.len(), Some(full_mask(all, false)), true) {
        None => Err(EraseError::Layout),
        Some(mask) => Ok(
            head_of(shebang) + doc_lines(values, values.len()) + (if all_empty(
                values,
                values.len(),
            ) {
                Seq::empty()
            } else {
                seq!['/', '/', '!', '\n']
            }) + doc_lines(lines(append), lines(append).len()) + seq!['\n'] + trim_start(
                joined(all, mask, all.len()),
            ) + seq!['\n'],
        ),
    }
}

fn push_doc_line(out: &mut Vec<char>, value: &Vec<char>)
    ensures
        final(out)@ == old(out)@ + seq!['/', '/', '!'] + value@ + seq!['\n'],
{
    out.push('/');
    out.push('/');
    out.push('!');
    push_all(out, value);
    out.push('\n');
    assert(out@ =~= old(out)@ + seq!['/', '/', '!'] + value@ + seq!['\n']);
}

/// The text of a line that may be missing.
pub open spec fn line_view(line: Option<&str>) -> Option<Seq<char>> {
    match line {
        Some(text) => Some(text@),
        None => None,
    }
}

/// The documentation of a unit moved to its head, with `append` behind
/// it. `shebang` is the unit's interpreter line, if it has one; `attrs`
/// are the attributes of the unit itself. A piece of documentation that
/// reaches outside the unit's lines is refused.
pub fn prepend_mod_doc(code: &str, shebang: Option<&str>, attrs: &Vec<Attr>, append: &str) -> (r:
    Result<String, EraseError>)
    ensures
        match (
            r,
            mod_doc_prepended(
                code@,
                line_view(shebang),
                documentation(attr_views(attrs@), attrs@.len()),
                append@,
            ),
        ) {
            (Ok(text), Ok(expected)) => text@ == expected,
            (Err(e), Err(f)) => e == f,
            _ => false,
        },
{
    let docs = collect_docs(attrs);
    prepend_docs(code, shebang, &docs, append)
}

/// The pieces `docs` of a unit's documentation moved to its head, with
/// `append` behind them. A piece that reaches outside the unit's lines is
/// refused.
pub fn prepend_docs(code: &str, shebang: Option<&str>, docs: &Vec<DocAttr>, append: &str) -> (r:
    Result<String, EraseError>)
    ensures
        match (r, mod_doc_prepended(code@, line_view(shebang), doc_views(docs@), append@)) {
            (Ok(text), Ok(expected)) => text@ == expected,
            (Err(e), Err(f)) => e == f,
            _ => false,
        },
{
    let chars = to_chars(code);
    let mut unit = split_lines(&chars);
    assert(line_texts(unit@) =~= lines(code@));
    if shebang.is_some() && unit.len() > 0 {
        unit.set(0, Vec::new());
    }
    let ghost all = unit_lines(code@, shebang is Some);
    assert(line_texts(unit@) =~= all);
    let mut mask = new_mask(&unit, false);
    let ghost start = Some(rows(mask@));
    let ghost spans = doc_spans(doc_views(docs@));
    let mut i: usize = 0;
    while i < docs.len()
        invariant
            i <= docs.len(),
            spans == doc_spans(doc_views(docs@)),
            all == unit_lines(code@, shebang is Some),
            mask@.len() == unit@.len(),
            start == Some(full_mask(all, false)),
            marked_all(spans, i as nat, start, true) == Some(rows(mask@)),
        decreases docs.len() - i,
    {
        let ghost before = rows(mask@);
        assert(spans[i as int] == docs@[i as int].span);
        if !set_span(&mut mask, docs[i].span, true) {
            proof {
                assert(marked_all(spans, (i + 1) as nat, start, true) is None);
                lemma_marked_all_fails(spans, (i + 1) as nat, docs@.len(), start, true);
            }
            return Err(EraseError::Layout);
        }
        proof {
            lemma_marked_shape(before, spans[i as int], true);
        }
        i += 1;
    }
    let ghost m = rows(mask@);
    let mut out: Vec<char> = Vec::new();
    match shebang {
        Some(line) => {
            push_str(&mut out, line);
            out.push('\n');
        },
        None => {},
    }
    let ghost shebang_text = match shebang {
        Some(line) => Some(line@),
        None => None,
    };
    assert(out@ =~= head_of(shebang_text));
    let ghost values = doc_values(doc_views(docs@));
    let ghost head = out@;
    let mut empty = true;
    let mut i: usize = 0;
    assert(out@ =~= head + doc_lines(values, 0));
    while i < docs.len()
        invariant
            i <= docs.len(),
            values == doc_values(doc_views(docs@)),
            out@ == head + doc_lines(values, i as nat),
            empty == all_empty(values, i as nat),
        decreases docs.len() - i,
    {
        assert(values[i as int] == docs@[i as int].value@);
        let value = to_chars(docs[i].value.as_str());
        if value.len() > 0 {
            empty = false;
        }
        let ghost before = out@;
        push_doc_line(&mut out, &value);
        assert(out@ =~= head + doc_lines(values, (i + 1) as nat));
        i += 1;
    }
    if !empty {
        out.push('/');
        out.push('/');
        out.push('!');
        out.push('\n');
    }
    let ghost documented = head + doc_lines(values, values.len()) + (if all_empty(
        values,
        values.len(),
    ) {
        Seq::empty()
    } else {
        seq!['/', '/', '!', '\n']
    });
    assert(out@ =~= documented);
    let more = split_lines(&to_chars(append));
    let ghost extra = lines(append@);
    let mut i: usize = 0;
    assert(out@ =~= documented + doc_lines(extra, 0));
    while i < more.len()
        invariant
            i <= more.len(),
            more@.len() == extra.len(),
            forall|k: int| 0 <= k < more@.len() ==> (#[trigger] more@[k])@ == extra[k],
            out@ == documented + doc_lines(extra, i as nat),
        decreases more.len() - i,
    {
        push_doc_line(&mut out, &more[i]);
        assert(out@ =~= documented + doc_lines(extra, (i + 1) as nat));
        i += 1;
    }
    out.push('\n');
    let mut body: Vec<char> = Vec::new();
    let mut i: usize = 0;
    while i < unit.len()
        invariant
            i <= unit.len(),
            mask@.len() == unit@.len(),
            all == line_texts(unit@),
            m == rows(mask@),
            body@ == joined(all, m, i as nat),
        decreases unit.len() - i,
    {
        let ghost before = body@;
        if i > 0 {
            body.push('\n');
        }
        let ghost begun = body@;
        let line = &unit[i];
        let row = &mask[i];
        assert(all[i as int] == line@);
        assert(m[i as int] == bits(*row));
        let mut j: usize = 0;
        while j < line.len()
            invariant
                j <= line.len(),
                body@ == begun + blanked(line@, bits(*row)).take(j as int),
            decreases line.len() - j,
        {
            let c = if bit(row, j) {
                ' '
            } else {
                line[j]
            };
            body.push(c);
            assert(body@ =~= begun + blanked(line@, bits(*row)).take(j + 1));
            j += 1;
        }
        assert(blanked(line@, bits(*row)).take(j as int) =~= blanked(line@, bits(*row)));
        assert(body@ =~= joined(all, m, (i + 1) as nat));
        i += 1;
    }
    let k = leading_white_len(&body);
    proof {
        lemma_leading_white_bounds(body@);
    }
    let rest = slice_chars(&body, k, body.len());
    assert(rest@ =~= trim_start(body@));
    push_all(&mut out, &rest);
    out.push('\n');
    Ok(from_chars(&out))
}

} // verus!
