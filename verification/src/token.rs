//! Token trees: what the lexer makes of a text, held as plain values.

use crate::span::{Extent, Position};
use proc_macro2::TokenTree;
use vstd::prelude::*;

verus! {

/// The brackets of a group.
#[derive(Clone, Copy, Debug, PartialEq, Eq, Structural)]
pub enum Brackets {
    Round,
    Curly,
    Square,
    /// No visible bracket.
    Invisible,
}

/// One token. A punctuation character is `joint` where the next character
/// of punctuation followed it directly in the text.
#[derive(Debug, PartialEq, Eq)]
pub enum Token {
    Ident { text: String, span: Extent },
    Literal { text: String, span: Extent },
    Punct { ch: char, joint: bool, span: Extent },
    Group { delimiter: Brackets, inner: Vec<Token>, open: Extent, close: Extent },
}

/// A token as specifications see it.
pub enum TokenView {
    Ident { text: Seq<char>, span: Extent },
    Literal { text: Seq<char>, span: Extent },
    Punct { ch: char, joint: bool, span: Extent },
    Group { delimiter: Brackets, inner: Seq<TokenView>, open: Extent, close: Extent },
}

impl Token {
    /// The token as specifications see it.
    pub open spec fn shape(&self) -> TokenView
        decreases self,
    {
        match self {
            Token::Ident { text, span } => TokenView::Ident { text: text@, span: *span },
            Token::Literal { text, span } => TokenView::Literal { text: text@, span: *span },
            Token::Punct { ch, joint, span } => TokenView::Punct {
                ch: *ch,
                joint: *joint,
                span: *span,
            },
            Token::Group { delimiter, inner, open, close } => TokenView::Group {
                delimiter: *delimiter,
                inner: Seq::new(
                    inner@.len(),
                    |i: int|
                        if 0 <= i < inner@.len() {
                            inner@[i].shape()
                        } else {
                            TokenView::Punct { ch: ' ', joint: false, span: *open }
                        },
                ),
                open: *open,
                close: *close,
            },
        }
    }
}

impl View for Token {
    type V = TokenView;

    open spec fn view(&self) -> TokenView {
        self.shape()
    }
}

/// The views of a run of tokens.
pub open spec fn token_views(tokens: Seq<Token>) -> Seq<TokenView> {
    Seq::new(tokens.len(), |i: int| tokens[i].shape())
}

/// The tokens inside a group are the views of what the group holds.
pub proof fn lemma_group_views(token: Token)
    requires
        token is Group,
    ensures
        token@ is Group,
        token@->inner == token_views(token->inner@),
        token@->delimiter == token->delimiter,
        token@->open == token->open,
        token@->close == token->close,
{
    assert(token@->inner =~= token_views(token->inner@));
}

/// `proc_macro2::TokenStream`: a run of token trees, opaque here.
#[verifier::external_type_specification]
#[verifier::external_body]
pub struct ExTokenStream(proc_macro2::TokenStream);

/// `proc_macro2::Span`: where a token stands, opaque here.
#[verifier::external_type_specification]
#[verifier::external_body]
pub struct ExSourceSpan(proc_macro2::Span);

/// `proc_macro2::Delimiter`: the brackets of a group, opaque here.
#[verifier::external_type_specification]
#[verifier::external_body]
pub struct ExSourceDelimiter(proc_macro2::Delimiter);

/// `proc_macro2::Spacing`: whether a punctuation character is joint,
/// opaque here.
#[verifier::external_type_specification]
#[verifier::external_body]
pub struct ExSpacing(proc_macro2::Spacing);

/// The token trees that a `proc_macro2::TokenStream` holds, in their
/// order, as tokens of this library.
pub uninterp spec fn stream_tokens(stream: proc_macro2::TokenStream) -> Seq<TokenView>;

/// The tokens that `proc_macro2::TokenStream::from_str` makes of a text;
/// nothing where it refuses the text.
pub uninterp spec fn lexed(code: Seq<char>) -> Option<Seq<TokenView>>;

/// The tokens of a text read as a source file: `syn::parse_file` parses
/// it, and the file is written out again as tokens. Nothing where the text
/// is no source file.
pub uninterp spec fn file_tokens(code: Seq<char>) -> Option<Seq<TokenView>>;

/// What `to_string` makes of a `proc_macro2::TokenStream` that holds
/// `tokens`: the tokens written out with white space between them.
pub uninterp spec fn rendered(tokens: Seq<TokenView>) -> Seq<char>;

/// `proc_macro2::Span::start` and `end`: the line and column at which a
/// span starts and ends, moved into a span of this library.
#[verifier::external_body]
fn span_of(span: proc_macro2::Span) -> Extent {
    let (start, end) = (span.start(), span.end());
    Extent {
        start: Position { line: start.line, column: start.column },
        end: Position { line: end.line, column: end.column },
    }
}

/// A `proc_macro2::Delimiter` as brackets of this library, variant for
/// variant.
#[verifier::external_body]
fn delimiter_of(delimiter: proc_macro2::Delimiter) -> Brackets {
    match delimiter {
        proc_macro2::Delimiter::Parenthesis => Brackets::Round,
        proc_macro2::Delimiter::Brace => Brackets::Curly,
        proc_macro2::Delimiter::Bracket => Brackets::Square,
        proc_macro2::Delimiter::None => Brackets::Invisible,
    }
}

/// Whether a `proc_macro2::Spacing` is `Joint`.
#[verifier::external_body]
fn is_joint(spacing: proc_macro2::Spacing) -> bool {
    match spacing {
        proc_macro2::Spacing::Joint => true,
        proc_macro2::Spacing::Alone => false,
    }
}

/// Walks a `proc_macro2::TokenStream` and hands out each token tree as a
/// token of this library: an identifier and a literal with the text that
/// `to_string` gives, a punctuation character with `as_char` and `spacing`,
/// a group with `delimiter`, `span_open`, `span_close` and the tokens of
/// `stream`.
#[verifier::external_body]
fn tokens_of(stream: proc_macro2::TokenStream) -> (v: Vec<Token>)
    ensures
        token_views(v@) == stream_tokens(stream),
{
    let convert = |tree| match tree {
        TokenTree::Group(g) => Token::Group {
            delimiter: delimiter_of(g.delimiter()),
            inner: tokens_of(g.stream()),
            open: span_of(g.span_open()),
            close: span_of(g.span_close()),
        },
        TokenTree::Ident(i) => Token::Ident { text: i.to_string(), span: span_of(i.span()) },
        TokenTree::Punct(p) => Token::Punct { ch: p.as_char(), joint: is_joint(p.spacing()), span: span_of(p.span()) },
        TokenTree::Literal(l) => Token::Literal { text: l.to_string(), span: span_of(l.span()) },
    };
    stream.into_iter().map(convert).collect()
}

/// `proc_macro2::TokenStream::from_str`: the lexer. It gives a stream,
/// whose tokens are the ones named by [`lexed`], or refuses the text.
#[verifier::external_body]
fn parse_stream(code: &str) -> (r: Option<proc_macro2::TokenStream>)
    ensures
        match r {
            Some(stream) => lexed(code@) == Some(stream_tokens(stream)),
            None => lexed(code@) is None,
        },
{
    code.parse::<proc_macro2::TokenStream>().ok()
}

/// `syn::parse_file`, then `quote::ToTokens::into_token_stream` on the
/// file it gives: the tokens of a text read as a source file, which are
/// the ones named by [`file_tokens`]; nothing where the text is no source
/// file.
#[verifier::external_body]
fn parse_file_stream(code: &str) -> (r: Option<proc_macro2::TokenStream>)
    ensures
        match r {
            Some(stream) => file_tokens(code@) == Some(stream_tokens(stream)),
            None => file_tokens(code@) is None,
        },
{
    match syn::parse_file(code) {
        Ok(file) => Some(quote::ToTokens::into_token_stream(file)),
        Err(_) => None,
    }
}

/// `to_string` of a `proc_macro2::TokenStream`: its tokens written out
/// with white space between them. What is written depends on the tokens
/// alone, not on where they stood.
#[verifier::external_body]
fn render(stream: &proc_macro2::TokenStream) -> (r: String)
    ensures
        r@ == rendered(stream_tokens(*stream)),
{
    stream.to_string()
}

/// The tokens that `stream` holds, as tokens of this library.
pub fn read_stream(stream: proc_macro2::TokenStream) -> (tokens: Vec<Token>)
    ensures
        token_views(tokens@) == stream_tokens(stream),
{
    tokens_of(stream)
}

/// The tokens of `code`, or nothing where the lexer refuses it.
pub fn lex(code: &str) -> (r: Option<Vec<Token>>)
    ensures
        match r {
            Some(tokens) => lexed(code@) == Some(token_views(tokens@)),
            None => lexed(code@) is None,
        },
{
    match parse_stream(code) {
        Some(stream) => Some(tokens_of(stream)),
        None => None,
    }
}

/// A source file as tokens, and as text with white space between all its
/// tokens.
#[derive(Debug, PartialEq, Eq)]
pub struct FileTokens {
    pub tokens: Vec<Token>,
    pub spaced: String,
}

/// The tokens of `code` read as a source file, or nothing where it is none.
pub fn lex_file(code: &str) -> (r: Option<FileTokens>)
    ensures
        match r {
            Some(file) => file_tokens(code@) == Some(token_views(file.tokens@)) && file.spaced@
                == rendered(token_views(file.tokens@)),
            None => file_tokens(code@) is None,
        },
{
    match parse_file_stream(code) {
        Some(stream) => {
            let spaced = render(&stream);
            Some(FileTokens { tokens: tokens_of(stream), spaced })
        },
        None => None,
    }
}

/// Whether `code` is a source file.
pub fn is_source_file(code: &str) -> (r: bool)
    ensures
        r == (file_tokens(code@) is Some),
{
    parse_file_stream(code).is_some()
}

} // verus!
