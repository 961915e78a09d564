//! The minifying serializer: a token tree written out with as little white
//! space as keeps its tokens apart.

use crate::text::{from_chars, push_all, push_str};
use crate::token::{
    file_tokens, is_source_file, lemma_group_views, lex_file, rendered, token_views, Brackets,
    Token, TokenView,
};
use vstd::prelude::*;

verus! {

/// What was written last: nothing that matters, an identifier or literal,
/// or a run of punctuation that is still held back.
pub enum Prev {
    Nothing,
    Word,
    Puncts { run: Seq<char>, joint: bool },
}

/// The run that `prev` holds back.
pub open spec fn held(prev: Prev) -> Seq<char> {
    match prev {
        Prev::Puncts { run, .. } => run,
        _ => Seq::empty(),
    }
}

/// The character that opens a group.
pub open spec fn opener(delimiter: Brackets) -> char {
    match delimiter {
        Brackets::Round => '(',
        Brackets::Curly => '{',
        Brackets::Square => '[',
        Brackets::Invisible => ' ',
    }
}

/// The character that closes a group.
pub open spec fn closer(delimiter: Brackets) -> char {
    match delimiter {
        Brackets::Round => ')',
        Brackets::Curly => '}',
        Brackets::Square => ']',
        Brackets::Invisible => ' ',
    }
}

/// The run is the one character `a`.
pub open spec fn is_one(run: Seq<char>, a: char) -> bool {
    run.len() == 1 && run[0] == a
}

/// The run is the two characters `a` and `b`.
pub open spec fn is_two(run: Seq<char>, a: char, b: char) -> bool {
    run.len() == 2 && run[0] == a && run[1] == b
}

/// Whether `ch` written directly behind `run` would read as another token
/// than the two read apart.
pub open spec fn clashes(run: Seq<char>, ch: char) -> bool {
    ||| ch == '=' && (is_one(run, '!') || is_one(run, '%') || is_one(run, '&') || is_one(run, '*')
        || is_one(run, '+') || is_one(run, '-') || is_one(run, '/') || is_one(run, '<') || is_one(
        run,
        '=',
    ) || is_one(run, '>') || is_one(run, '^') || is_one(run, '|') || is_two(run, '.', '.')
        || is_two(run, '<', '<') || is_two(run, '>', '>'))
    ||| ch == '&' && is_one(run, '&')
    ||| ch == '>' && (is_one(run, '-') || is_one(run, '=') || is_one(run, '>'))
    ||| ch == '.' && (is_one(run, '.') || is_two(run, '.', '.'))
    ||| ch == ':' && is_one(run, ':')
    ||| ch == '-' && is_one(run, '<')
    ||| ch == '<' && is_one(run, '<')
    ||| ch == '|' && is_one(run, '|')
}

/// What stands between what was written last and a word that follows: a
/// space behind another word, the run that was held back, or nothing.
pub open spec fn before_word(prev: Prev) -> Seq<char> {
    match prev {
        Prev::Word => seq![' '],
        Prev::Puncts { run, .. } => run,
        Prev::Nothing => Seq::empty(),
    }
}

/// What is written for the first `n` of `tokens`, and what was written
/// last. A run of punctuation is held back until it is known what follows:
/// it is written once a character of it was not joint and more punctuation
/// comes, with a space behind it where the two would clash, or once a word
/// or a group comes, or at the end.
pub open spec fn scanned(tokens: Seq<TokenView>, n: nat) -> (Seq<char>, Prev)
    decreases tokens, n, 0nat,
{
    if n == 0 || n > tokens.len() {
        (Seq::empty(), Prev::Nothing)
    } else {
        let (out, prev) = scanned(tokens, (n - 1) as nat);
        match tokens[n - 1] {
            TokenView::Group { delimiter, inner, .. } => (
                out + held(prev) + seq![opener(delimiter)] + minified(inner) + seq![
                    closer(delimiter),
                ],
                Prev::Nothing,
            ),
            TokenView::Ident { text, .. } => (out + before_word(prev) + text, Prev::Word),
            TokenView::Literal { text, .. } => (out + before_word(prev) + text, Prev::Word),
            TokenView::Punct { ch, joint, .. } => match prev {
                Prev::Puncts { run, joint: glued } => if glued {
                    (out, Prev::Puncts { run: run.push(ch), joint })
                } else if clashes(run, ch) {
                    (out + run + seq![' '], Prev::Puncts { run: seq![ch], joint })
                } else {
                    (out + run, Prev::Puncts { run: seq![ch], joint })
                },
                _ => (out, Prev::Puncts { run: seq![ch], joint }),
            },
        }
    }
}

/// `tokens` written out with no more white space than keeps them apart.
pub open spec fn minified(tokens: Seq<TokenView>) -> Seq<char>
    decreases tokens, tokens.len(), 1nat,
{
    scanned(tokens, tokens.len()).0 + held(scanned(tokens, tokens.len()).1)
}

/// What the serializer remembers of what it wrote last.
enum Last {
    Nothing,
    Word,
    Puncts(Vec<char>, bool),
}

impl View for Last {
    type V = Prev;

    closed spec fn view(&self) -> Prev {
        match self {
            Last::Nothing => Prev::Nothing,
            Last::Word => Prev::Word,
            Last::Puncts(run, joint) => Prev::Puncts { run: run@, joint: *joint },
        }
    }
}

fn open_char(delimiter: Brackets) -> (c: char)
    ensures
        c == opener(delimiter),
{
    match delimiter {
        Brackets::Round => '(',
        Brackets::Curly => '{',
        Brackets::Square => '[',
        Brackets::Invisible => ' ',
    }
}

fn close_char(delimiter: Brackets) -> (c: char)
    ensures
        c == closer(delimiter),
{
    match delimiter {
        Brackets::Round => ')',
        Brackets::Curly => '}',
        Brackets::Square => ']',
        Brackets::Invisible => ' ',
    }
}

/// Whether `ch` may not follow `run` directly.
pub fn would_clash(run: &Vec<char>, ch: char) -> (r: bool)
    ensures
        r == clashes(run@, ch),
{
    if run.len() == 1 {
        let a = run[0];
        (ch == '=' && (a == '!' || a == '%' || a == '&' || a == '*' || a == '+' || a == '-' || a
            == '/' || a == '<' || a == '=' || a == '>' || a == '^' || a == '|')) || (ch == '&' && a
            == '&') || (ch == '>' && (a == '-' || a == '=' || a == '>')) || (ch == '.' && a == '.')
            || (ch == ':' && a == ':') || (ch == '-' && a == '<') || (ch == '<' && a == '<') || (ch
            == '|' && a == '|')
    } else if run.len() == 2 {
        let a = run[0];
        let b = run[1];
        (ch == '=' && ((a == '.' && b == '.') || (a == '<' && b == '<') || (a == '>' && b == '>')))
            || (ch == '.' && a == '.' && b == '.')
    } else {
        false
    }
}

/// Appends the minified form of `tokens` to `acc`.
fn write_minified(acc: &mut Vec<char>, tokens: &Vec<Token>)
    ensures
        final(acc)@ == old(acc)@ + minified(token_views(tokens@)),
    decreases tokens,
{
    let ghost views = token_views(tokens@);
    let mut last = Last::Nothing;
    let mut i: usize = 0;
    assert(acc@ =~= old(acc)@ + scanned(views, 0).0);
    while i < tokens.len()
        invariant
            i <= tokens.len(),
            views == token_views(tokens@),
            acc@ == old(acc)@ + scanned(views, i as nat).0,
            last@ == scanned(views, i as nat).1,
        decreases tokens.len() - i,
    {
        assert(views[i as int] == tokens@[i as int]@);
        let ghost so_far = scanned(views, i as nat).0;
        let ghost prev = scanned(views, i as nat).1;
        match &tokens[i] {
            Token::Group { delimiter, inner, .. } => {
                proof {
                    lemma_group_views(tokens@[i as int]);
                    assert(decreases_to!(*tokens => tokens[i as int]));
                    assert(decreases_to!(tokens[i as int] => tokens[i as int]->inner));
                }
                if let Last::Puncts(run, _) = &last {
                    push_all(acc, run);
                }
                acc.push(open_char(*delimiter));
                write_minified(acc, inner);
                acc.push(close_char(*delimiter));
                last = Last::Nothing;
                assert(acc@ =~= old(acc)@ + (so_far + held(prev) + seq![opener(*delimiter)]
                    + minified(token_views(inner@)) + seq![closer(*delimiter)]));
            },
            Token::Ident { text, .. } => {
                match &last {
                    Last::Word => {
                        acc.push(' ');
                    },
                    Last::Puncts(run, _) => {
                        push_all(acc, run);
                    },
                    Last::Nothing => {},
                }
                push_str(acc, text.as_str());
                last = Last::Word;
                assert(acc@ =~= old(acc)@ + (so_far + before_word(prev) + text@));
            },
            Token::Literal { text, .. } => {
                match &last {
                    Last::Word => {
                        acc.push(' ');
                    },
                    Last::Puncts(run, _) => {
                        push_all(acc, run);
                    },
                    Last::Nothing => {},
                }
                push_str(acc, text.as_str());
                last = Last::Word;
                assert(acc@ =~= old(acc)@ + (so_far + before_word(prev) + text@));
            },
            Token::Punct { ch, joint, .. } => {
                match last {
                    Last::Puncts(mut run, glued) => {
                        if glued {
                            run.push(*ch);
                            last = Last::Puncts(run, *joint);
                        } else {
                            push_all(acc, &run);
                            if would_clash(&run, *ch) {
                                acc.push(' ');
                                assert(acc@ =~= old(acc)@ + (so_far + run@ + seq![' ']));
                            } else {
                                assert(acc@ =~= old(acc)@ + (so_far + run@));
                            }
                            let mut next: Vec<char> = Vec::new();
                            next.push(*ch);
                            assert(next@ =~= seq![*ch]);
                            last = Last::Puncts(next, *joint);
                        }
                    },
                    _ => {
                        let mut next: Vec<char> = Vec::new();
                        next.push(*ch);
                        assert(next@ =~= seq![*ch]);
                        last = Last::Puncts(next, *joint);
                    },
                }
            },
        }
        i += 1;
    }
    if let Last::Puncts(run, _) = &last {
        push_all(acc, run);
    }
    assert(acc@ =~= old(acc)@ + minified(views));
}

/// `tokens` written out with no more white space than keeps them apart.
pub fn minify_tokens(tokens: &Vec<Token>) -> (out: String)
    ensures
        out@ == minified(token_views(tokens@)),
{
    let mut acc: Vec<char> = Vec::new();
    write_minified(&mut acc, tokens);
    assert(acc@ =~= minified(token_views(tokens@)));
    from_chars(&acc)
}

/// A source file minified: its text, and whether the minified text was no
/// source file any more, so that the text with white space between all
/// tokens was taken in its place.
#[derive(Debug, PartialEq, Eq)]
pub struct Minified {
    pub text: String,
    pub fell_back: bool,
}

/// What [`minify`] gives for a file with the tokens `tokens`.
pub open spec fn minify_outcome(tokens: Seq<TokenView>) -> (Seq<char>, bool) {
    if file_tokens(minified(tokens)) is Some {
        (minified(tokens), false)
    } else {
        (rendered(tokens), true)
    }
}

/// Minifies the source file `code`. Nothing where `code` is no source
/// file. The minified text is handed out if it is a source file itself;
/// if it is not, the text with white space between all tokens is.
pub fn minify(code: &str) -> (r: Option<Minified>)
    ensures
        match (file_tokens(code@), r) {
            (Some(tokens), Some(m)) => (m.text@, m.fell_back) == minify_outcome(tokens),
            (None, None) => true,
            _ => false,
        },
{
    match lex_file(code) {
        None => None,
        Some(file) => {
            let text = minify_tokens(&file.tokens);
            if is_source_file(text.as_str()) {
                Some(Minified { text, fell_back: false })
            } else {
                Some(Minified { text: file.spaced, fell_back: true })
            }
        },
    }
}

/// Whether a token is an identifier or a literal.
pub open spec fn is_word(token: TokenView) -> bool {
    token is Ident || token is Literal
}

/// The text of an identifier or a literal.
pub open spec fn word_text(token: TokenView) -> Seq<char> {
    match token {
        TokenView::Ident { text, .. } => text,
        TokenView::Literal { text, .. } => text,
        _ => Seq::empty(),
    }
}

/// Two words in a row never run together: the second is written behind a
/// space.
pub proof fn lemma_words_stay_apart(tokens: Seq<TokenView>, n: nat)
    requires
        2 <= n <= tokens.len(),
        is_word(tokens[n - 2]),
        is_word(tokens[n - 1]),
    ensures
        scanned(tokens, n).0 == scanned(tokens, (n - 1) as nat).0 + seq![' '] + word_text(
            tokens[n - 1],
        ),
{
    assert(scanned(tokens, (n - 1) as nat).1 == Prev::Word);
}

/// Punctuation that was written apart stays apart wherever it would
/// clash: a run whose last character was not joint is written with a
/// space behind it before a character that clashes with it.
pub proof fn lemma_clash_stays_apart(tokens: Seq<TokenView>, n: nat, run: Seq<char>, ch: char)
    requires
        1 <= n <= tokens.len(),
        scanned(tokens, (n - 1) as nat).1 == (Prev::Puncts { run, joint: false }),
        tokens[n - 1] matches TokenView::Punct { ch: c, .. } && c == ch,
        clashes(run, ch),
    ensures
        scanned(tokens, n).0 == scanned(tokens, (n - 1) as nat).0 + run + seq![' '],
        held(scanned(tokens, n).1) == seq![ch],
{
}

/// A `-` and a `>` that were written apart are not written as `->`.
pub proof fn lemma_arrow_is_not_made(tokens: Seq<TokenView>, n: nat)
    requires
        2 <= n <= tokens.len(),
        !(scanned(tokens, (n - 2) as nat).1 is Puncts),
        tokens[n - 2] matches TokenView::Punct { ch, joint, .. } && ch == '-' && !joint,
        tokens[n - 1] matches TokenView::Punct { ch, .. } && ch == '>',
    ensures
        scanned(tokens, n).0 == scanned(tokens, (n - 2) as nat).0 + seq!['-', ' '],
        held(scanned(tokens, n).1) == seq!['>'],
{
    let before = scanned(tokens, (n - 2) as nat);
    assert(scanned(tokens, (n - 1) as nat).1 == (Prev::Puncts { run: seq!['-'], joint: false }));
    assert(scanned(tokens, (n - 1) as nat).0 == before.0);
    assert(clashes(seq!['-'], '>'));
    lemma_clash_stays_apart(tokens, n, seq!['-'], '>');
    assert(before.0 + seq!['-'] + seq![' '] =~= before.0 + seq!['-', ' ']);
}

} // verus!
