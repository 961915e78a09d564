use bundle_rewrite::attr::{Attr, Meta, MetaPath};
use bundle_rewrite::erase::{self, EraseError};
use bundle_rewrite::span::{Extent, Position};

fn on_line(line: usize, from: usize, to: usize) -> Extent {
    Extent::new(Position::new(line, from), Position::new(line, to))
}

/// An attribute named `name` at `at`, with a string behind its name.
fn valued(name: &str, at: Extent) -> Attr {
    Attr {
        span: at,
        path: MetaPath { leading_colon: false, segments: vec![name.to_owned()] },
        meta: Some(Meta::NameValue { value: Some(String::new()), span: at }),
    }
}

fn docs_at(spans: &[Extent]) -> Vec<Attr> {
    spans.iter().map(|at| valued("doc", *at)).collect()
}

#[test]
fn erase_docs() {
    let input = "//! aaaaa\n//! bbbbb\n\nfn main() {}\n\n/// ccccc\nstruct Foo;\n";
    let docs = docs_at(&[on_line(1, 0, 9), on_line(2, 0, 9), on_line(6, 0, 9)]);
    let expected = "         \n         \n\nfn main() {}\n\n         \nstruct Foo;\n";
    assert_eq!(erase::erase_docs(input, &docs), Ok(expected.to_owned()));

    let module = "//! モジュールのドキュメント";
    let item = "/// アイテムのドキュメント";
    let input = format!("{}\n\n{}\nfn foo() {{}}\n", module, item);
    let docs = docs_at(&[
        on_line(1, 0, module.chars().count()),
        on_line(3, 0, item.chars().count()),
    ]);
    let expected = format!("{}\n\n{}\nfn foo() {{}}\n", " ".repeat(16), " ".repeat(15));
    assert_eq!(erase::erase_docs(&input, &docs), Ok(expected));
}

#[test]
fn erase_docs_refuses_a_span_outside_the_text() {
    let docs = vec![on_line(3, 0, 1)];
    assert_eq!(erase::erase_spans("fn f() {}\n", &docs), Err(EraseError::Layout));
    let docs = vec![on_line(1, 0, 10)];
    assert_eq!(erase::erase_spans("fn f() {}\n", &docs), Err(EraseError::Layout));
    let docs = vec![on_line(0, 0, 1)];
    assert_eq!(erase::erase_spans("fn f() {}\n", &docs), Err(EraseError::Layout));
    let docs = vec![Extent::new(Position::new(1, 3), Position::new(1, 2))];
    assert_eq!(erase::erase_spans("fn f() {}\n", &docs), Err(EraseError::Layout));
    assert_eq!(erase::erase_docs("fn f() {}\n", &docs_at(&[on_line(2, 0, 1)])), Err(EraseError::Layout));
}

#[test]
fn erase_docs_covers_a_span_over_several_lines() {
    let input = "a /** x\ny\nz */ b\n";
    let docs = vec![Extent::new(Position::new(1, 2), Position::new(3, 4))];
    assert_eq!(erase::erase_spans(input, &docs), Ok("a      \n \n     b\n".to_owned()));
}

#[test]
fn erase_comments() {
    fn test(input: &str, expected: &str) {
        let actual = erase::erase_comments(input);
        assert_eq!(actual, Ok(expected.to_owned()));
    }

    test(
        r#"// aaaaa
// bbbbb
fn main() {
    // ccccc
    /*ddddd*/println!("Hi!");/*eeeee*/
    // fffff
}
// ggggg
"#,
        "        \n        \nfn main() {\n            \n             println!(\"Hi!\");         \n            \n}\n        \n",
    );

    test(
        "/* aaaaa */ type A = (i64, i64, i64); // bbbbb\n",
        "            type A = (i64, i64, i64);         \n",
    );

    test(
        "// あああ\n/*いいい*/fn foo() {\n    let _ = 1 + 1; // ううううう\n}\n",
        "      \n       fn foo() {\n    let _ = 1 + 1;         \n}\n",
    );
}

#[test]
fn erase_comments_keeps_a_literal_over_several_lines() {
    let input = "const S: &str = \"a\nb\"; // c\n";
    assert_eq!(erase::erase_comments(input), Ok("const S: &str = \"a\nb\";     \n".to_owned()));
}

#[test]
fn erase_comments_drops_an_interpreter_line() {
    let input = "#!/usr/bin/env run\nfn f() {} // x\n";
    assert_eq!(erase::erase_comments(input), Ok("\nfn f() {}     \n".to_owned()));
}

#[test]
fn erase_comments_refuses_what_the_lexer_refuses() {
    assert_eq!(erase::erase_comments("fn f() { \" }\n"), Err(EraseError::Lex));
}

#[test]
fn only_attributes_named_doc_are_erased() {
    let input = "#[doc(hidden)] #[inline] #[docs = \"\"] fn f() {}\n";
    let attrs = vec![
        Attr {
            span: on_line(1, 0, 14),
            path: MetaPath { leading_colon: false, segments: vec!["doc".to_owned()] },
            meta: Some(Meta::List { nested: vec![], inner: "hidden".to_owned() }),
        },
        Attr {
            span: on_line(1, 15, 24),
            path: MetaPath { leading_colon: false, segments: vec!["inline".to_owned()] },
            meta: Some(Meta::Path),
        },
        valued("docs", on_line(1, 25, 37)),
        Attr { meta: None, ..valued("doc", on_line(1, 25, 37)) },
    ];
    assert_eq!(
        erase::erase_docs(input, &attrs),
        Ok("               #[inline] #[docs = \"\"] fn f() {}\n".to_owned())
    );
}

#[test]
fn every_line_keeps_its_place_and_its_length() {
    assert_eq!(erase::erase_spans("\nmod a;\n", &vec![]), Ok("\nmod a;\n".to_owned()));
    assert_eq!(erase::erase_spans(" mod a;\n", &vec![]), Ok(" mod a;\n".to_owned()));
    assert_eq!(erase::erase_comments("\n  // x\n mod a; // y\n"), Ok("\n      \n mod a;     \n".to_owned()));
    let inputs = [
        "// a\n\n  /* b\n c */ fn f() {} // d\n\n",
        "\n\n\tstruct S; /* x */\n",
        "fn f() {\n    1 // one\n}",
    ];
    for input in inputs {
        let out = erase::erase_comments(input).expect("the text lexes");
        let before: Vec<usize> = input.lines().map(|l| l.chars().count()).collect();
        let after: Vec<usize> = out.lines().map(|l| l.chars().count()).collect();
        assert_eq!(before, after, "{:?}", input);
        for (a, b) in input.lines().zip(out.lines()) {
            assert!(a.chars().zip(b.chars()).all(|(x, y)| x == y || y == ' '));
        }
    }
}

#[test]
fn an_attribute_of_the_unit_is_no_interpreter_line() {
    let spans: Vec<Extent> = vec![];
    assert_eq!(erase::erase_spans("#![no_std]\nfn f() {}\n", &spans), Ok("#![no_std]\nfn f() {}\n".to_owned()));
    assert_eq!(erase::erase_spans("#! [no_std]\nfn f() {}\n", &spans), Ok("#! [no_std]\nfn f() {}\n".to_owned()));
    assert_eq!(erase::erase_spans("#!\n[no_std]\nfn f() {}\n", &spans), Ok("#!\n[no_std]\nfn f() {}\n".to_owned()));
    assert_eq!(erase::erase_spans("#!/bin/sh [x]\nfn f() {}\n", &spans), Ok("\nfn f() {}\n".to_owned()));
    assert_eq!(erase::erase_spans("#!", &spans), Ok(String::new()));
    assert_eq!(erase::erase_comments("#![no_std] // x\n"), Ok("#![no_std]     \n".to_owned()));
    assert_eq!(erase::drop_interpreter_line("#!/bin/sh\nfn f() {}\n"), "\nfn f() {}\n");
    assert_eq!(erase::drop_interpreter_line("#![a]\n"), "#![a]\n");
}

#[test]
fn tokens_handed_in_are_what_is_kept() {
    let code = "a /* b */ c\n";
    let tokens = bundle_rewrite::token::lex(code).expect("the text lexes");
    assert_eq!(erase::erase_outside_tokens(code, &tokens), Ok("a         c\n".to_owned()));
    assert_eq!(erase::erase_outside_tokens(code, &vec![]), Ok("           \n".to_owned()));
    assert_eq!(erase::erase_outside_tokens("a\n", &tokens), Err(EraseError::Layout));
}
