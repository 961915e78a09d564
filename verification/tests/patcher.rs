use bundle_rewrite::patcher::{replace_ranges, replace_ranges_checked};
use bundle_rewrite::span::{EditSet, Extent, Position};

fn at(line: usize, column: usize) -> Position {
    Position::new(line, column)
}

fn insert(edits: &mut EditSet, line: usize, column: usize, text: &str) {
    edits.insert(Extent::point(at(line, column)), text.to_owned());
}

fn replace(edits: &mut EditSet, from: (usize, usize), to: (usize, usize), text: &str) {
    edits.insert(Extent::new(at(from.0, from.1), at(to.0, to.1)), text.to_owned());
}

#[test]
fn insertion_lands_before_the_character_at_its_place() {
    let mut edits = EditSet::new();
    insert(&mut edits, 1, 5, "::lib");
    assert_eq!(replace_ranges("crate::x;\n", &edits), "crate::lib::x;\n");
}

#[test]
fn removal_keeps_line_feeds() {
    let mut edits = EditSet::new();
    replace(&mut edits, (1, 0), (2, 3), "");
    assert_eq!(replace_ranges("ab\ncde\nf\n", &edits), "\n\nf\n");
}

#[test]
fn no_edit_leaves_the_text_but_for_white_space_at_its_end() {
    let edits = EditSet::new();
    assert_eq!(replace_ranges("fn f() {}\n", &edits), "fn f() {}\n");
    assert_eq!(replace_ranges("fn f() {}\n\n \n", &edits), "fn f() {}\n");
    assert_eq!(replace_ranges("fn f() {}  ", &edits), "fn f() {}");
    assert_eq!(replace_ranges("", &edits), "");
    assert_eq!(replace_ranges("\n", &edits), "\n");
}

#[test]
fn a_stretch_is_replaced_by_its_text() {
    let mut edits = EditSet::new();
    replace(&mut edits, (1, 4), (1, 9), "world");
    assert_eq!(replace_ranges("say hello!\n", &edits), "say world!\n");
}

#[test]
fn insertions_at_one_place_keep_the_order_in_which_they_came() {
    let mut edits = EditSet::new();
    insert(&mut edits, 1, 1, "2");
    insert(&mut edits, 1, 1, "3");
    insert(&mut edits, 1, 0, "1");
    assert_eq!(edits.len(), 3);
    assert_eq!(replace_ranges("ab", &edits), "1a23b");
}

#[test]
fn an_insertion_may_sit_at_the_end_of_a_replaced_stretch() {
    let mut edits = EditSet::new();
    insert(&mut edits, 1, 3, "*/");
    replace(&mut edits, (1, 0), (1, 3), "x");
    insert(&mut edits, 1, 3, "/*");
    assert_eq!(replace_ranges("abcdef", &edits), "x*//*def");
}

#[test]
fn an_edit_at_the_end_of_a_line_is_written_before_the_line_feed() {
    let mut edits = EditSet::new();
    insert(&mut edits, 1, 2, ";");
    insert(&mut edits, 2, 1, "!");
    assert_eq!(replace_ranges("ab\nc\n", &edits), "ab;\nc!\n");
}

#[test]
fn a_later_edit_for_the_same_stretch_takes_the_place_of_the_earlier() {
    let mut edits = EditSet::new();
    replace(&mut edits, (1, 0), (1, 2), "x");
    replace(&mut edits, (1, 0), (1, 2), "y");
    assert_eq!(edits.len(), 1);
    assert_eq!(replace_ranges("abc", &edits), "yc");
}

#[test]
fn edits_are_kept_sorted_by_start_and_end() {
    let mut edits = EditSet::new();
    insert(&mut edits, 2, 0, "c");
    replace(&mut edits, (1, 1), (1, 2), "b");
    insert(&mut edits, 1, 0, "a");
    let starts: Vec<(usize, usize)> = edits
        .entries()
        .iter()
        .map(|e| (e.span.start.line, e.span.start.column))
        .collect();
    assert_eq!(starts, vec![(1, 0), (1, 1), (2, 0)]);
    assert!(!edits.is_empty());
}

#[test]
fn applying_the_same_edits_twice_gives_the_same_text() {
    let mut edits = EditSet::new();
    insert(&mut edits, 1, 5, "::lib");
    replace(&mut edits, (2, 0), (2, 3), "");
    let code = "crate::x;\nfoo bar\n";
    assert_eq!(replace_ranges(code, &edits), replace_ranges(code, &edits));
    assert_eq!(replace_ranges(code, &edits), "crate::lib::x;\n bar\n");
}

#[test]
fn columns_count_characters() {
    let mut edits = EditSet::new();
    insert(&mut edits, 1, 2, "|");
    assert_eq!(replace_ranges("ああい", &edits), "ああ|い");
}

#[test]
fn positions_compare_by_line_and_then_by_column() {
    assert!(at(1, 9).is_before(&at(2, 0)));
    assert!(at(2, 0).is_before(&at(2, 1)));
    assert!(!at(2, 1).is_before(&at(2, 1)));
    assert!(at(2, 1).is_at(&at(2, 1)));
    assert!(at(2, 1).is_at_or_before(&at(2, 1)));
    assert!(!at(3, 0).is_at_or_before(&at(2, 1)));
    let a = Extent::new(at(1, 0), at(1, 2));
    let b = Extent::new(at(1, 0), at(1, 3));
    assert!(a.sorts_at_or_before(&b));
    assert!(!b.sorts_at_or_before(&a));
    assert!(a.same(&a));
    assert!(!a.same(&b));
}

#[test]
fn edits_that_keep_out_of_each_other_s_way_are_well_formed() {
    let set = |edits: &[((usize, usize), (usize, usize))]| {
        let mut out = EditSet::new();
        for (from, to) in edits {
            replace(&mut out, *from, *to, "x");
        }
        out
    };
    assert!(set(&[]).is_well_formed());
    assert!(set(&[((1, 0), (1, 2)), ((1, 2), (1, 2)), ((1, 2), (1, 2)), ((1, 3), (2, 0))]).is_well_formed());
    assert!(set(&[((1, 0), (1, 2)), ((1, 2), (1, 4))]).is_well_formed());
    assert!(!set(&[((1, 0), (1, 3)), ((1, 2), (1, 4))]).is_well_formed());
    assert!(!set(&[((1, 0), (1, 3)), ((1, 1), (1, 1))]).is_well_formed());
    assert!(!set(&[((1, 0), (1, 0)), ((1, 0), (1, 3))]).is_well_formed());
    assert!(!set(&[((1, 0), (1, 2)), ((1, 0), (1, 3))]).is_well_formed());
    assert!(!set(&[((1, 3), (1, 1))]).is_well_formed());
    assert!(!set(&[((1, 0), (3, 0)), ((2, 5), (2, 6)), ((4, 0), (4, 1))]).is_well_formed());
}

#[test]
fn a_patched_text_can_be_held_to_the_parser() {
    let mut edits = EditSet::new();
    insert(&mut edits, 1, 4, "(");
    assert_eq!(replace_ranges_checked("use crate::x;\n", &edits), None);
    let mut edits = EditSet::new();
    insert(&mut edits, 1, 9, "::lib");
    assert_eq!(
        replace_ranges_checked("use crate::x;\n", &edits).as_deref(),
        Some("use crate::lib::x;\n")
    );
    let mut edits = EditSet::new();
    replace(&mut edits, (1, 0), (1, 3), "(");
    assert_eq!(replace_ranges_checked("use crate::x;\n", &edits), None);
}
