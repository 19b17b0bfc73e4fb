use bts::activity::{highlight_selection, select_next, select_previous, SpanStyle};
use bts::activity::SpanStyle::{Cursor, Plain, Selection};

fn handles() -> Vec<String> {
    vec![String::from("a"), String::from("b"), String::from("c")]
}

#[test]
fn moving_up() {
    let h = handles();
    assert_eq!(select_previous(&h, &None), Some(String::from("c")));
    assert_eq!(select_previous(&h, &Some(String::from("c"))), Some(String::from("b")));
    assert_eq!(select_previous(&h, &Some(String::from("a"))), None);
    assert_eq!(select_previous(&vec![], &None), None);
}

#[test]
fn moving_down() {
    let h = handles();
    assert_eq!(select_next(&h, &None), Some(String::from("a")));
    assert_eq!(select_next(&h, &Some(String::from("a"))), Some(String::from("b")));
    assert_eq!(select_next(&h, &Some(String::from("c"))), None);
    assert_eq!(select_next(&vec![], &None), None);
}

fn render(code: &str, anchor: u32, caret: u32) -> Vec<Vec<(String, SpanStyle)>> {
    highlight_selection(code, anchor, caret)
        .into_iter()
        .map(|line| {
            line.into_iter()
                .map(|s| (String::from_utf8(s.text).unwrap(), s.style))
                .collect()
        })
        .collect()
}

fn t(s: &str, st: SpanStyle) -> (String, SpanStyle) {
    (String::from(s), st)
}

#[test]
fn selection_inside_one_line() {
    let v = render("abcdef\nxyz", 4, 1);
    assert_eq!(
        v,
        vec![
            vec![
                t("a", Plain),
                t("▙", Cursor),
                t("bcd", Selection),
                t("▜", Cursor),
                t("ef", Plain)
            ],
            vec![t("xyz", Plain)],
        ]
    );
}

#[test]
fn selection_across_lines() {
    let v = render("ab\ncd\nef\n", 1, 7);
    assert_eq!(
        v,
        vec![
            vec![t("a", Plain), t("▙", Cursor), t("b", Selection)],
            vec![t("cd", Selection)],
            vec![t("e", Selection), t("▜", Cursor), t("f", Plain)],
        ]
    );
}

#[test]
fn caret_without_selection_and_empty_code() {
    let v = render("ab", 2, 2);
    assert_eq!(
        v,
        vec![vec![
            t("ab", Plain),
            t("▙", Cursor),
            t("", Selection),
            t("▜", Cursor),
            t("", Plain)
        ]]
    );
    assert!(render("", 0, 0).is_empty());
    assert_eq!(render("\n\n", 9, 9), vec![vec![t("", Plain)], vec![t("", Plain)]]);
}
