use rit::commands::diff::{format_unified_diff, has_changes, myers_diff, split_lines, Edit};

#[test]
fn test_myers_diff_simple() {
    let old = vec!["a".to_string(), "b".to_string(), "c".to_string()];
    let new = vec!["a".to_string(), "x".to_string(), "c".to_string()];
    let edits = myers_diff(&old, &new);

    // Should have: Keep(a), Delete(b), Insert(x), Keep(c)
    assert!(edits.len() >= 3);
}

#[test]
fn test_myers_diff_identical() {
    let lines = vec!["a".to_string(), "b".to_string()];
    let edits = myers_diff(&lines, &lines);

    // All should be Keep
    assert!(edits.iter().all(|e| matches!(e, Edit::Keep(_))));
}

#[test]
fn test_myers_diff_add_lines() {
    let old = vec!["a".to_string()];
    let new = vec!["a".to_string(), "b".to_string(), "c".to_string()];
    let edits = myers_diff(&old, &new);

    // Should have Keep(a), Insert(b), Insert(c)
    assert!(edits.len() == 3);
}

fn lines(items: &[&str]) -> Vec<String> {
    items.iter().map(|s| s.to_string()).collect()
}

#[test]
fn diff_replaces_one_line() {
    let edits = myers_diff(&lines(&["a", "b", "c"]), &lines(&["a", "x", "c"]));
    assert_eq!(
        edits,
        vec![
            Edit::Keep("a".to_string()),
            Edit::Delete("b".to_string()),
            Edit::Insert("x".to_string()),
            Edit::Keep("c".to_string()),
        ]
    );
}

#[test]
fn diff_of_empty_sides() {
    assert_eq!(myers_diff(&[], &[]), vec![]);
    assert_eq!(
        myers_diff(&[], &lines(&["x", "y"])),
        vec![Edit::Insert("x".to_string()), Edit::Insert("y".to_string())]
    );
    assert_eq!(
        myers_diff(&lines(&["x", "y"]), &[]),
        vec![Edit::Delete("x".to_string()), Edit::Delete("y".to_string())]
    );
}

#[test]
fn diff_looks_ahead_in_new_text() {
    let edits = myers_diff(&lines(&["a", "d"]), &lines(&["b", "c", "a", "d"]));
    assert_eq!(
        edits,
        vec![
            Edit::Insert("b".to_string()),
            Edit::Insert("c".to_string()),
            Edit::Keep("a".to_string()),
            Edit::Keep("d".to_string()),
        ]
    );
}

#[test]
fn diff_looks_back_in_old_text() {
    let edits = myers_diff(&lines(&["b", "c", "a"]), &lines(&["a"]));
    assert_eq!(
        edits,
        vec![
            Edit::Delete("b".to_string()),
            Edit::Delete("c".to_string()),
            Edit::Keep("a".to_string()),
        ]
    );
}

#[test]
fn diff_window_is_nine_lines() {
    // the wanted line stands ten lines ahead: outside the window
    let old = lines(&["k"]);
    let new = lines(&["1", "2", "3", "4", "5", "6", "7", "8", "9", "10", "k"]);
    let edits = myers_diff(&old, &new);
    assert_eq!(edits[0], Edit::Delete("k".to_string()));
    assert_eq!(edits[1], Edit::Insert("1".to_string()));
    assert_eq!(edits.len(), 12);

    // nine lines ahead: inside
    let new = lines(&["1", "2", "3", "4", "5", "6", "7", "8", "9", "k"]);
    let edits = myers_diff(&old, &new);
    assert_eq!(edits.len(), 10);
    assert_eq!(edits[9], Edit::Keep("k".to_string()));
}

#[test]
fn diff_script_rebuilds_both_texts() {
    let old = lines(&["one", "two", "three", "four", "five"]);
    let new = lines(&["zero", "one", "three", "4", "five", "six"]);
    let edits = myers_diff(&old, &new);
    let mut old_side = Vec::new();
    let mut new_side = Vec::new();
    for e in &edits {
        match e {
            Edit::Keep(l) => {
                old_side.push(l.clone());
                new_side.push(l.clone());
            }
            Edit::Delete(l) => old_side.push(l.clone()),
            Edit::Insert(l) => new_side.push(l.clone()),
        }
    }
    assert_eq!(old_side, old);
    assert_eq!(new_side, new);
}

#[test]
fn unified_diff_text() {
    let old = lines(&["a", "b", "c"]);
    let new = lines(&["a", "x", "c"]);
    let edits = myers_diff(&old, &new);
    let text = format_unified_diff("f.txt", &old, &new, &edits);
    assert_eq!(text, "--- a/f.txt\n+++ b/f.txt\n@@ -2,1 +2,1 @@\n-b\n+x");
}

#[test]
fn unified_diff_of_new_file() {
    let new = lines(&["x", "y"]);
    let edits = myers_diff(&[], &new);
    let text = format_unified_diff("n", &[], &new, &edits);
    assert_eq!(text, "--- a/n\n+++ b/n\n@@ -1,0 +1,2 @@\n+x\n+y");
}

#[test]
fn unified_diff_without_changes() {
    let same = lines(&["a"]);
    let edits = myers_diff(&same, &same);
    assert!(!has_changes(&edits));
    assert_eq!(format_unified_diff("p", &same, &same, &edits), "--- a/p\n+++ b/p");
    assert!(has_changes(&myers_diff(&same, &[])));
}

#[test]
fn unified_diff_two_hunks() {
    let old = lines(&["a", "b", "c", "d"]);
    let new = lines(&["A", "b", "c", "D"]);
    let edits = myers_diff(&old, &new);
    let text = format_unified_diff("t", &old, &new, &edits);
    assert_eq!(
        text,
        "--- a/t\n+++ b/t\n@@ -1,1 +1,1 @@\n-a\n+A\n@@ -4,1 +4,1 @@\n-d\n+D"
    );
}

#[test]
fn split_lines_of_content() {
    assert_eq!(split_lines(b"a\nb\r\nc"), lines(&["a", "b", "c"]));
    assert_eq!(split_lines(b"a\n"), lines(&["a"]));
    assert_eq!(split_lines(b""), Vec::<String>::new());
    assert_eq!(split_lines(b"\n\n"), lines(&["", ""]));
    assert_eq!(split_lines(b"a\r"), lines(&["a\r"]));
    assert_eq!(split_lines(&[0x61, 0xFF, 0x0A, 0x62]), lines(&["a\u{FFFD}", "b"]));
}
