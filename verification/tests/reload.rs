use himark::diff::{hunks, spans, Hunk};
use himark::lcs::{lcs_steps, Step, CELL_CAP};
use himark::lines::lines;
use himark::merge::merged;

fn apply(old: &str, hunks: &[Hunk]) -> String {
    let mut out = String::new();
    let mut pos = 0usize;
    for hunk in hunks {
        out.push_str(&old[pos..hunk.start]);
        out.push_str(&hunk.text);
        pos = hunk.end;
    }
    out.push_str(&old[pos..]);
    out
}

#[test]
fn the_line_diff_reconstructs_the_target() {
    let cases = [
        ("a\nb\nc\n", "a\nB\nc\n"),
        ("a\nb\nc\n", "a\nb\nc\nd\n"),
        ("a\nb\nc\n", "b\nc\n"),
        ("", "fresh\n"),
        ("gone\n", ""),
        ("x\ny\nz\n", "z\ny\nx\n"),
        ("a\nb\na\nb\n", "a\nb\nX\na\nb\n"),
        ("no trailing newline", "no trailing newline at all"),
    ];
    for (old, new) in cases {
        assert_eq!(apply(old, &hunks(old, new)), new, "{old:?} -> {new:?}");
    }
}

#[test]
fn disjoint_edits_merge_from_both_sides() {
    let base = "top\nmid\nbottom\n";
    let ours = "OURS\nmid\nbottom\n";
    let theirs = "top\nmid\nTHEIRS\n";
    assert_eq!(merged(base, ours, theirs), "OURS\nmid\nTHEIRS\n");
}

#[test]
fn the_shared_change_lands_once() {
    let base = "a\nb\n";
    let both = "a\nSHARED\nb\n";
    assert_eq!(merged(base, both, both), both);
}

#[test]
fn a_conflict_drops_nobodys_bytes() {
    let base = "a\nMID\nb\n";
    let ours = "a\nOURS\nb\n";
    let theirs = "a\nTHEIRS\nb\n";
    let merge = merged(base, ours, theirs);
    assert!(
        merge.contains("OURS") && merge.contains("THEIRS"),
        "{merge:?}"
    );
}

#[test]
fn a_prefix_of_the_shared_change_is_not_doubled() {
    let base = "a\nb\n";
    let ours = "a\nONE\nTWO\nb\n";
    let theirs = "a\nONE\nb\n";
    assert_eq!(merged(base, ours, theirs), "a\nONE\nTWO\nb\n");
}

#[test]
fn a_replaced_line_is_one_hunk_over_its_bytes() {
    let got = hunks("a\nb\nc\n", "a\nB\nc\n");
    assert_eq!(
        got,
        vec![Hunk {
            start: 2,
            end: 4,
            text: "B\n".to_string()
        }]
    );
}

#[test]
fn hunk_offsets_count_bytes_not_characters() {
    let got = hunks("é\nß\n", "é\nü\n");
    assert_eq!(
        got,
        vec![Hunk {
            start: 3,
            end: 6,
            text: "ü\n".to_string()
        }]
    );
    assert_eq!(apply("é\nß\n", &got), "é\nü\n");
}

#[test]
fn a_text_against_itself_has_no_hunks() {
    assert!(hunks("same\ntext\n", "same\ntext\n").is_empty());
    assert!(hunks("", "").is_empty());
}

#[test]
fn an_insertion_and_a_deletion_stay_apart() {
    let old = "a\nb\nc\nd\n";
    let new = "a\nX\nb\nd\n";
    let got = hunks(old, new);
    assert_eq!(
        got,
        vec![
            Hunk {
                start: 2,
                end: 2,
                text: "X\n".to_string()
            },
            Hunk {
                start: 4,
                end: 6,
                text: String::new()
            },
        ]
    );
    assert_eq!(apply(old, &got), new);
}

#[test]
fn an_unaffordable_middle_is_one_replacement() {
    let mut old = String::new();
    let mut new = String::new();
    for line in 0..1001 {
        old.push_str(&format!("old {line}\n"));
        new.push_str(&format!("new {line}\n"));
    }
    let got = hunks(&old, &new);
    assert_eq!(got.len(), 1);
    assert_eq!(got[0].start, 0);
    assert_eq!(got[0].end, old.len());
    assert_eq!(got[0].text, new);
    assert!(1001 * 1001 > CELL_CAP);
}

#[test]
fn spans_carry_the_hunks() {
    let old = "a\nb\nc\n";
    let new = "a\nB\nc\nd\n";
    let got = spans(old, new);
    let expected = hunks(old, new);
    assert_eq!(got.len(), expected.len());
    for (span, hunk) in got.iter().zip(expected.iter()) {
        assert_eq!(span.start, hunk.start);
        assert_eq!(span.end, hunk.end);
        assert_eq!(span.text, hunk.text);
    }
}

#[test]
fn lines_keep_their_newlines() {
    assert_eq!(lines("a\nbc\n\nd"), vec!["a\n", "bc\n", "\n", "d"]);
    assert_eq!(lines("ä\n€"), vec!["ä\n", "€"]);
    assert!(lines("").is_empty());
}

#[test]
fn the_script_keeps_the_common_line() {
    let old = vec!["a\n", "b\n"];
    let new = vec!["b\n", "c\n"];
    let got = lcs_steps(&old, &new).expect("affordable");
    assert_eq!(got, vec![Step::Delete, Step::Keep, Step::Insert]);
}

#[test]
fn the_script_is_refused_past_the_cap() {
    let old = vec!["x\n"; 1001];
    let new = vec!["x\n"; 1000];
    assert!(lcs_steps(&old, &new).is_none());
    let new = vec!["x\n"; 999];
    assert!(lcs_steps(&old, &new).is_some());
}

#[test]
fn an_unchanged_side_yields_the_other() {
    let base = "one\ntwo\nthree\n";
    let changed = "one\n2\nthree\nfour\n";
    assert_eq!(merged(base, changed, base), changed);
    assert_eq!(merged(base, base, changed), changed);
}

#[test]
fn overlapping_edits_replace_the_union_ours_first() {
    let base = "a\nb\nc\nd\n";
    let ours = "a\nX\nd\n";
    let theirs = "a\nb\nY\n";
    assert_eq!(merged(base, ours, theirs), "a\nX\nY\n");
}

#[test]
fn the_same_span_with_unrelated_texts_keeps_both() {
    let base = "a\nMID\nb\n";
    let ours = "a\nOURS\nb\n";
    let theirs = "a\nTHEIRS\nb\n";
    assert_eq!(merged(base, ours, theirs), "a\nOURS\nTHEIRS\nb\n");
}
