use rvc::diff3::{diff3_merge, diff_chunks, lcs, try_diff3_merge};

fn lines(v: &[&str]) -> Vec<String> {
    v.iter().map(|s| s.to_string()).collect()
}

#[test]
fn lcs_of_two_lists() {
    let a = lines(&["a", "b", "c", "d"]);
    let b = lines(&["b", "x", "d"]);
    assert_eq!(lcs(&a, &b), lines(&["b", "d"]));
}

#[test]
fn lcs_with_empty_side() {
    let a = lines(&["a"]);
    assert_eq!(lcs(&a, &[]), Vec::<String>::new());
}

#[test]
fn chunks_of_a_change() {
    let base = lines(&["a", "b", "c"]);
    let new = lines(&["a", "B", "c", "d"]);
    let cs = diff_chunks(&base, &new);
    assert_eq!(cs.len(), 2);
    assert_eq!((cs[0].base_start, cs[0].base_end), (1, 2));
    assert_eq!(cs[0].lines, lines(&["B"]));
    assert_eq!((cs[1].base_start, cs[1].base_end), (3, 3));
    assert_eq!(cs[1].lines, lines(&["d"]));
}

#[test]
fn chunks_of_equal_lists_are_none() {
    let base = lines(&["a", "b"]);
    assert_eq!(diff_chunks(&base, &base).len(), 0);
}

#[test]
fn merge_takes_both_sides_changes() {
    let base = lines(&["a", "b", "c"]);
    let local = lines(&["a", "B", "c"]);
    let remote = lines(&["a", "b", "C"]);
    let (merged, conflict) = diff3_merge(&base, &local, &remote);
    assert_eq!(merged, lines(&["a", "B", "C"]));
    assert!(!conflict);
}

#[test]
fn merge_of_unchanged_remote_is_local() {
    let base = lines(&["a", "b"]);
    let local = lines(&["a", "x", "b", "y"]);
    let (merged, conflict) = diff3_merge(&base, &local, &base);
    assert_eq!(merged, local);
    assert!(!conflict);
}

#[test]
fn merge_of_same_change_is_taken_once() {
    let base = lines(&["a", "b"]);
    let side = lines(&["a", "c"]);
    let (merged, conflict) = diff3_merge(&base, &side, &side);
    assert_eq!(merged, side);
    assert!(!conflict);
}

#[test]
fn merge_marks_conflicts() {
    let base = lines(&["a", "b", "c"]);
    let local = lines(&["a", "L", "c"]);
    let remote = lines(&["a", "R", "c"]);
    let (merged, conflict) = diff3_merge(&base, &local, &remote);
    assert!(conflict);
    assert_eq!(
        merged,
        lines(&["a", "<<<<<<< LOCAL", "L", "=======", "R", ">>>>>>> REMOTE", "c"])
    );
}

#[test]
fn try_merge_agrees_when_defined() {
    let base = lines(&["a", "b", "c"]);
    let local = lines(&["a", "L", "c"]);
    let remote = lines(&["a", "b", "c", "d"]);
    let r = try_diff3_merge(&base, &local, &remote).unwrap();
    assert_eq!(r.0, lines(&["a", "L", "c", "d"]));
    assert!(!r.1);
}

#[test]
fn swapping_sides_keeps_flag_and_clean_result() {
    let base = lines(&["a", "b", "c", "d"]);
    let local = lines(&["a", "B", "c", "d"]);
    let remote = lines(&["a", "b", "c", "D"]);
    let (m1, c1) = diff3_merge(&base, &local, &remote);
    let (m2, c2) = diff3_merge(&base, &remote, &local);
    assert!(!c1 && !c2);
    assert_eq!(m1, m2);
    let remote = lines(&["a", "X", "c", "d"]);
    let (_, c1) = diff3_merge(&base, &local, &remote);
    let (_, c2) = diff3_merge(&base, &remote, &local);
    assert!(c1 && c2);
}
