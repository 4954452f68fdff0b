use patchlib::bestmatch::bestmatch;

fn sv(xs: &[&str]) -> Vec<String> {
    xs.iter().map(|x| x.to_string()).collect()
}

#[test]
fn test_bestmatch_simple() {
    // One replaced line costs one deletion plus one insertion.
    let a = sv(&["a", "b", "c", "d"]);
    let b = sv(&["a", "x", "c", "d"]);
    let (changes, matched) = bestmatch(&a, &b, 2, 2);
    assert_eq!(changes, 2);
    assert_eq!(matched, 4);
}

#[test]
fn test_bestmatch_exact_match() {
    let a = sv(&["a", "b", "c"]);
    let b = sv(&["a", "b", "c"]);
    let (changes, matched) = bestmatch(&a, &b, 3, 3);
    assert_eq!(changes, 0);
    assert_eq!(matched, 3);
}

#[test]
fn test_bestmatch_no_match() {
    let a = sv(&["a", "b", "c"]);
    let b = sv(&["x", "y", "z"]);
    let (changes, matched) = bestmatch(&a, &b, 1, 2);
    assert_eq!(changes, 3);
    assert_eq!(matched, 0);
}

#[test]
fn test_bestmatch_identity_zero_budget() {
    // Matching a sequence against itself needs no edits even with budget 0.
    let a = sv(&["alpha", "beta", "gamma", "delta"]);
    let (changes, matched) = bestmatch(&a, &a, 4, 0);
    assert_eq!(changes, 0);
    assert_eq!(matched, 4);
}

#[test]
fn test_bestmatch_budget_stable() {
    // Once the budget admits a solution, enlarging it changes nothing.
    let a = sv(&["a", "b", "c", "d"]);
    let b = sv(&["a", "x", "c", "d"]);
    let small = bestmatch(&a, &b, 2, 2);
    let large = bestmatch(&a, &b, 2, 10);
    assert_eq!(small, large);
    let huge = bestmatch(&a, &b, 2, 50);
    assert_eq!(large, huge);
}

#[test]
fn test_bestmatch_prefix_of_longer() {
    // `a` is a full prefix of `b`: the fast path reports zero edits.
    let a = sv(&["a", "b"]);
    let b = sv(&["a", "b", "c", "d"]);
    let (changes, matched) = bestmatch(&a, &b, 2, 3);
    assert_eq!(changes, 0);
    assert_eq!(matched, 2);
}

#[test]
fn test_bestmatch_failure_reports_budget_plus_one() {
    let a = sv(&["p", "q", "r", "s"]);
    let b = sv(&["w", "x", "y", "z"]);
    let (changes, matched) = bestmatch(&a, &b, 1, 3);
    assert_eq!(changes, 4);
    assert_eq!(matched, 0);
}
