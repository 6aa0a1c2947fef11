use boggle::{BoggleSolver, TrieNode};

fn grid(rows: &[&str]) -> Vec<Vec<char>> {
    rows.iter().map(|r| r.chars().collect()).collect()
}

fn words(ws: &[&str]) -> Vec<String> {
    ws.iter().map(|w| w.to_string()).collect()
}

fn solve_with(rows: &[&str], dict: &[&str]) -> (usize, Vec<String>) {
    let solver = BoggleSolver::new(grid(rows), &words(dict));
    solver.solve()
}

const EXAMPLE: [&str; 4] = ["SRPS", "EUIM", "EAHW", "WDZR"];

#[test]
fn example_grid_finds_adjacent_words() {
    // SEA: S(0,0) E(1,0) A(2,1); SPUR: S(0,3) P(0,2) U(1,1) R(0,1).
    // RISE has no trail: no E is adjacent to the only S reachable from I.
    let (total, top) = solve_with(&EXAMPLE, &["SEA", "RISE", "SPUR"]);
    assert_eq!(total, 2);
    assert_eq!(top, vec!["SPUR".to_string(), "SEA".to_string()]);
    assert!(!top.contains(&"RISE".to_string()));
}

#[test]
fn words_not_on_the_adjacency_graph_never_appear() {
    // PIM: P(0,2) I(1,2) M(1,3); RUA: R(0,1) U(1,1) A(2,1).
    // SAW has no trail: no A neighbours either S.
    let (total, top) = solve_with(&EXAMPLE, &["SAW", "PIM", "RUA"]);
    assert_eq!(total, 2);
    assert_eq!(top, vec!["PIM".to_string(), "RUA".to_string()]);
}

#[test]
fn rise_findable_on_a_grid_that_embeds_it() {
    let (total, top) = solve_with(&["RI", "ES"], &["RISE"]);
    assert_eq!(total, 1);
    assert_eq!(top, vec!["RISE".to_string()]);
}

#[test]
fn empty_dictionary_finds_nothing() {
    let (total, top) = solve_with(&EXAMPLE, &[]);
    assert_eq!(total, 0);
    assert!(top.is_empty());
}

#[test]
fn too_short_and_too_long_words_find_nothing() {
    let (total, top) = solve_with(&["AB", "CD"], &["AB", "ABCDABCDABCDABCDA"]);
    assert_eq!(total, 0);
    assert!(top.is_empty());
}

#[test]
fn sixteen_letter_words_are_kept() {
    let (total, top) = solve_with(&["ABCD", "HGFE", "IJKL", "PONM"], &["ABCDEFGHIJKLMNOP"]);
    assert_eq!(total, 1);
    assert_eq!(top, vec!["ABCDEFGHIJKLMNOP".to_string()]);
}

#[test]
fn inserting_twice_behaves_like_inserting_once() {
    let once = solve_with(&EXAMPLE, &["SEA", "SPUR"]);
    let twice = solve_with(&EXAMPLE, &["SEA", "SPUR", "SEA", "SPUR"]);
    assert_eq!(once, twice);
}

#[test]
fn trie_queries_after_repeated_insert() {
    let mut t = TrieNode::new();
    t.insert("SEA");
    t.insert("SEA");
    let s = t.child_for('S').expect("S is a stored prefix");
    let e = s.child_for('E').expect("SE is a stored prefix");
    let a = e.child_for('A').expect("SEA is a stored prefix");
    assert!(a.is_terminal());
    assert!(!e.is_terminal());
    assert!(!s.is_terminal());
    assert!(a.child_for('S').is_none());
    assert!(t.child_for('X').is_none());
    assert!(t.child_for('s').is_none());
}

#[test]
fn word_reachable_by_two_trails_counts_once() {
    // ABA can be traced left-to-right and right-to-left.
    let (total, top) = solve_with(&["ABA"], &["ABA"]);
    assert_eq!(total, 1);
    assert_eq!(top, vec!["ABA".to_string()]);
}

#[test]
fn report_caps_at_six_of_eight_found() {
    let dict = ["ABC", "ABCD", "ABCDE", "ABCDEF", "ABCDEFG", "ABCDEFGH", "BCD", "CDE"];
    let (total, top) = solve_with(&["ABCDEFGH"], &dict);
    assert_eq!(total, 8);
    assert_eq!(
        top,
        vec![
            "ABCDEFGH".to_string(),
            "ABCDEFG".to_string(),
            "ABCDEF".to_string(),
            "ABCDE".to_string(),
            "ABCD".to_string(),
            "ABC".to_string(),
        ]
    );
}

#[test]
fn equal_lengths_rank_in_ascending_lexicographic_order() {
    // every cell of a 2-by-2 grid touches every other
    let (total, top) = solve_with(&["AB", "CD"], &["DAB", "CAB", "BAD", "ABC"]);
    assert_eq!(total, 4);
    assert_eq!(
        top,
        vec!["ABC".to_string(), "BAD".to_string(), "CAB".to_string(), "DAB".to_string()]
    );
}

#[test]
fn longer_words_rank_before_shorter_ones() {
    let (_, top) = solve_with(&["ABCD"], &["BCD", "ABC", "ABCD"]);
    assert_eq!(
        top,
        vec!["ABCD".to_string(), "ABC".to_string(), "BCD".to_string()]
    );
}

#[test]
fn solving_twice_gives_identical_results() {
    let solver = BoggleSolver::new(grid(&EXAMPLE), &words(&["SEA", "SPUR", "WAD", "HIM"]));
    let first = solver.solve();
    let second = solver.solve();
    assert_eq!(first, second);
}

#[test]
fn single_cell_grid_finds_nothing_of_length_three() {
    let (total, top) = solve_with(&["A"], &["AAA"]);
    assert_eq!(total, 0);
    assert!(top.is_empty());
}

#[test]
fn cells_are_not_reused_within_one_word() {
    // ABAB would need the A and B cells twice over
    let (total, _) = solve_with(&["AB"], &["ABAB", "ABA"]);
    assert_eq!(total, 0);
}
