use text_mirror::subst::{apply_one, find_first, pair_accepted, pairs_accepted, replace_all, splice, try_replace_all};

fn chars(s: &str) -> Vec<char> {
    s.chars().collect()
}

fn from_chars(v: &[char]) -> String {
    v.iter().collect()
}

#[test]
fn ordering_first_pair_output_feeds_second() {
    let pairs = vec![("a".to_string(), "b".to_string()), ("b".to_string(), "c".to_string())];
    let mut text = "a".to_string();
    replace_all(pairs, &mut text);
    assert_eq!(text, "c");
}

#[test]
fn single_pair_leaves_no_occurrence() {
    let mut text = chars("aabb");
    apply_one(&chars("ab"), &chars("X"), &mut text);
    let out = from_chars(&text);
    assert_eq!(out, "aXb");
    assert!(!out.contains("ab"));
}

#[test]
fn replacement_restarts_from_the_beginning() {
    let mut text = chars("aaaa");
    apply_one(&chars("aa"), &chars("b"), &mut text);
    assert_eq!(from_chars(&text), "bb");
}

#[test]
fn shrinking_replacement_can_create_new_matches() {
    // Removing "ab" from "aabb" exposes a fresh "ab" across the seam.
    let mut text = chars("aabb");
    apply_one(&chars("ab"), &chars(""), &mut text);
    assert_eq!(from_chars(&text), "");
}

#[test]
fn every_occurrence_is_replaced() {
    let mut text = "banana".to_string();
    replace_all(vec![("a".to_string(), "o".to_string())], &mut text);
    assert_eq!(text, "bonono");
}

#[test]
fn empty_pair_list_changes_nothing() {
    let mut text = "anything".to_string();
    replace_all(Vec::new(), &mut text);
    assert_eq!(text, "anything");
}

#[test]
fn hazard_pair_is_rejected() {
    // The documented infinite-loop hazard: ("a", "aa") applied to text
    // containing "a" never finishes, so the engine refuses the pair.
    assert!(!pair_accepted(&"a".to_string(), &"aa".to_string()));
    assert!(!pair_accepted(&"".to_string(), &"x".to_string()));
    assert!(pair_accepted(&"ab".to_string(), &"".to_string()));
    assert!(pair_accepted(&"a".to_string(), &"b".to_string()));
    assert!(pair_accepted(&"abc".to_string(), &"xy".to_string()));
}

#[test]
fn ordinary_overlapping_pairs_are_accepted() {
    // Equal or growing replacements that share characters with the pattern
    // are fine as long as no seam can recreate the pattern.
    assert!(pair_accepted(&"teh".to_string(), &"the".to_string()));
    assert!(pair_accepted(&"color".to_string(), &"colour".to_string()));
    assert!(pair_accepted(&"cat".to_string(), &"dog s".to_string()));
    // A replacement whose seam can recreate the pattern is refused: the
    // suffix "a" of "ba" is a prefix of "ab".
    assert!(!pair_accepted(&"ab".to_string(), &"ba".to_string()));
    // A replacement containing its pattern, one character longer.
    assert!(!pair_accepted(&"ab".to_string(), &"abc".to_string()));
}

#[test]
fn typo_fix_runs_to_completion() {
    let mut text = "teh cat and teh dog".to_string();
    replace_all(vec![("teh".to_string(), "the".to_string())], &mut text);
    assert_eq!(text, "the cat and the dog");
}

#[test]
fn growing_replacement_runs_to_completion() {
    let mut text = "color colors".to_string();
    replace_all(vec![("color".to_string(), "colour".to_string())], &mut text);
    assert_eq!(text, "colour colours");
}

#[test]
fn pair_list_is_rejected_with_one_bad_pair() {
    let good = vec![("a".to_string(), "b".to_string())];
    assert!(pairs_accepted(&good));
    let bad = vec![("a".to_string(), "b".to_string()), ("a".to_string(), "aa".to_string())];
    assert!(!pairs_accepted(&bad));
}

#[test]
fn guarded_replacement_refuses_the_hazard() {
    let mut text = "aaa".to_string();
    let hazard = vec![("a".to_string(), "aa".to_string())];
    assert!(!try_replace_all(hazard, &mut text));
    assert_eq!(text, "aaa");
    let fine = vec![("a".to_string(), "b".to_string())];
    assert!(try_replace_all(fine, &mut text));
    assert_eq!(text, "bbb");
}

#[test]
fn unmatched_pairs_leave_the_text_alone() {
    let mut text = "hello".to_string();
    replace_all(
        vec![("xyz".to_string(), "q".to_string()), ("zz".to_string(), "y".to_string())],
        &mut text,
    );
    assert_eq!(text, "hello");
}

#[test]
fn pair_lists_compose_sequentially() {
    let mut split = "a".to_string();
    replace_all(vec![("a".to_string(), "b".to_string())], &mut split);
    replace_all(vec![("b".to_string(), "c".to_string())], &mut split);
    let mut joined = "a".to_string();
    replace_all(
        vec![("a".to_string(), "b".to_string()), ("b".to_string(), "c".to_string())],
        &mut joined,
    );
    assert_eq!(split, joined);
}

#[test]
fn find_first_is_leftmost() {
    assert_eq!(find_first(&chars("xabab"), &chars("ab")), Some(1));
    assert_eq!(find_first(&chars("xyz"), &chars("ab")), None);
    assert_eq!(find_first(&chars("ab"), &chars("abc")), None);
}

#[test]
fn splice_replaces_the_range() {
    let out = splice(&chars("hello"), 1, 3, &chars("XY"));
    assert_eq!(from_chars(&out), "hXYo");
}
