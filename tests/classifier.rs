use bayesic_nif::{ClassScore, Classifier};

fn strings(words: &[&str]) -> Vec<String> {
    words.iter().map(|w| w.to_string()).collect()
}

fn score(s: &ClassScore) -> f64 {
    let mut total = (s.docs as f64 / s.doc_sum as f64).ln();
    for k in &s.token_counts {
        total += ((*k as f64 + 1.0) / (s.class_total + s.vocabulary_size) as f64).ln();
    }
    total
}

fn find<'a>(scores: &'a [ClassScore], class: &str) -> &'a ClassScore {
    scores.iter().find(|s| s.class == class).unwrap()
}

#[test]
fn empty_model_classifies_to_nothing() {
    let c = Classifier::new();
    assert!(c.classify(strings(&["a", "b"])).is_empty());
    assert!(c.classify(vec![]).is_empty());
}

#[test]
fn training_counts_tokens_and_examples() {
    let mut c = Classifier::new();
    c.train("spam".to_string(), strings(&["buy", "now", "buy"]));
    c.train("ham".to_string(), strings(&["hello"]));
    let r = c.classify(strings(&["buy", "now", "hello", "zzz"]));
    assert_eq!(r.len(), 2);
    assert_eq!(r[0].class, "spam");
    assert_eq!(r[1].class, "ham");
    let spam = &r[0];
    assert_eq!(spam.docs, 1);
    assert_eq!(spam.doc_sum, 2);
    assert_eq!(spam.class_total, 3);
    assert_eq!(spam.vocabulary_size, 3);
    assert_eq!(spam.token_counts, vec![2, 1, 0, 0]);
    let ham = &r[1];
    assert_eq!(ham.class_total, 1);
    assert_eq!(ham.token_counts, vec![0, 0, 1, 0]);
}

#[test]
fn exact_score_value() {
    let mut c = Classifier::new();
    c.train("a".to_string(), strings(&["x", "x", "y"]));
    c.train("b".to_string(), strings(&["y"]));
    let r = c.classify(strings(&["x"]));
    // prior 1/2, likelihood (2 + 1) / (3 + 2)
    let expected = (0.5f64).ln() + (3.0f64 / 5.0).ln();
    assert!((score(find(&r, "a")) - expected).abs() < 1e-12);
    // prior 1/2, likelihood (0 + 1) / (1 + 2)
    let expected_b = (0.5f64).ln() + (1.0f64 / 3.0).ln();
    assert!((score(find(&r, "b")) - expected_b).abs() < 1e-12);
}

#[test]
fn empty_example_counts_only_the_prior() {
    let mut c = Classifier::new();
    c.train("a".to_string(), strings(&["x"]));
    let before = c.classify(strings(&["x"]));
    c.train("a".to_string(), vec![]);
    let after = c.classify(strings(&["x"]));
    assert_eq!(after[0].docs, before[0].docs + 1);
    assert_eq!(after[0].class_total, before[0].class_total);
    assert_eq!(after[0].token_counts, before[0].token_counts);
    assert_eq!(after[0].vocabulary_size, before[0].vocabulary_size);
}

#[test]
fn empty_example_creates_class() {
    let mut c = Classifier::new();
    c.train("only".to_string(), vec![]);
    let r = c.classify(vec![]);
    assert_eq!(r.len(), 1);
    assert_eq!(r[0].docs, 1);
    assert_eq!(r[0].class_total, 0);
    assert_eq!(r[0].vocabulary_size, 0);
}

#[test]
fn repeated_training_multiplies_counts() {
    let mut once = Classifier::new();
    once.train("c".to_string(), strings(&["p", "q", "p"]));
    let mut many = Classifier::new();
    for _ in 0..5 {
        many.train("c".to_string(), strings(&["p", "q", "p"]));
    }
    let a = &once.classify(strings(&["p", "q"]))[0];
    let b = &many.classify(strings(&["p", "q"]))[0];
    assert_eq!(b.docs, 5 * a.docs);
    assert_eq!(b.class_total, 5 * a.class_total);
    assert_eq!(b.token_counts, vec![5 * a.token_counts[0], 5 * a.token_counts[1]]);
    assert_eq!(b.token_counts, vec![10, 5]);
}

#[test]
fn empty_input_ranks_by_prior() {
    let mut c = Classifier::new();
    for _ in 0..3 {
        c.train("common".to_string(), strings(&["a"]));
    }
    c.train("rare".to_string(), strings(&["b", "c", "d"]));
    let r = c.classify(vec![]);
    assert!(score(find(&r, "common")) > score(find(&r, "rare")));
    assert!((score(find(&r, "common")) - (0.75f64).ln()).abs() < 1e-12);
    assert!((score(find(&r, "rare")) - (0.25f64).ln()).abs() < 1e-12);
}

#[test]
fn discriminative_separation() {
    let mut c = Classifier::new();
    for _ in 0..10 {
        c.train("spam".to_string(), strings(&["buy", "now"]));
    }
    for _ in 0..10 {
        c.train("ham".to_string(), strings(&["hello", "friend"]));
    }
    let r = c.classify(strings(&["buy"]));
    assert!(score(find(&r, "spam")) > score(find(&r, "ham")));
    let r = c.classify(strings(&["hello"]));
    assert!(score(find(&r, "ham")) > score(find(&r, "spam")));
}

#[test]
fn unseen_token_keeps_ties_and_order() {
    let mut c = Classifier::new();
    c.train("a".to_string(), strings(&["x", "y"]));
    c.train("b".to_string(), strings(&["z", "w"]));
    let r = c.classify(strings(&["x", "z"]));
    let tie = score(find(&r, "a")) - score(find(&r, "b"));
    assert!(tie.abs() < 1e-12);
    let r = c.classify(strings(&["x", "z", "never"]));
    let still = score(find(&r, "a")) - score(find(&r, "b"));
    assert!(still.abs() < 1e-12);
    let r = c.classify(strings(&["x", "never"]));
    assert!(score(find(&r, "a")) > score(find(&r, "b")));
    assert_eq!(find(&r, "a").token_counts[1], 0);
    assert_eq!(find(&r, "b").token_counts[1], 0);
}

fn pruning_fixture() -> Classifier {
    let mut c = Classifier::new();
    c.train("a".to_string(), strings(&["shared", "only_a", "mostly_a", "mostly_a", "mostly_a"]));
    c.train("b".to_string(), strings(&["shared", "only_b", "mostly_a"]));
    c
}

#[test]
fn prune_at_zero_keeps_everything() {
    let mut c = pruning_fixture();
    let probe = strings(&["shared", "only_a", "only_b", "mostly_a"]);
    let before = c.classify(probe.clone());
    c.prune(0, 1);
    let after = c.classify(probe);
    for (x, y) in before.iter().zip(after.iter()) {
        assert_eq!(x.token_counts, y.token_counts);
        assert_eq!(x.class_total, y.class_total);
        assert_eq!(x.vocabulary_size, 4);
        assert_eq!(y.vocabulary_size, 4);
    }
}

#[test]
fn prune_at_one_removes_tokens_of_several_classes() {
    let mut c = pruning_fixture();
    c.prune(1, 1);
    let r = c.classify(strings(&["shared", "only_a", "only_b", "mostly_a"]));
    let a = find(&r, "a");
    let b = find(&r, "b");
    assert_eq!(a.vocabulary_size, 2);
    assert_eq!(a.token_counts, vec![0, 1, 0, 0]);
    assert_eq!(b.token_counts, vec![0, 0, 1, 0]);
    assert_eq!(a.class_total, 1);
    assert_eq!(b.class_total, 1);
    assert_eq!(a.docs, 1);
    assert_eq!(b.docs, 1);
}

#[test]
fn prune_at_intermediate_threshold() {
    let mut c = pruning_fixture();
    // shares: shared 1/2, only_a 1, only_b 1, mostly_a 3/4; threshold 2/3
    c.prune(2, 3);
    let r = c.classify(strings(&["shared", "only_a", "only_b", "mostly_a"]));
    let a = find(&r, "a");
    let b = find(&r, "b");
    assert_eq!(a.vocabulary_size, 3);
    assert_eq!(a.token_counts, vec![0, 1, 0, 3]);
    assert_eq!(b.token_counts, vec![0, 0, 1, 1]);
    assert_eq!(a.class_total, 4);
    assert_eq!(b.class_total, 2);
}

#[test]
fn room_for_training() {
    let mut c = Classifier::new();
    assert!(c.has_room(&"a".to_string(), 10));
    c.train("a".to_string(), strings(&["x"]));
    assert!(c.has_room(&"a".to_string(), (u64::MAX - 1) as usize));
    assert!(!c.has_room(&"a".to_string(), u64::MAX as usize));
    assert!(c.has_room(&"b".to_string(), u64::MAX as usize));
}

#[test]
fn prune_at_uniform_floor_keeps_everything() {
    let mut c = pruning_fixture();
    // two classes: the floor is 1/2, and "shared" sits exactly on it
    c.prune(1, 2);
    let r = c.classify(strings(&["shared", "only_a", "only_b", "mostly_a"]));
    let a = find(&r, "a");
    assert_eq!(a.vocabulary_size, 4);
    assert_eq!(a.token_counts, vec![1, 1, 0, 3]);
    assert_eq!(a.class_total, 5);
    c.prune(501, 1000);
    let r = c.classify(strings(&["shared"]));
    assert_eq!(r[0].vocabulary_size, 3);
    assert_eq!(r[0].token_counts, vec![0]);
    assert_eq!(r[0].class_total, 4);
}
