use always_on_memory::binary64::Binary64;
use always_on_memory::math::{cosine_similarity, jaccard_set, jaccard_similarity};
use always_on_memory::ranking::{rank, rank_top};
use always_on_memory::wordset::word_set;

fn nums(list: &[f64]) -> Vec<Binary64> {
    list.iter().map(|x| Binary64::from_bits(x.to_bits())).collect()
}

fn list(items: &[&str]) -> Vec<String> {
    items.iter().map(|s| s.to_string()).collect()
}

fn float(x: Binary64) -> f64 {
    f64::from_bits(x.to_bits())
}

#[test]
fn jaccard_is_the_share_in_common() {
    assert_eq!(float(jaccard_similarity(&list(&["a", "b"]), &list(&["b", "c"]))), 1.0 / 3.0);
    assert_eq!(float(jaccard_similarity(&list(&["a", "a", "b"]), &list(&["B", "A"]))), 1.0);
    assert_eq!(float(jaccard_similarity(&list(&["a"]), &list(&[]))), 0.0);
    assert_eq!(float(jaccard_similarity(&list(&[]), &list(&[]))), 0.0);
    assert_eq!(float(jaccard_set(&word_set("a b c"), &word_set("c d"))), 0.25);
    // Sets are compared as they are.
    assert_eq!(float(jaccard_set(&word_set("A"), &word_set("a"))), 0.0);
}

#[test]
fn jaccard_is_the_same_both_ways() {
    let (a, b) = (list(&["x", "y", "z"]), list(&["z", "w"]));
    assert_eq!(jaccard_similarity(&a, &b), jaccard_similarity(&b, &a));
}

#[test]
fn jaccard_is_one_for_the_same_texts_alone() {
    let a = list(&["Rust", "ai", "memory"]);
    assert_eq!(float(jaccard_similarity(&a, &list(&["memory", "AI", "rust", "ai"]))), 1.0);
    assert!(float(jaccard_similarity(&a, &list(&["memory", "AI"]))) < 1.0);
    let many: Vec<String> = (0..400).map(|i| i.to_string()).collect();
    assert_eq!(float(jaccard_similarity(&many, &many[1..].to_vec())), 399.0 / 400.0);
    // Order, repetition and case do not matter.
    let b = list(&["ai", "bread"]);
    let again = list(&["MEMORY", "rust", "AI", "Ai", "memory"]);
    assert_eq!(jaccard_similarity(&a, &b), jaccard_similarity(&again, &b));
    assert_eq!(jaccard_similarity(&b, &a), jaccard_similarity(&b, &again));
}

#[test]
fn cosine_is_that_of_the_angle() {
    let (a, b) = ([0.8, 0.3, 0.6], [-0.5, 0.9, -0.2]);
    let dot: f64 = a.iter().zip(b.iter()).map(|(x, y)| x * y).sum();
    let ma = a.iter().map(|x| x * x).sum::<f64>().sqrt();
    let mb = b.iter().map(|x| x * x).sum::<f64>().sqrt();
    assert_eq!(float(cosine_similarity(&nums(&a), &nums(&b))), dot / (ma * mb));
    assert_eq!(float(cosine_similarity(&nums(&[1.0, 0.0]), &nums(&[0.0, 1.0]))), 0.0);
    assert_eq!(float(cosine_similarity(&nums(&[1.0, 1.0]), &nums(&[-1.0, -1.0]))), -1.0 / (2f64.sqrt() * 2f64.sqrt()) * 2.0);
}

#[test]
fn cosine_looks_at_the_shorter_length() {
    let short = nums(&[0.6, 0.8]);
    let long = nums(&[0.6, 0.8, 5.0, -3.0]);
    assert_eq!(cosine_similarity(&short, &long), cosine_similarity(&short, &short));
    assert_eq!(cosine_similarity(&long, &short), cosine_similarity(&short, &short));
    assert_eq!(float(cosine_similarity(&short, &long)), 1.0);
}

#[test]
fn cosine_of_nothing_is_zero() {
    assert_eq!(float(cosine_similarity(&nums(&[]), &nums(&[1.0]))), 0.0);
    assert_eq!(float(cosine_similarity(&nums(&[0.0, 0.0]), &nums(&[1.0, 2.0]))), 0.0);
    // The shorter length leaves nothing but zeros.
    assert_eq!(float(cosine_similarity(&nums(&[0.0, 7.0]), &nums(&[1.0]))), 0.0);
}

#[test]
fn ranking_goes_from_the_highest_down_and_keeps_ties() {
    assert_eq!(rank(&nums(&[0.1, 0.9, 0.5, 0.9, 0.1])), vec![1, 3, 2, 0, 4]);
    assert_eq!(rank(&nums(&[])), Vec::<usize>::new());
    assert_eq!(rank(&nums(&[0.0, -0.0, 1.0])), vec![2, 0, 1]);
    assert_eq!(rank(&nums(&[f64::NAN, -1.0, f64::INFINITY])), vec![2, 1, 0]);
    assert_eq!(rank_top(&nums(&[0.1, 0.9, 0.5]), 2), vec![1, 2]);
    assert_eq!(rank_top(&nums(&[0.1, 0.9, 0.5]), 7), vec![1, 2, 0]);
}

#[test]
fn ranking_is_a_stable_sort() {
    let mut state: u64 = 7;
    let mut keys: Vec<f64> = vec![];
    for _ in 0..300 {
        state ^= state << 13;
        state ^= state >> 7;
        state ^= state << 17;
        keys.push((state % 40) as f64 / 40.0);
    }
    let mut expected: Vec<usize> = (0..keys.len()).collect();
    expected.sort_by(|&a, &b| keys[b].partial_cmp(&keys[a]).unwrap());
    assert_eq!(rank(&nums(&keys)), expected);
}
