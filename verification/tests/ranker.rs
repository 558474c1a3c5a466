use wordle_entropy::ranker::top_k;

fn score(entropy: f32) -> u32 {
    if entropy > 0.0 {
        entropy.to_bits()
    } else {
        0
    }
}

#[test]
fn top_two_keeps_order_of_tie() {
    let pairs = [("x", 0.5f32), ("y", 1.2), ("z", 1.2)];
    let scores: Vec<u32> = pairs.iter().map(|p| score(p.1)).collect();
    let top: Vec<(&str, f32)> = top_k(&scores, 2).into_iter().map(|i| pairs[i]).collect();
    assert_eq!(top, vec![("y", 1.2), ("z", 1.2)]);
}

#[test]
fn top_of_nothing_is_nothing() {
    assert_eq!(top_k(&[], 10), Vec::<usize>::new());
    assert_eq!(top_k(&[3, 1, 2], 0), Vec::<usize>::new());
}

#[test]
fn top_lists_all_when_fewer() {
    assert_eq!(top_k(&[3, 1, 2], 10), vec![0, 2, 1]);
    assert_eq!(top_k(&[1, 1, 1, 1], 4), vec![0, 1, 2, 3]);
}

#[test]
fn top_is_descending_and_stable() {
    let scores = [5u32, 9, 5, 0, 9, 7, u32::MAX, 0];
    assert_eq!(top_k(&scores, 8), vec![6, 1, 4, 5, 0, 2, 3, 7]);
    assert_eq!(top_k(&scores, 3), vec![6, 1, 4]);
    assert_eq!(top_k(&scores, 1), vec![6]);
}
