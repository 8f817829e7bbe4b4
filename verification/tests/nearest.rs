use eqfit::nearest::{anchor, closest, loudest, nearest_pair, Sample, SampleError};

fn samples_at(frequencies: &[i64], asked: i64) -> Vec<Sample> {
    frequencies
        .iter()
        .map(|f| Sample { place: *f, distance: (*f - asked).abs() })
        .collect()
}

#[test]
fn closest_orders_by_distance() {
    let ranks: Vec<i64> = vec![380, 0, 17600, 20];
    assert_eq!(closest(&ranks), vec![1, 3, 0, 2]);
}

#[test]
fn closest_output_is_ascending() {
    let ranks: Vec<i64> = vec![9, -3, 7, 7, 0, 12, -3, 5, i64::MAX, i64::MIN];
    let order = closest(&ranks);
    assert_eq!(order.len(), ranks.len());
    for k in 1..order.len() {
        assert!(ranks[order[k - 1]] <= ranks[order[k]]);
    }
    let mut seen = vec![false; ranks.len()];
    for k in 0..order.len() {
        assert!(!seen[order[k]]);
        seen[order[k]] = true;
    }
}

#[test]
fn closest_keeps_equal_distances_in_curve_order() {
    let ranks: Vec<i64> = vec![5, 1, 5, 1, 5];
    assert_eq!(closest(&ranks), vec![1, 3, 0, 2, 4]);
}

#[test]
fn closest_of_an_empty_curve_is_empty() {
    assert_eq!(closest(&Vec::new()), Vec::<usize>::new());
}

#[test]
fn closest_does_not_depend_on_curve_order_for_distinct_distances() {
    let ranks: Vec<i64> = vec![40, 10, 30, 0, 20];
    let mut mirrored = ranks.clone();
    mirrored.reverse();
    let forward: Vec<i64> = closest(&ranks).iter().map(|i| ranks[*i]).collect();
    let backward: Vec<i64> = closest(&mirrored).iter().map(|i| mirrored[*i]).collect();
    assert_eq!(forward, vec![0, 10, 20, 30, 40]);
    assert_eq!(forward, backward);
    let n = ranks.len();
    let order = closest(&ranks);
    let turned = closest(&mirrored);
    for k in 0..n {
        assert_eq!(turned[k], n - 1 - order[k]);
    }
}

#[test]
fn anchor_is_the_nearest_sample() {
    assert_eq!(anchor(&vec![380, 0, 17600]), Some(1));
    assert_eq!(anchor(&vec![7]), Some(0));
}

#[test]
fn anchor_takes_the_earliest_of_equals() {
    assert_eq!(anchor(&vec![4, 2, 9, 2]), Some(1));
}

#[test]
fn anchor_of_an_empty_curve_is_none() {
    assert_eq!(anchor(&Vec::new()), None);
}

#[test]
fn loudest_is_the_greatest_level() {
    assert_eq!(loudest(&vec![-5, 12, 3]), Some(1));
    assert_eq!(loudest(&vec![-5]), Some(0));
}

#[test]
fn loudest_takes_the_latest_of_equals() {
    assert_eq!(loudest(&vec![12, -5, 12, 3]), Some(2));
}

#[test]
fn loudest_of_an_empty_curve_is_none() {
    assert_eq!(loudest(&Vec::new()), None);
}

#[test]
fn nearest_pair_brackets_the_frequency() {
    let samples = samples_at(&[20, 400, 18000], 300);
    assert_eq!(nearest_pair(&samples), Ok((1, 0)));
}

#[test]
fn nearest_pair_may_lie_on_one_side() {
    let samples = samples_at(&[20, 400, 18000], 9000);
    assert_eq!(nearest_pair(&samples), Ok((1, 0)));
    let samples = samples_at(&[20, 400, 18000], 9300);
    assert_eq!(nearest_pair(&samples), Ok((2, 1)));
    let samples = samples_at(&[20, 400, 18000], 10);
    assert_eq!(nearest_pair(&samples), Ok((0, 1)));
}

#[test]
fn nearest_pair_prefers_the_earlier_of_equally_distant_samples() {
    let samples = samples_at(&[100, 300, 500], 300);
    assert_eq!(nearest_pair(&samples), Ok((1, 0)));
    let samples = samples_at(&[100, 300], 200);
    assert_eq!(nearest_pair(&samples), Ok((0, 1)));
}

#[test]
fn nearest_pair_needs_two_samples() {
    assert_eq!(nearest_pair(&Vec::new()), Err(SampleError::Insufficient));
    assert_eq!(nearest_pair(&samples_at(&[400], 400)), Err(SampleError::Insufficient));
}

#[test]
fn nearest_pair_rejects_two_samples_at_one_frequency() {
    let samples = samples_at(&[20, 400, 400, 18000], 390);
    assert_eq!(nearest_pair(&samples), Err(SampleError::Degenerate));
}

#[test]
fn nearest_pair_accepts_a_repeated_frequency_further_away() {
    let samples = samples_at(&[20, 400, 18000, 18000], 390);
    assert_eq!(nearest_pair(&samples), Ok((1, 0)));
}
