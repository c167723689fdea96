use similarity_search::{check_dimensions, similarity_search, SearchError, MAX_RESULTS};

fn dot_product(a: &[f32], b: &[f32]) -> f32 {
    a.iter().zip(b.iter()).map(|(x, y)| x * y).sum()
}

fn magnitude(v: &[f32]) -> f32 {
    v.iter().map(|x| x.powi(2)).sum::<f32>().sqrt()
}

fn cosine_similarity(a: &[f32], b: &[f32]) -> f32 {
    dot_product(a, b) / (magnitude(a) * magnitude(b))
}

fn scores_against(query: &[f32], corpus: &[Vec<f32>]) -> Vec<u32> {
    corpus.iter().map(|v| cosine_similarity(query, v).to_bits()).collect()
}

fn bits(values: &[f32]) -> Vec<u32> {
    values.iter().map(|v| v.to_bits()).collect()
}

/// A fixed sequence of scores in [-1, 1), many of them repeated.
fn scattered_scores(count: usize) -> Vec<f32> {
    let mut state: u64 = 0x2545_f491_4f6c_dd1d;
    let mut out = Vec::with_capacity(count);
    for _ in 0..count {
        state = state.wrapping_mul(6364136223846793005).wrapping_add(1442695040888963407);
        let step = ((state >> 33) % 2001) as f32;
        out.push(step / 1000.0 - 1.0);
    }
    out
}

/// The positions of `scores` by descending score, ties in corpus order.
fn reference_order(scores: &[f32]) -> Vec<usize> {
    let mut order: Vec<usize> = (0..scores.len()).collect();
    order.sort_by(|&a, &b| scores[b].partial_cmp(&scores[a]).unwrap());
    order
}

#[test]
fn top_two_of_three_vectors() {
    let corpus = vec![vec![1.0f32, 0.0], vec![0.0, 1.0], vec![1.0, 1.0]];
    let query = vec![1.0f32, 0.0];
    let scores = scores_against(&query, &corpus);
    assert_eq!(f32::from_bits(scores[0]), 1.0);
    assert_eq!(f32::from_bits(scores[1]), 0.0);
    assert!((f32::from_bits(scores[2]) - 0.70710678).abs() < 1e-6);
    let picks = similarity_search(&scores, 2).unwrap();
    assert_eq!(picks, vec![0, 2]);
    let results: Vec<Vec<f32>> = picks.iter().map(|&i| corpus[i].clone()).collect();
    assert_eq!(results, vec![vec![1.0, 0.0], vec![1.0, 1.0]]);
}

#[test]
fn all_three_vectors_in_order() {
    let corpus = vec![vec![1.0f32, 0.0], vec![0.0, 1.0], vec![1.0, 1.0]];
    let scores = scores_against(&[1.0, 0.0], &corpus);
    assert_eq!(similarity_search(&scores, 3).unwrap(), vec![0, 2, 1]);
    assert_eq!(similarity_search(&scores, 1).unwrap(), vec![0]);
}

#[test]
fn zero_matches_requested() {
    let scores = bits(&[0.5, 0.25, 0.75]);
    assert_eq!(similarity_search(&scores, 0).unwrap(), Vec::<usize>::new());
}

#[test]
fn hard_cap_on_a_large_corpus() {
    let values = scattered_scores(16384);
    let scores = bits(&values);
    let picks = similarity_search(&scores, 1000).unwrap();
    assert_eq!(MAX_RESULTS, 25);
    assert_eq!(picks.len(), 25);
    assert_eq!(picks, reference_order(&values)[..25].to_vec());
}

#[test]
fn length_is_least_of_k_cap_and_corpus() {
    for &size in &[0usize, 1, 2, 24, 25, 26, 100] {
        let scores = bits(&scattered_scores(size));
        for &top_k in &[0usize, 1, 2, 5, 24, 25, 26, 1000, usize::MAX] {
            let picks = similarity_search(&scores, top_k).unwrap();
            assert_eq!(picks.len(), top_k.min(25).min(size));
        }
    }
}

#[test]
fn k_beyond_corpus_returns_every_vector() {
    let values = scattered_scores(20);
    let scores = bits(&values);
    for &top_k in &[20usize, 21, 25, 1000] {
        let picks = similarity_search(&scores, top_k).unwrap();
        assert_eq!(picks, reference_order(&values));
        let mut seen = picks.clone();
        seen.sort();
        assert_eq!(seen, (0..20).collect::<Vec<usize>>());
    }
}

#[test]
fn k_beyond_a_corpus_above_the_cap_returns_the_cap() {
    let values = scattered_scores(26);
    let picks = similarity_search(&bits(&values), 26).unwrap();
    assert_eq!(picks.len(), 25);
    assert_eq!(picks, reference_order(&values)[..25].to_vec());
}

#[test]
fn results_descend_by_score() {
    let values = scattered_scores(500);
    let picks = similarity_search(&bits(&values), 25).unwrap();
    for pair in picks.windows(2) {
        assert!(values[pair[0]] >= values[pair[1]]);
    }
    let worst = values[*picks.last().unwrap()];
    for (position, value) in values.iter().enumerate() {
        if !picks.contains(&position) {
            assert!(*value <= worst);
        }
    }
}

#[test]
fn equal_scores_keep_corpus_order() {
    let scores = bits(&[0.5, 0.9, 0.5, 0.9, 0.5]);
    assert_eq!(similarity_search(&scores, 5).unwrap(), vec![1, 3, 0, 2, 4]);
    assert_eq!(similarity_search(&scores, 3).unwrap(), vec![1, 3, 0]);
}

#[test]
fn the_two_zeros_are_one_score() {
    let scores = bits(&[-0.0, 0.0, -0.0, 0.0]);
    assert_eq!(similarity_search(&scores, 4).unwrap(), vec![0, 1, 2, 3]);
    let scores = bits(&[0.0, -0.0, 1.0e-40, -1.0e-40]);
    assert_eq!(similarity_search(&scores, 4).unwrap(), vec![2, 0, 1, 3]);
}

#[test]
fn negative_scores_rank_below_positive_ones() {
    let scores = bits(&[-0.5, -0.25, 0.1, -1.0, 1.0]);
    assert_eq!(similarity_search(&scores, 5).unwrap(), vec![4, 2, 1, 0, 3]);
}

#[test]
fn infinite_scores_rank_at_the_ends() {
    let scores = bits(&[0.0, f32::NEG_INFINITY, f32::MAX, f32::INFINITY, f32::MIN]);
    assert_eq!(similarity_search(&scores, 5).unwrap(), vec![3, 2, 0, 4, 1]);
}

#[test]
fn zero_magnitude_vector_is_refused() {
    let corpus = vec![vec![1.0f32, 0.0], vec![0.0, 0.0], vec![1.0, 1.0]];
    let scores = scores_against(&[1.0, 0.0], &corpus);
    assert!(f32::from_bits(scores[1]).is_nan());
    assert_eq!(similarity_search(&scores, 2), Err(SearchError::ScoreUndefined));
    assert_eq!(similarity_search(&scores, 0), Err(SearchError::ScoreUndefined));
}

#[test]
fn every_nan_pattern_is_refused() {
    for &pattern in &[0x7fc0_0000u32, 0xffc0_0000, 0x7f80_0001, 0xff80_0001, 0x7fff_ffff, 0xffff_ffff] {
        assert!(f32::from_bits(pattern).is_nan());
        let scores = vec![0.5f32.to_bits(), pattern];
        assert_eq!(similarity_search(&scores, 1), Err(SearchError::ScoreUndefined));
    }
}

#[test]
fn empty_corpus_has_no_matches() {
    assert_eq!(similarity_search(&Vec::new(), 5), Ok(Vec::new()));
    assert_eq!(similarity_search(&Vec::new(), 0), Ok(Vec::new()));
}

#[test]
fn fewer_matches_are_the_start_of_more() {
    let scores = bits(&scattered_scores(300));
    let most = similarity_search(&scores, 25).unwrap();
    for top_k in 0..=25usize {
        assert_eq!(similarity_search(&scores, top_k).unwrap(), most[..top_k].to_vec());
    }
}

#[test]
fn dimensions_that_agree_pass() {
    assert_eq!(check_dimensions(512, &vec![512, 512, 512]), Ok(()));
    assert_eq!(check_dimensions(0, &vec![0]), Ok(()));
}

#[test]
fn dimension_mismatch_is_refused() {
    assert_eq!(check_dimensions(512, &vec![512, 511, 512]), Err(SearchError::DimensionMismatch));
    assert_eq!(check_dimensions(2, &vec![2, 2, 3]), Err(SearchError::DimensionMismatch));
    assert_eq!(check_dimensions(2, &vec![0]), Err(SearchError::DimensionMismatch));
}

#[test]
fn empty_corpus_is_refused_before_scoring() {
    assert_eq!(check_dimensions(512, &Vec::new()), Err(SearchError::EmptyCorpus));
    assert_eq!(check_dimensions(0, &Vec::new()), Err(SearchError::EmptyCorpus));
}

#[test]
fn cosine_scores_lie_within_unit_range() {
    let low = similarity_search::score_key((-1.000001f32).to_bits()).unwrap();
    let high = similarity_search::score_key(1.000001f32.to_bits()).unwrap();
    let vectors = vec![
        vec![1.0f32, 0.0, 0.0],
        vec![-1.0, 0.0, 0.0],
        vec![3.0, -4.0, 12.0],
        vec![-100000.0, 99999.0, 0.5],
        vec![0.25, 0.5, -0.125],
    ];
    for a in &vectors {
        for b in &vectors {
            let key = similarity_search::score_key(cosine_similarity(a, b).to_bits()).unwrap();
            assert!(low <= key && key <= high);
        }
    }
}

#[test]
fn self_similarity_ranks_first() {
    let corpus = vec![
        vec![3.0f32, -4.0, 12.0],
        vec![1.0, 0.0, 0.0],
        vec![-3.0, 4.0, -12.0],
        vec![0.25, 0.5, -0.125],
    ];
    for (position, query) in corpus.iter().enumerate() {
        let scores = scores_against(query, &corpus);
        assert!((f32::from_bits(scores[position]) - 1.0).abs() < 1e-6);
        assert_eq!(similarity_search(&scores, 1).unwrap(), vec![position]);
    }
}

#[test]
fn cosine_is_symmetric_in_its_key() {
    let a = vec![3.0f32, -4.0, 12.0];
    let b = vec![0.25f32, 0.5, -0.125];
    let forth = similarity_search::score_key(cosine_similarity(&a, &b).to_bits());
    let back = similarity_search::score_key(cosine_similarity(&b, &a).to_bits());
    assert_eq!(forth, back);
    assert!(forth.is_some());
}
