use summarize::config::{default_sentence_count, SummaryError};
use summarize::select::select_top;
use summarize::similarity::{
    dot_product, get_sentence_vector, sentence_similarity, similarity_matrix, word_bag,
    CosineTerms,
};
use summarize::summary::{pick_sentences, token_lists};
use summarize::text::{normalize, remove_stop_words, Language};

fn words(ws: &[&str]) -> Vec<String> {
    ws.iter().map(|w| w.to_string()).collect()
}

#[test]
fn default_count_is_thirty() {
    assert_eq!(default_sentence_count(), 30);
}

#[test]
fn dot_product_exact() {
    assert_eq!(dot_product(&vec![1, 2, 3], &vec![4, 5, 6]), 32);
    assert_eq!(dot_product(&vec![], &vec![]), 0);
    assert_eq!(dot_product(&vec![2, 2], &vec![3]), 6);
}

#[test]
fn word_bag_distinct_union() {
    let bag = word_bag(&words(&["a", "b", "a"]), &words(&["c", "b"]));
    assert_eq!(bag, words(&["a", "b", "c"]));
}

#[test]
fn sentence_vector_counts() {
    let bag = words(&["a", "b", "c"]);
    assert_eq!(get_sentence_vector(&words(&["a", "c", "a"]), &bag), vec![2, 0, 1]);
    assert_eq!(get_sentence_vector(&words(&[]), &bag), vec![0, 0, 0]);
}

#[test]
fn similarity_terms_exact() {
    let t = sentence_similarity(&words(&["a", "b", "a"]), &words(&["a", "c"]));
    assert_eq!(t, CosineTerms { dot: 2, norm_sq_row: 5, norm_sq_col: 2 });
}

#[test]
fn similarity_terms_empty_sentence() {
    let t = sentence_similarity(&words(&[]), &words(&["a"]));
    assert_eq!(t, CosineTerms { dot: 0, norm_sq_row: 0, norm_sq_col: 1 });
}

#[test]
fn matrix_symmetric_with_zero_diagonal() {
    let ss = vec![words(&["a", "b"]), words(&["b", "b", "c"]), words(&["a"])];
    let m = similarity_matrix(&ss);
    assert_eq!(m.len(), 3);
    for i in 0..3 {
        assert_eq!(m[i][i], CosineTerms { dot: 0, norm_sq_row: 0, norm_sq_col: 0 });
        for j in 0..3 {
            assert_eq!(m[i][j].dot, m[j][i].dot);
            assert_eq!(m[i][j].norm_sq_row, m[j][i].norm_sq_col);
        }
    }
    assert_eq!(m[0][1], CosineTerms { dot: 2, norm_sq_row: 2, norm_sq_col: 5 });
    assert_eq!(m[1][0], CosineTerms { dot: 2, norm_sq_row: 5, norm_sq_col: 2 });
}

#[test]
fn disjoint_sentences_have_no_similarity() {
    let doc = normalize("The cat sleeps. Quantum entanglement occurs.", Language::English);
    assert_eq!(doc.len(), 2);
    let m = similarity_matrix(&token_lists(&doc));
    assert_eq!(m[0][1].dot, 0);
    assert_eq!(m[1][0].dot, 0);
}

#[test]
fn hub_sentence_shares_with_both() {
    let doc = normalize(
        "Cats chase mice. Cats chase mice and dogs bark loudly. Dogs bark loudly.",
        Language::English,
    );
    assert_eq!(doc.len(), 3);
    let m = similarity_matrix(&token_lists(&doc));
    assert!(m[1][0].dot > 0);
    assert!(m[1][2].dot > 0);
    assert_eq!(m[0][2].dot, 0);
}

#[test]
fn normalize_lowercases_drops_stop_words_and_stems() {
    let doc = normalize("The Dogs were Running.", Language::English);
    assert_eq!(doc.len(), 1);
    assert_eq!(doc[0].index, 0);
    assert_eq!(doc[0].raw_text, "The Dogs were Running.");
    assert_eq!(doc[0].tokens, words(&["dog", "run"]));
}

#[test]
fn normalize_keeps_empty_sentences() {
    let doc = normalize("The. Cats run.", Language::English);
    assert_eq!(doc.len(), 2);
    assert!(doc[0].tokens.is_empty());
    assert_eq!(doc[1].index, 1);
}

#[test]
fn normalize_empty_text() {
    assert_eq!(normalize("", Language::English).len(), 0);
}

#[test]
fn language_code_english() {
    assert_eq!(Language::English.code(), "en");
}

#[test]
fn select_in_rank_order_with_ties() {
    assert_eq!(select_top(&vec![5, 7, 5, 7], 3), Ok(vec![1, 3, 0]));
}

#[test]
fn select_more_than_available_returns_all() {
    assert_eq!(select_top(&vec![1, 3, 2], 10), Ok(vec![1, 2, 0]));
}

#[test]
fn select_single_sentence() {
    assert_eq!(select_top(&vec![42], 1), Ok(vec![0]));
    assert_eq!(select_top(&vec![42], 7), Ok(vec![0]));
}

#[test]
fn select_empty_input() {
    assert_eq!(select_top(&vec![], 3), Err(SummaryError::EmptyInput));
}

#[test]
fn select_zero_count() {
    assert_eq!(select_top(&vec![1, 2], 0), Ok(vec![]));
}

#[test]
fn select_float_bits_order() {
    let scores: Vec<u64> = vec![0.2f64, 0.5, 0.3].iter().map(|f| f.to_bits()).collect();
    assert_eq!(select_top(&scores, 2), Ok(vec![1, 2]));
}

#[test]
fn pipeline_is_deterministic() {
    let text = "Cats chase mice. Dogs chase cats. Birds sing.";
    let a = normalize(text, Language::English);
    let b = normalize(text, Language::English);
    assert_eq!(token_lists(&a), token_lists(&b));
    let scores = vec![3, 3, 1];
    let oa = select_top(&scores, 2).unwrap();
    let ob = select_top(&scores, 2).unwrap();
    assert_eq!(oa, ob);
    assert_eq!(pick_sentences(&a, &oa), pick_sentences(&b, &ob));
}

#[test]
fn pick_sentences_in_order() {
    let doc = normalize("One fish. Two fish. Red fish.", Language::English);
    let picked = pick_sentences(&doc, &vec![2, 0]);
    assert_eq!(picked.len(), 2);
    assert!(picked[0].starts_with("Red fish."));
    assert!(picked[1].starts_with("One fish."));
}

#[test]
fn stop_words_removed_in_order() {
    let kept = remove_stop_words(&words(&["the", "cat", "a", "sat", "the"]), &words(&["the", "a"]));
    assert_eq!(kept, words(&["cat", "sat"]));
    assert_eq!(remove_stop_words(&words(&[]), &words(&["a"])), words(&[]));
}

#[test]
fn dot_product_large_components() {
    assert_eq!(dot_product(&vec![1usize << 40], &vec![1]), 1u128 << 40);
    assert_eq!(dot_product(&vec![usize::MAX], &vec![usize::MAX]), (usize::MAX as u128) * (usize::MAX as u128));
}

#[test]
fn dot_product_commutes() {
    let a = vec![3, 0, 7, 1];
    let b = vec![2, 5, 1];
    assert_eq!(dot_product(&a, &b), dot_product(&b, &a));
    assert_eq!(dot_product(&a, &b), 13);
}
