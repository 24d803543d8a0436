use multinomial_nb::error::Error;
use multinomial_nb::matrix::Matrix;
use multinomial_nb::model::{checked_total_mass, counts_table_fits, MultinomialNB};
use multinomial_nb::parse::parse_matrix;

fn mat(rows: Vec<Vec<u64>>) -> Matrix {
    let cols = if rows.is_empty() { 0 } else { rows[0].len() };
    Matrix::from_rows(rows, cols)
}

/// The floating-point tail of the pipeline, as the program applies it on top
/// of the fitted counts: base-2 log-space scores with a tiny smoothing
/// constant, exponentiated and normalized per record.
fn posterior(model: &MultinomialNB, z: &Matrix) -> Vec<Vec<f64>> {
    let alpha = 1e-50_f64;
    let classes = model.n_classes();
    let feats = model.n_features();
    assert_eq!(z.cols(), feats);
    let log_n_obs = (model.n_observations() as f64).log2();
    let mut out = Vec::new();
    for i in 0..z.rows() {
        let mut scores = Vec::new();
        let mut divisor = 0.0_f64;
        for j in 0..classes {
            let cc = model.class_count(j) as f64 + alpha;
            let mut log_score = cc.log2() - log_n_obs;
            for k in 0..feats {
                let fc = model.feature_count(j, k) as f64 + alpha;
                log_score += (fc.log2() - cc.log2()) * (z.get(i, k) as f64);
            }
            let score = log_score.exp2();
            divisor += score;
            scores.push(score);
        }
        out.push(scores.iter().map(|s| s / divisor).collect());
    }
    out
}

#[test]
fn fit_concrete_scenario() {
    let x = mat(vec![vec![2, 0], vec![0, 3]]);
    let y = mat(vec![vec![1, 0], vec![0, 1]]);
    let model = MultinomialNB::fit(&x, &y).unwrap();
    assert_eq!(model.n_classes(), 2);
    assert_eq!(model.n_features(), 2);
    assert_eq!(model.class_count(0), 2);
    assert_eq!(model.class_count(1), 3);
    assert_eq!(model.feature_count(0, 0), 2);
    assert_eq!(model.feature_count(0, 1), 0);
    assert_eq!(model.feature_count(1, 0), 0);
    assert_eq!(model.feature_count(1, 1), 3);
    assert_eq!(model.n_observations(), 5);
}

#[test]
fn predict_heavily_weights_observed_class() {
    let x = mat(vec![vec![2, 0], vec![0, 3]]);
    let y = mat(vec![vec![1, 0], vec![0, 1]]);
    let model = MultinomialNB::fit(&x, &y).unwrap();
    let z = mat(vec![vec![1, 0]]);
    let p = posterior(&model, &z);
    assert_eq!(p.len(), 1);
    assert_eq!(p[0].len(), 2);
    assert!(p[0][0] > 0.99, "class 0 posterior was {}", p[0][0]);
    assert!((p[0][0] + p[0][1] - 1.0).abs() < 1e-9);
}

#[test]
fn posteriors_normalize_per_record() {
    let x = mat(vec![vec![3, 1, 0], vec![0, 2, 5], vec![1, 1, 1]]);
    let y = mat(vec![vec![1, 0], vec![0, 1], vec![1, 0]]);
    let model = MultinomialNB::fit(&x, &y).unwrap();
    let z = mat(vec![vec![1, 0, 2], vec![4, 4, 4], vec![0, 1, 0]]);
    for row in posterior(&model, &z) {
        let sum: f64 = row.iter().sum();
        assert!((sum - 1.0).abs() < 1e-9, "row summed to {}", sum);
    }
}

#[test]
fn fit_mismatched_record_count() {
    let x = mat(vec![vec![1, 0], vec![0, 1], vec![1, 1]]);
    let y = mat(vec![vec![1, 0], vec![0, 1]]);
    assert!(matches!(
        MultinomialNB::fit(&x, &y),
        Err(Error::MismatchedRecordCount)
    ));
}

#[test]
fn fit_rejects_label_two() {
    let x = mat(vec![vec![1, 0], vec![0, 1]]);
    let y = mat(vec![vec![1, 0], vec![2, 0]]);
    assert!(matches!(MultinomialNB::fit(&x, &y), Err(Error::NonBinaryLabel)));
}

#[test]
fn fit_rejects_any_non_binary_label() {
    let x = mat(vec![vec![1]]);
    let y = mat(vec![vec![17]]);
    assert!(matches!(MultinomialNB::fit(&x, &y), Err(Error::NonBinaryLabel)));
}

#[test]
fn fit_multi_hot_counts_record_for_each_marked_class() {
    let x = mat(vec![vec![4, 1]]);
    let y = mat(vec![vec![1, 1]]);
    let model = MultinomialNB::fit(&x, &y).unwrap();
    assert_eq!(model.class_count(0), 5);
    assert_eq!(model.class_count(1), 5);
    assert_eq!(model.feature_count(0, 0), 4);
    assert_eq!(model.feature_count(1, 0), 4);
    assert_eq!(model.n_observations(), 10);
}

#[test]
fn fit_empty_training_set() {
    let x = mat(vec![]);
    let y = mat(vec![]);
    let model = MultinomialNB::fit(&x, &y).unwrap();
    assert_eq!(model.n_classes(), 0);
    assert_eq!(model.n_features(), 0);
    assert_eq!(model.n_observations(), 0);
}

#[test]
fn check_query_feature_count() {
    let x = mat(vec![vec![2, 0], vec![0, 3]]);
    let y = mat(vec![vec![1, 0], vec![0, 1]]);
    let model = MultinomialNB::fit(&x, &y).unwrap();
    assert!(model.check_query(&mat(vec![vec![1, 0]])).is_ok());
    assert!(matches!(
        model.check_query(&mat(vec![vec![1, 0, 0]])),
        Err(Error::MismatchedFeatureCount)
    ));
}

#[test]
fn total_mass_small() {
    let x = mat(vec![vec![2, 0], vec![0, 3]]);
    let y = mat(vec![vec![1, 0], vec![0, 1]]);
    assert_eq!(checked_total_mass(&x, &y), Some(5));
}

#[test]
fn total_mass_ignores_unmarked_records() {
    let x = mat(vec![vec![9, 9]]);
    let y = mat(vec![vec![0, 0]]);
    assert_eq!(checked_total_mass(&x, &y), Some(0));
}

#[test]
fn total_mass_overflow_detected() {
    let x = mat(vec![vec![u64::MAX], vec![1]]);
    let y = mat(vec![vec![1], vec![1]]);
    assert_eq!(checked_total_mass(&x, &y), None);
}

#[test]
fn counts_table_shape_check() {
    assert!(counts_table_fits(2, 2));
    assert!(counts_table_fits(0, usize::MAX));
    assert!(counts_table_fits(usize::MAX, 1));
    assert!(!counts_table_fits(usize::MAX, 2));
}

#[test]
fn fit_and_predict_are_deterministic() {
    let text = b"3 1 0\n0 2 5\n1 1 1";
    let labels = b"1 0\n0 1\n1 0";
    let query = b"1 0 2\n4 4 4";
    let mut previous: Option<Vec<Vec<f64>>> = None;
    for _ in 0..3 {
        let x = parse_matrix(text).unwrap();
        let y = parse_matrix(labels).unwrap();
        let z = parse_matrix(query).unwrap();
        let model = MultinomialNB::fit(&x, &y).unwrap();
        assert_eq!(model.class_count(0), 7);
        assert_eq!(model.class_count(1), 7);
        let p = posterior(&model, &z);
        if let Some(prev) = &previous {
            assert_eq!(prev.len(), p.len());
            for (a, b) in prev.iter().zip(p.iter()) {
                for (u, v) in a.iter().zip(b.iter()) {
                    assert_eq!(u.to_bits(), v.to_bits());
                }
            }
        }
        previous = Some(p);
    }
}
