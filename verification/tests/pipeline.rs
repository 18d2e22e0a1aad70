use bionet_rs::adjust_pvalues;
use bionet_rs::filter_corr;
use bionet_rs::pearson_to_pvalue;
use bionet_rs::AdjustedPValueMatrix;
use bionet_rs::CoexpressionNetwork;
use bionet_rs::CorrCell;
use bionet_rs::CorrMatrix;
use bionet_rs::NetworkError;
use bionet_rs::PValueMatrix;
use bionet_rs::SCALE;

fn finite(v: i64) -> CorrCell {
    CorrCell::Finite(v)
}

#[test]
fn degenerate_correlations_get_p_one() {
    // |r| > 1 (either sign) and NaN are absorbed to p = 1.0 exactly.
    let corr = CorrMatrix {
        cells: vec![
            vec![finite(SCALE), CorrCell::NotANumber, finite(1_500_000)],
            vec![CorrCell::NotANumber, finite(SCALE), finite(-2_000_000)],
            vec![finite(1_500_000), finite(-2_000_000), finite(SCALE)],
        ],
    };
    let p = pearson_to_pvalue(&corr, 10).unwrap();
    assert_eq!(p.cells[0][1], SCALE);
    assert_eq!(p.cells[1][0], SCALE);
    assert_eq!(p.cells[0][2], SCALE);
    assert_eq!(p.cells[1][2], SCALE);
    // r = 1 on the diagonal is clamped to p = 0, not NaN.
    assert_eq!(p.cells[0][0], 0);
}

#[test]
fn zero_correlation_gets_p_one_exactly() {
    let corr = CorrMatrix {
        cells: vec![vec![finite(SCALE), finite(0)], vec![finite(0), finite(SCALE)]],
    };
    let p = pearson_to_pvalue(&corr, 25).unwrap();
    assert_eq!(p.cells[0][1], SCALE);
    assert_eq!(p.cells[1][0], SCALE);
}

#[test]
fn perfect_correlation_gets_p_zero() {
    let corr = CorrMatrix {
        cells: vec![vec![finite(SCALE), finite(-SCALE)], vec![finite(-SCALE), finite(SCALE)]],
    };
    let p = pearson_to_pvalue(&corr, 12).unwrap();
    assert_eq!(p.cells[0][1], 0);
    assert_eq!(p.cells[1][0], 0);
}

#[test]
fn moderate_correlation_gets_moderate_p() {
    // r = 0.5 with 12 samples: t = 0.5 * sqrt(10 / 0.75) ~ 1.826 with 10
    // degrees of freedom, a two-tailed p around 0.098. A broken tail
    // evaluation (or one that echoed its input back) would land far
    // outside this window.
    let corr = CorrMatrix {
        cells: vec![vec![finite(SCALE), finite(500_000)], vec![finite(500_000), finite(SCALE)]],
    };
    let p = pearson_to_pvalue(&corr, 12).unwrap();
    assert!(p.cells[0][1] > 90_000, "p = {}", p.cells[0][1]);
    assert!(p.cells[0][1] < 110_000, "p = {}", p.cells[0][1]);
    // Stronger correlation, same samples: smaller p.
    let corr2 = CorrMatrix {
        cells: vec![vec![finite(SCALE), finite(900_000)], vec![finite(900_000), finite(SCALE)]],
    };
    let p2 = pearson_to_pvalue(&corr2, 12).unwrap();
    assert!(p2.cells[0][1] < p.cells[0][1]);
    assert!(p2.cells[0][1] > 0);
}

#[test]
fn symmetric_correlations_give_symmetric_pvalues() {
    let corr = CorrMatrix {
        cells: vec![
            vec![finite(SCALE), finite(500_000), finite(-730_000)],
            vec![finite(500_000), finite(SCALE), finite(120_000)],
            vec![finite(-730_000), finite(120_000), finite(SCALE)],
        ],
    };
    let p = pearson_to_pvalue(&corr, 30).unwrap();
    for i in 0..3 {
        for j in 0..3 {
            assert_eq!(p.cells[i][j], p.cells[j][i]);
        }
    }
}

#[test]
fn too_few_samples_is_invalid_configuration() {
    let corr = CorrMatrix { cells: vec![vec![finite(SCALE)]] };
    assert!(matches!(pearson_to_pvalue(&corr, 2), Err(NetworkError::InvalidConfiguration)));
    assert!(matches!(pearson_to_pvalue(&corr, 0), Err(NetworkError::InvalidConfiguration)));
    assert!(pearson_to_pvalue(&corr, 3).is_ok());
}

#[test]
fn correction_rescales_or_flags_not_significant() {
    // p = 0.002 with 10 tests becomes 0.02; p = 0.02 becomes 0.2 > 0.05,
    // so the sentinel 1.0 is stored.
    let p = PValueMatrix { cells: vec![vec![2_000, 20_000], vec![20_000, 2_000]] };
    let adjusted = adjust_pvalues(&p, 10, 50_000);
    assert_eq!(adjusted.cells[0][0], 20_000);
    assert_eq!(adjusted.cells[0][1], SCALE);
    assert_eq!(adjusted.cells[1][0], SCALE);
    assert_eq!(adjusted.cells[1][1], 20_000);
}

#[test]
fn correction_keeps_exact_boundary() {
    // p * n equal to the threshold still counts as significant.
    let p = PValueMatrix { cells: vec![vec![5_000]] };
    let adjusted = adjust_pvalues(&p, 10, 50_000);
    assert_eq!(adjusted.cells[0][0], 50_000);
}

#[test]
fn filtering_keeps_only_significant_strong_edges() {
    // correlation 0.85 with adjusted p 0.01 is kept at 0.85; with
    // adjusted p 0.2 it is zeroed; correlation -0.9 with adjusted p 0.01
    // is kept at -0.9; the diagonal is always zeroed.
    let corr = CorrMatrix {
        cells: vec![
            vec![finite(SCALE), finite(850_000), finite(-900_000)],
            vec![finite(850_000), finite(SCALE), finite(850_000)],
            vec![finite(-900_000), finite(850_000), finite(SCALE)],
        ],
    };
    let adjusted = AdjustedPValueMatrix {
        cells: vec![
            vec![10_000, 10_000, 10_000],
            vec![10_000, 10_000, 200_000],
            vec![10_000, 200_000, 10_000],
        ],
    };
    let filtered = filter_corr(&corr, &adjusted, 800_000, 50_000);
    assert_eq!(filtered.cells[0][1], 850_000);
    assert_eq!(filtered.cells[0][2], -900_000);
    assert_eq!(filtered.cells[1][2], 0);
    assert_eq!(filtered.cells[2][1], 0);
    for i in 0..3 {
        assert_eq!(filtered.cells[i][i], 0);
    }
}

#[test]
fn filtering_drops_weak_and_degenerate_cells() {
    let corr = CorrMatrix {
        cells: vec![
            vec![finite(SCALE), finite(500_000), CorrCell::NotANumber],
            vec![finite(500_000), finite(SCALE), finite(800_000)],
            vec![CorrCell::NotANumber, finite(800_000), finite(SCALE)],
        ],
    };
    let adjusted = AdjustedPValueMatrix { cells: vec![vec![1_000; 3], vec![1_000; 3], vec![1_000; 3]] };
    let filtered = filter_corr(&corr, &adjusted, 800_000, 50_000);
    // 0.5 is under the magnitude threshold, 0.8 is not strictly over it,
    // and a NaN cell never passes.
    assert_eq!(filtered.cells[0][1], 0);
    assert_eq!(filtered.cells[1][2], 0);
    assert_eq!(filtered.cells[0][2], 0);
}

#[test]
fn end_to_end_anticorrelated_pair() {
    // Four genes, twelve samples: genes 0 and 1 perfectly anti-correlated,
    // every other pair uncorrelated. The full pipeline with default
    // thresholds yields one edge (0-1, negative weight) and one reported
    // community of exactly that pair.
    let n_genes = 4;
    let mut cells = Vec::new();
    for i in 0..n_genes {
        let mut row = Vec::new();
        for j in 0..n_genes {
            if i == j {
                row.push(finite(SCALE));
            } else if (i, j) == (0, 1) || (i, j) == (1, 0) {
                row.push(finite(-SCALE));
            } else {
                row.push(finite(0));
            }
        }
        cells.push(row);
    }
    let corr = CorrMatrix { cells };
    let p = pearson_to_pvalue(&corr, 12).unwrap();
    let adjusted = adjust_pvalues(&p, n_genes as u64, 50_000);
    let filtered = filter_corr(&corr, &adjusted, 800_000, 50_000);
    let mut network = CoexpressionNetwork::new();
    let labels: Vec<String> = vec!["g0".to_string(), "g1".to_string(), "g2".to_string(), "g3".to_string()];
    network.create_graph(filtered, labels).unwrap();
    assert_eq!(network.network.labels.len(), 4);
    assert_eq!(network.network.edges.len(), 1);
    assert_eq!(network.network.edges[0].a, 1);
    assert_eq!(network.network.edges[0].b, 0);
    assert_eq!(network.network.edges[0].weight, -SCALE);
    network.find_communities();
    let comms = network.communities.clone().unwrap();
    assert_eq!(comms.len(), 1);
    let mut members = comms[0].clone();
    members.sort();
    assert_eq!(members, vec![0, 1]);
}
