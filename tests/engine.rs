use organism::{
    base_index, binomial_fits, connector, maxf_idx, null_counts, organism, pssm, scored_columns, shape,
    Connector, DeletionMethod, NodeType, Organism, OrganismError, Placement, Real, Recognizer,
    RecognizerError, RecognizerFeat, ShapeFeat,
};
use statrs::distribution::{Continuous, ContinuousCDF, Normal};

#[derive(Copy, Clone, Debug, PartialEq, PartialOrd)]
struct F(f64);

impl Real for F {

    fn from_u64_spec(n: u64) -> F {
        F::from_u64(n)
    }

    fn neg_infinity_spec() -> F {
        F::neg_infinity()
    }

    fn add_spec(self, other: F) -> F {
        self.plus(other)
    }

    fn sub_spec(self, other: F) -> F {
        self.minus(other)
    }

    fn mul_spec(self, other: F) -> F {
        self.times(other)
    }

    fn div_spec(self, other: F) -> F {
        self.over(other)
    }

    fn sqrt_spec(self) -> F {
        self.sqrt()
    }

    fn log2_spec(self) -> F {
        self.log2()
    }

    fn lt_spec(self, other: F) -> bool {
        self.less_than(other)
    }

    fn normal_pdf_spec(mean: F, std_dev: F, x: F) -> F {
        F::normal_pdf(mean, std_dev, x)
    }

    fn normal_cdf_spec(mean: F, std_dev: F, x: F) -> F {
        F::normal_cdf(mean, std_dev, x)
    }

    fn from_u64(n: u64) -> F {
        F(n as f64)
    }
    fn neg_infinity() -> F {
        F(f64::NEG_INFINITY)
    }
    fn plus(self, other: F) -> F {
        F(self.0 + other.0)
    }
    fn minus(self, other: F) -> F {
        F(self.0 - other.0)
    }
    fn times(self, other: F) -> F {
        F(self.0 * other.0)
    }
    fn over(self, other: F) -> F {
        F(self.0 / other.0)
    }
    fn sqrt(self) -> F {
        F(self.0.sqrt())
    }
    fn log2(self) -> F {
        F(self.0.log2())
    }
    fn less_than(self, other: F) -> bool {
        self.0 < other.0
    }
    fn normal_pdf(mean: F, std_dev: F, x: F) -> F {
        F(Normal::new(mean.0, std_dev.0).unwrap().pdf(x.0))
    }
    fn normal_cdf(mean: F, std_dev: F, x: F) -> F {
        F(Normal::new(mean.0, std_dev.0).unwrap().cdf(x.0))
    }
}

fn fv(xs: &[f64]) -> Vec<F> {
    xs.iter().map(|&x| F(x)).collect()
}

fn chars(s: &str) -> Vec<char> {
    s.chars().collect()
}

fn rec(cols: &[[f64; 4]]) -> Recognizer<F> {
    let mut m = Vec::new();
    for c in cols {
        for &v in c {
            m.push(F(v));
        }
    }
    pssm(RecognizerFeat::Sequence, cols.len(), Some(m))
}

fn con(mu: f64, sigma: f64) -> Connector<F> {
    connector(F(mu), F(sigma), None)
}

fn matrix_of(r: &Recognizer<F>) -> Vec<f64> {
    r.matrix().iter().map(|x| x.0).collect()
}

fn gauss_score(mu: f64, sigma: f64, gap: usize, seq_len: usize, eff: u64, nr: u64) -> f64 {
    let n = Normal::new(mu, sigma).unwrap();
    let num = n.pdf(gap as f64);
    let auc = n.cdf((seq_len - 1) as f64) - n.cdf(0.0);
    let num = if auc > 1e-10 { num / auc } else { num / 0.000001 };
    let top = num_integer::binomial(eff - (gap as u64 + 1), nr - 1) as f64;
    let bottom = num_integer::binomial(eff, nr) as f64;
    num.log2() - (top / bottom).log2()
}

#[test]
fn argmax_first_of_equal_maxima() {
    assert_eq!(maxf_idx(&fv(&[1.0, 3.0, 3.0, 2.0])), 1);
}

#[test]
fn argmax_empty_and_single() {
    assert_eq!(maxf_idx(&fv(&[])), 0);
    assert_eq!(maxf_idx(&fv(&[-5.0])), 0);
    assert_eq!(maxf_idx(&fv(&[-5.0, -1.0, -3.0])), 1);
}

#[test]
fn bases_map_case_insensitively() {
    assert_eq!(base_index('a'), Some(0));
    assert_eq!(base_index('C'), Some(1));
    assert_eq!(base_index('g'), Some(2));
    assert_eq!(base_index('T'), Some(3));
    assert_eq!(base_index('n'), None);
    assert_eq!(base_index('u'), None);
}

#[test]
fn scoring_stops_at_first_non_base() {
    let s = chars("acnt");
    assert_eq!(scored_columns(&s, 0, 4), 2);
    assert_eq!(scored_columns(&s, 3, 1), 1);
    assert_eq!(scored_columns(&s, 2, 2), 0);
    let r = rec(&[[1.0, 2.0, 3.0, 4.0], [10.0, 20.0, 30.0, 40.0], [100.0, 200.0, 300.0, 400.0]]);
    let mut row = fv(&[0.0, 0.0, 0.0]);
    r.calculate_row(&chars("aCnTg"), &mut row).unwrap();
    // offset 0: a, C, then n stops: 1 + 20
    // offset 1: C, then n stops: 2
    // offset 2: n stops at once: 0
    assert_eq!(row, fv(&[21.0, 2.0, 0.0]));
}

#[test]
fn row_scores_every_window() {
    let r = rec(&[[1.0, 2.0, 3.0, 4.0], [10.0, 20.0, 30.0, 40.0]]);
    let mut row = fv(&[0.0, 0.0, 0.0, 7.0]);
    r.calculate_row(&chars("acgt"), &mut row).unwrap();
    assert_eq!(row, fv(&[21.0, 32.0, 43.0, 7.0]));
}

#[test]
fn shape_recognizer_does_not_score() {
    let r: Recognizer<F> = shape(RecognizerFeat::Shape(ShapeFeat::MGW), 2, Some(F(1.0)), None);
    assert_eq!(r.mu(), F(1.0));
    assert_eq!(r.sigma(), F(0.0));
    let mut row = fv(&[0.0]);
    assert_eq!(
        r.calculate_row(&chars("ac"), &mut row),
        Err(RecognizerError::ShapeUnimplemented)
    );
}

#[test]
fn to_pssm_maps_quarter_to_one() {
    let mut r = rec(&[[0.25, 0.25, 0.25, 0.25]]);
    r.to_pssm();
    assert_eq!(matrix_of(&r), vec![1.0, 1.0, 1.0, 1.0]);
    let mut r = rec(&[[0.5, 1.0, 0.0625, 0.25]]);
    r.to_pssm();
    assert_eq!(matrix_of(&r), vec![0.5, 0.0, 2.0, 1.0]);
}

fn numbered(len: usize) -> Recognizer<F> {
    let m: Vec<F> = (0..len * 4).map(|i| F(i as f64)).collect();
    pssm(RecognizerFeat::Sequence, len, Some(m))
}

#[test]
fn flip_row_reverses_one_row() {
    let mut r = numbered(3);
    r.flip_row(1);
    assert_eq!(matrix_of(&r), vec![0., 9., 2., 3., 4., 5., 6., 7., 8., 1., 10., 11.]);
}

#[test]
fn flip_col_reverses_bases() {
    let mut r = numbered(2);
    r.flip_col(1);
    assert_eq!(matrix_of(&r), vec![0., 1., 2., 3., 7., 6., 5., 4.]);
}

#[test]
fn swap_cols_and_rows() {
    let mut r = numbered(3);
    r.swap_cols(0, 2);
    assert_eq!(matrix_of(&r), vec![8., 9., 10., 11., 4., 5., 6., 7., 0., 1., 2., 3.]);
    let mut r = numbered(2);
    r.swap_rows(0, 3);
    assert_eq!(matrix_of(&r), vec![3., 1., 2., 0., 7., 5., 6., 4.]);
}

#[test]
fn shifts_rotate_columns() {
    let mut r = numbered(3);
    r.shift_left();
    assert_eq!(matrix_of(&r), vec![4., 5., 6., 7., 8., 9., 10., 11., 0., 1., 2., 3.]);
    let mut r = numbered(3);
    r.shift_right();
    assert_eq!(matrix_of(&r), vec![8., 9., 10., 11., 0., 1., 2., 3., 4., 5., 6., 7.]);
}

#[test]
fn set_at_writes_column_and_base() {
    let mut r = numbered(2);
    r.set_at(F(-1.0), (1, 2));
    assert_eq!(matrix_of(&r), vec![0., 1., 2., 3., 4., 5., -1., 7.]);
}

#[test]
fn null_counts_are_binomials() {
    assert_eq!(null_counts(2, 8, 2), (5, 28));
    assert_eq!(null_counts(0, 5, 1), (1, 5));
    assert_eq!(null_counts(1, 10, 3), (28, 120));
}

#[test]
fn tables_grow_on_demand() {
    let mut c = con(2.0, 1.0);
    assert_eq!(c.len(), 0);
    c.compute_until(5);
    assert_eq!(c.len(), 5);
    c.compute_until(3);
    assert_eq!(c.len(), 5);
    let c2: Connector<F> = connector(F(2.0), F(1.0), Some(7));
    assert_eq!(c2.len(), 7);
}

#[test]
fn score_matches_formula() {
    let mut c = con(2.0, 1.0);
    c.compute_until(8);
    let got = c.score(2, 8, 8, 2).0;
    let want = gauss_score(2.0, 1.0, 2, 8, 8, 2);
    assert!((got - want).abs() < 1e-12, "{} {}", got, want);
    assert!(got.is_finite());
}

#[test]
fn score_with_tiny_area_uses_fixed_floor() {
    let mut c = con(-40.0, 5.0);
    c.compute_until(10);
    let n = Normal::new(-40.0, 5.0).unwrap();
    let auc = n.cdf(9.0) - n.cdf(0.0);
    assert!(auc <= 1e-10);
    let got = c.score(0, 10, 10, 2).0;
    assert!(got.is_finite());
    let num = n.pdf(0.0) / 0.000001;
    let den = (9.0_f64 / 45.0).log2();
    assert!((got - (num.log2() - den)).abs() < 1e-9);
}

#[test]
fn merge_operators() {
    let mut c = con(1.0, 3.0);
    c.add_mu(F(2.5));
    c.add_sigma(F(4.0));
    assert_eq!(c.mu(), F(3.5));
    assert_eq!(c.sigma(), F(5.0));
}

fn org_of(recs: Vec<Recognizer<F>>, cons: Vec<Connector<F>>, deletion: Option<DeletionMethod>) -> Organism<F> {
    organism(recs, cons, None, deletion)
}

#[test]
fn check_rejects_short_sequence() {
    let recs = vec![rec(&[[0.0; 4]; 3]), rec(&[[0.0; 4]; 3])];
    let mut o = org_of(recs, vec![con(1.0, 1.0)], None);
    assert_eq!(o.len_recs(), 6);
    assert_eq!(o.check(5), Err(OrganismError::ExceedSeqError));
    assert_eq!(o.con_at(0).len(), 0);
    assert_eq!(o.check(9), Ok(()));
    assert_eq!(o.con_at(0).len(), 9);
}

#[test]
fn single_recognizer_is_a_scan() {
    let r = rec(&[
        [0.1, 0.2, 0.3, 0.4],
        [1.0, 0.5, 0.25, 0.0],
        [0.0, 0.0, 2.0, 0.0],
        [0.3, 0.3, 0.3, 3.0],
    ]);
    let seq = chars("acgtacgt");
    let mut row = fv(&[0.0; 5]);
    r.calculate_row(&seq, &mut row).unwrap();
    let mut o = org_of(vec![r], vec![], None);
    o.check(seq.len()).unwrap();
    let p = o.place(&seq, None).unwrap();
    let m = maxf_idx(&row);
    assert_eq!(p.len(), 1);
    let nd = p.at(0);
    assert_eq!(nd.node_type(), NodeType::Recognizer);
    assert_eq!((nd.start, nd.stop), (m, m + 3));
    assert_eq!(p.energy(), row[m]);
    let best = row.iter().map(|x| x.0).fold(f64::NEG_INFINITY, f64::max);
    assert_eq!(p.energy().0, best);
    assert_eq!(nd.seq, seq[m..m + 4].to_vec());
}

#[test]
fn sharp_connector_picks_gap_near_mean() {
    let recs = vec![rec(&[[0.0; 4]; 3]), rec(&[[0.0; 4]; 3])];
    let mut o = org_of(recs, vec![con(2.0, 0.01)], None);
    let seq = chars("acgtacgt");
    o.check(seq.len()).unwrap();
    let p = o.place(&seq, None).unwrap();
    assert_eq!(p.len(), 3);
    let gap = p.at(1);
    assert_eq!(gap.node_type(), NodeType::Connector);
    assert_eq!(gap.stop + 1 - gap.start, 2);
    assert_eq!((p.at(0).start, p.at(0).stop), (0, 2));
    assert_eq!((gap.start, gap.stop), (3, 4));
    assert_eq!((p.at(2).start, p.at(2).stop), (5, 7));
    assert_eq!(gap.seq, chars("ta"));
}

#[test]
fn placement_is_contiguous_and_sums() {
    let recs = vec![
        rec(&[[1.0, -1.0, 0.0, 0.5], [0.2, 0.1, 2.0, -0.3]]),
        rec(&[[0.0, 1.5, -0.5, 0.0]]),
        rec(&[[0.5, 0.5, 1.0, -2.0], [1.0, 0.0, 0.0, 0.0], [-1.0, 2.0, 0.0, 0.3]]),
    ];
    let mut o = org_of(recs, vec![con(1.0, 1.5), con(3.0, 2.0)], None);
    let seq = chars("ttgacgcaagtcgatcga");
    o.check(seq.len()).unwrap();
    let p = o.place(&seq, None).unwrap();
    assert_eq!(p.len(), 5);
    let mut sum = 0.0;
    for i in 0..p.len() {
        let nd = p.at(i);
        sum += nd.energy.0;
        let want = if i % 2 == 0 { NodeType::Recognizer } else { NodeType::Connector };
        assert_eq!(nd.node_type(), want);
        assert_eq!(nd.seq, seq[nd.start..nd.stop + 1].to_vec());
        if i + 1 < p.len() {
            assert_eq!(nd.stop + 1, p.at(i + 1).start);
        }
    }
    assert!(p.at(p.len() - 1).stop < seq.len());
    assert!((sum - p.energy().0).abs() < 1e-9);
}

#[test]
fn place_fails_on_shape_recognizer() {
    let recs = vec![
        rec(&[[0.0; 4]; 2]),
        shape(RecognizerFeat::Shape(ShapeFeat::Roll), 2, None, None),
    ];
    let mut o = org_of(recs, vec![con(1.0, 1.0)], None);
    o.check(6).unwrap();
    assert!(matches!(
        o.place(&chars("acgtac"), None),
        Err(OrganismError::RecognizerError(RecognizerError::ShapeUnimplemented))
    ));
}

fn three_node_org(deletion: Option<DeletionMethod>) -> Organism<F> {
    let recs = vec![rec(&[[0.0; 4]; 2]), rec(&[[0.0; 4]; 3]), rec(&[[0.0; 4]; 2])];
    org_of(recs, vec![con(1.0, 1.0), con(4.0, 2.0)], deletion)
}

#[test]
fn intelligent_removal_merges_interior_spacing() {
    for left in [true, false] {
        let mut o = three_node_org(Some(DeletionMethod::Intelligent));
        o.remove_with(1, left);
        assert_eq!(o.num_recs(), 2);
        assert_eq!(o.num_cons(), 1);
        let c = o.con_at(0);
        let (old_mu, old_sigma, rm_mu, rm_sigma) =
            if left { (4.0, 2.0, 1.0, 1.0) } else { (1.0, 1.0, 4.0, 2.0) };
        assert_eq!(c.mu().0, old_mu + 3.0 + rm_mu);
        assert_eq!(c.sigma().0, (old_sigma * old_sigma + rm_sigma * rm_sigma as f64).sqrt());
    }
    let mut o = three_node_org(Some(DeletionMethod::Intelligent));
    o.remove(1);
    assert_eq!(o.con_at(0).mu().0, 8.0);
    assert_eq!(o.con_at(0).sigma().0, 5.0_f64.sqrt());
}

#[test]
fn removal_at_the_ends() {
    let mut o = three_node_org(Some(DeletionMethod::Intelligent));
    o.remove(0);
    assert_eq!(o.rec_at(0).len(), 3);
    assert_eq!(o.con_at(0).mu().0, 4.0 + 2.0 + 1.0);
    let mut o = three_node_org(Some(DeletionMethod::Intelligent));
    o.remove(2);
    assert_eq!(o.rec_at(1).len(), 3);
    assert_eq!(o.num_cons(), 1);
    assert_eq!(o.con_at(0).mu().0, 1.0 + 2.0 + 4.0);
    let mut o = three_node_org(None);
    o.remove_with(1, true);
    assert_eq!(o.con_at(0).mu().0, 4.0);
    assert_eq!(o.con_at(0).sigma().0, 2.0);
    let mut o = org_of(vec![rec(&[[0.0; 4]])], vec![], None);
    o.remove(0);
    assert_eq!(o.num_recs(), 1);
}

#[test]
fn swaps_and_counts() {
    let mut o = three_node_org(None);
    assert_eq!(o.len(), 5);
    assert_eq!(o.len_recs(), 7);
    o.swap_rec(0, 1);
    assert_eq!(o.rec_at(0).len(), 3);
    assert_eq!(o.rec_at(1).len(), 2);
    o.swap_con(0, 1);
    assert_eq!(o.con_at(0).mu().0, 4.0);
    assert_eq!(o.con_at(1).mu().0, 1.0);
    o.rec_at_mut(2).set_len(1);
    assert_eq!(o.len_recs(), 6);
}

#[test]
fn binomial_fit_edges() {
    assert!(binomial_fits(67, 33));
    assert!(!binomial_fits(68, 34));
    assert!(binomial_fits(3, 5));
    assert!(binomial_fits(1000, 1));
    assert!(!binomial_fits(1000, 10));
}

#[test]
fn can_place_needs_check_first() {
    let mut o = three_node_org(None);
    assert!(!o.can_place(10));
    o.check(10).unwrap();
    assert!(o.can_place(10));
    assert!(!o.can_place(6));
    let empty: Organism<F> = org_of(vec![], vec![], None);
    assert!(!empty.can_place(10));
}

#[test]
fn partial_sums_stop_at_non_base() {
    let r = rec(&[[1.0, 2.0, 3.0, 4.0], [10.0, 20.0, 30.0, 40.0]]);
    let mut row = fv(&[9.0, 9.0, 9.0]);
    r.calculate_row(&chars("aNgt"), &mut row).unwrap();
    assert_eq!(row, fv(&[1.0, 0.0, 43.0]));
    let mut upper = fv(&[9.0, 9.0, 9.0]);
    r.calculate_row(&chars("ANGT"), &mut upper).unwrap();
    assert_eq!(row, upper);
}

#[test]
fn precompute_never_shrinks() {
    let mut c: Connector<F> = connector(F(2.0), F(1.0), Some(4));
    c.compute_until(9);
    let before: Vec<f64> = (0..9).map(|i| c.score(i.min(2), 9, 9, 2).0).collect();
    c.precompute();
    assert_eq!(c.len(), 9);
    c.precompute_from_size(3);
    assert_eq!(c.len(), 9);
    let after: Vec<f64> = (0..9).map(|i| c.score(i.min(2), 9, 9, 2).0).collect();
    assert_eq!(before, after);
}

#[test]
fn empty_placements() {
    let p: Placement<F> = Placement::with_capacity(3);
    assert_eq!(p.len(), 0);
    assert_eq!(p.energy(), F(0.0));
    let q: Placement<F> = Placement::new();
    assert_eq!(q.len(), 0);
}
