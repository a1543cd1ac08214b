use crate::number::{num, Real};
use vstd::prelude::*;

verus! {

/// The binomial coefficient: the number of `k`-element subsets of `n` things.
pub open spec fn binom(n: nat, k: nat) -> nat
    decreases n,
{
    if k == 0 {
        1
    } else if n == 0 {
        0
    } else {
        binom((n - 1) as nat, (k - 1) as nat) + binom((n - 1) as nat, k)
    }
}

/// A larger set has at least as many `k`-element subsets.
pub proof fn lemma_binom_monotone(a: nat, b: nat, k: nat)
    requires
        a <= b,
    ensures
        binom(a, k) <= binom(b, k),
    decreases b,
{
    if a < b {
        lemma_binom_monotone(a, (b - 1) as nat, k);
        if k > 0 {
            assert(binom(b, k) == binom((b - 1) as nat, (k - 1) as nat) + binom((b - 1) as nat, k));
        }
    }
}

/// `x` as a 64-bit number when it fits, else nothing.
pub open spec fn fitting(x: nat) -> Option<u64> {
    if x <= u64::MAX {
        Some(x as u64)
    } else {
        Option::None
    }
}

/// Whether C(n, k) fits in 64 bits. Pascal's triangle is built row by row up
/// to column `k` with checked additions; an entry that does not fit is
/// marked, and every entry below it in the same column is larger.
pub fn binomial_fits(n: usize, k: usize) -> (r: bool)
    ensures
        r <==> binom(n as nat, k as nat) <= u64::MAX,
{
    if k > n {
        proof {
            lemma_binom_above(n as nat, k as nat);
        }
        return true;
    }
    let mut row: Vec<Option<u64>> = Vec::new();
    row.push(Some(1));
    let mut j: usize = 0;
    while j < k
        invariant
            j <= k,
            k <= n,
            row@.len() == j + 1,
            forall|c: int| 0 <= c <= j ==> #[trigger] row@[c] == fitting(binom(0, c as nat)),
        decreases k - j,
    {
        row.push(Some(0));
        j = j + 1;
    }
    let mut i: usize = 0;
    while i < n
        invariant
            i <= n,
            k <= n,
            row@.len() == k + 1,
            forall|c: int| 0 <= c <= k ==> #[trigger] row@[c] == fitting(binom(i as nat, c as nat)),
        decreases n - i,
    {
        let mut j: usize = k;
        while j > 0
            invariant
                j <= k,
                k <= n,
                i < n,
                row@.len() == k + 1,
                forall|c: int| 0 <= c <= j ==> #[trigger] row@[c] == fitting(binom(i as nat, c as nat)),
                forall|c: int|
                    j < c <= k ==> #[trigger] row@[c] == fitting(binom((i + 1) as nat, c as nat)),
            decreases j,
        {
            let a = row[j - 1];
            let b = row[j];
            proof {
                lemma_binom_pascal((i + 1) as nat, j as nat);
            }
            let sum = match (a, b) {
                (Some(x), Some(y)) => x.checked_add(y),
                _ => Option::None,
            };
            row.set(j, sum);
            j = j - 1;
        }
        proof {
            assert(binom((i + 1) as nat, 0) == 1);
        }
        i = i + 1;
    }
    row[k].is_some()
}

proof fn lemma_binom_above(n: nat, k: nat)
    requires
        k > n,
    ensures
        binom(n, k) == 0,
    decreases n,
{
    if n > 0 {
        lemma_binom_above((n - 1) as nat, (k - 1) as nat);
        lemma_binom_above((n - 1) as nat, k);
    }
}

proof fn lemma_binom_pascal(n: nat, k: nat)
    requires
        n >= 1,
        k >= 1,
    ensures
        binom(n, k) == binom((n - 1) as nat, (k - 1) as nat) + binom((n - 1) as nat, k),
{
}

/// Both counts of the gap null model are bounded by the larger one.
proof fn lemma_null_counts_bounded(eff_len: nat, gap: nat, num_recs: nat)
    requires
        1 <= num_recs,
        gap + num_recs <= eff_len,
    ensures
        binom((eff_len - gap - 1) as nat, (num_recs - 1) as nat) <= binom(eff_len, num_recs),
{
    lemma_binom_monotone((eff_len - gap - 1) as nat, (eff_len - 1) as nat, (num_recs - 1) as nat);
    assert(binom(eff_len, num_recs) == binom((eff_len - 1) as nat, (num_recs - 1) as nat) + binom(
        (eff_len - 1) as nat,
        num_recs,
    ));
}

/// Relies on num_integer::binomial for `u64`: it returns C(n, k), and 0 when
/// k > n. It builds the result through C(n, d) for d up to min(k, n - k),
/// none of which exceeds C(n, k), so it does not overflow when C(n, k) fits.
#[verifier::external_body]
fn binomial(n: u64, k: u64) -> (r: u64)
    requires
        binom(n as nat, k as nat) <= u64::MAX,
    ensures
        r == binom(n as nat, k as nat),
{
    num_integer::binomial(n, k)
}

/// The two counts of the uniform placement null model of a gap of length
/// `gap`: the placements of the other `num_recs - 1` recognizers among the
/// `eff_len - gap - 1` slots left, and the placements of all `num_recs`
/// recognizers among the `eff_len` slots.
pub fn null_counts(gap: usize, eff_len: usize, num_recs: usize) -> (r: (u64, u64))
    requires
        1 <= num_recs,
        gap + num_recs <= eff_len,
        binom(eff_len as nat, num_recs as nat) <= u64::MAX,
    ensures
        r.0 == binom((eff_len - gap - 1) as nat, (num_recs - 1) as nat),
        r.1 == binom(eff_len as nat, num_recs as nat),
{
    proof {
        lemma_null_counts_bounded(eff_len as nat, gap as nat, num_recs as nat);
    }
    let top = binomial((eff_len - (gap + 1)) as u64, (num_recs - 1) as u64);
    let bottom = binomial(eff_len as u64, num_recs as u64);
    (top, bottom)
}

/// A normal law, by its mean and standard deviation.
#[derive(Copy, Clone, Debug)]
pub struct Gaussian<R> {
    pub mean: R,
    pub std_dev: R,
}

impl<R: Real> Gaussian<R> {
    /// The standard deviation is positive.
    pub open spec fn wf(&self) -> bool {
        num::<R>(0).lt_spec(self.std_dev)
    }

    /// Density at the integer `x`.
    pub open spec fn pdf_spec(&self, x: int) -> R {
        R::normal_pdf_spec(self.mean, self.std_dev, num(x as u64))
    }

    /// Distribution function at the integer `x`.
    pub open spec fn cdf_spec(&self, x: int) -> R {
        R::normal_cdf_spec(self.mean, self.std_dev, num(x as u64))
    }

    /// Density at the integer `x`.
    pub fn pdf(&self, x: usize) -> (r: R)
        requires
            self.wf(),
        ensures
            r == self.pdf_spec(x as int),
    {
        R::normal_pdf(self.mean, self.std_dev, R::from_u64(x as u64))
    }

    /// Distribution function at the integer `x`.
    pub fn cdf(&self, x: usize) -> (r: R)
        requires
            self.wf(),
        ensures
            r == self.cdf_spec(x as int),
    {
        R::normal_cdf(self.mean, self.std_dev, R::from_u64(x as u64))
    }
}

/// Denominator of the area below which the normalising area is replaced.
pub const AUC_THRESHOLD_INV: u64 = 10_000_000_000;

/// Denominator of the area used in place of one that is too small.
pub const AUC_FLOOR_INV: u64 = 1_000_000;

/// A Gaussian model of the gap between two consecutive recognizers, with
/// tables of its density and distribution function at the gap lengths
/// `0, 1, 2, ...`.
#[derive(Clone, Debug)]
pub struct Connector<R> {
    mu: R,
    sigma: R,
    alt: Gaussian<R>,
    pdf: Vec<R>,
    cdf: Vec<R>,
    max_seq_len: Option<usize>,
}

/// What a connector holds, as mathematical values.
pub ghost struct ConnectorView<R> {
    pub mu: R,
    pub sigma: R,
    pub alt: Gaussian<R>,
    pub pdf: Seq<R>,
    pub cdf: Seq<R>,
    pub max_seq_len: Option<usize>,
}

impl<R> View for Connector<R> {
    type V = ConnectorView<R>;

    closed spec fn view(&self) -> ConnectorView<R> {
        ConnectorView {
            mu: self.mu,
            sigma: self.sigma,
            alt: self.alt,
            pdf: self.pdf@,
            cdf: self.cdf@,
            max_seq_len: self.max_seq_len,
        }
    }
}

impl<R: Real> ConnectorView<R> {
    /// The two tables cover the same gap lengths, and the law that fills them
    /// has a positive standard deviation.
    pub open spec fn wf(&self) -> bool {
        &&& self.pdf.len() == self.cdf.len()
        &&& self.alt.wf()
    }

    /// Table entries `from..len` hold the law's density and distribution
    /// function at their gap length.
    pub open spec fn follows_law(&self, from: int) -> bool {
        forall|i: int|
            from <= i < self.pdf.len() ==> #[trigger] self.pdf[i] == self.alt.pdf_spec(i)
                && self.cdf[i] == self.alt.cdf_spec(i)
    }

    /// The gap score of `score`: the density of the gap normalised by the
    /// area of the law over the sequence (an area not above 1/10^10 is
    /// replaced by 1/10^6), in bits, minus the bits of the uniform placement
    /// null model, C(eff_len - gap - 1, num_recs - 1) / C(eff_len, num_recs).
    pub open spec fn score_spec(&self, gap: int, seq_len: int, eff_len: int, num_recs: int) -> R {
        let density = self.pdf[gap];
        let auc = self.cdf[seq_len - 1].sub_spec(self.cdf[0]);
        let one = num::<R>(1);
        let threshold = one.div_spec(num(AUC_THRESHOLD_INV));
        let normalised = if threshold.lt_spec(auc) {
            density.div_spec(auc)
        } else {
            density.div_spec(one.div_spec(num(AUC_FLOOR_INV)))
        };
        let top = binom((eff_len - gap - 1) as nat, (num_recs - 1) as nat);
        let bottom = binom(eff_len as nat, num_recs as nat);
        let null = num::<R>(top as u64).div_spec(num(bottom as u64));
        normalised.log2_spec().sub_spec(null.log2_spec())
    }

    /// Number of gap lengths that the tables cover.
    pub open spec fn len(&self) -> int {
        self.pdf.len() as int
    }

    /// The same connector with tables that extend these ones.
    pub open spec fn extends(&self, other: ConnectorView<R>) -> bool {
        &&& self.mu == other.mu
        &&& self.sigma == other.sigma
        &&& self.alt == other.alt
        &&& self.max_seq_len == other.max_seq_len
        &&& other.pdf.len() <= self.pdf.len()
        &&& self.pdf.subrange(0, other.pdf.len() as int) == other.pdf
        &&& other.cdf.len() <= self.cdf.len()
        &&& self.cdf.subrange(0, other.cdf.len() as int) == other.cdf
    }

    /// A connector extends itself.
    pub proof fn lemma_extends_itself(&self)
        ensures
            self.extends(*self),
    {
        assert(self.pdf.subrange(0, self.pdf.len() as int) =~= self.pdf);
        assert(self.cdf.subrange(0, self.cdf.len() as int) =~= self.cdf);
    }
}

impl<R: Real> Connector<R> {
    pub fn mu(&self) -> (r: R)
        ensures
            r == self@.mu,
    {
        self.mu
    }

    pub fn sigma(&self) -> (r: R)
        ensures
            r == self@.sigma,
    {
        self.sigma
    }

    /// The law that the tables are computed from.
    pub fn alt(&self) -> (r: &Gaussian<R>)
        ensures
            *r == self@.alt,
    {
        &self.alt
    }

    /// The law that the tables are computed from, to change it; the tables
    /// are not recomputed.
    pub fn alt_mut(&mut self) -> (r: &mut Gaussian<R>)
        ensures
            *r == old(self)@.alt,
            final(self)@ == (ConnectorView { alt: *final(r), ..old(self)@ }),
    {
        &mut self.alt
    }

    /// Whether the two tables cover the same gap lengths and the law has a
    /// positive standard deviation.
    pub fn is_wf(&self) -> (r: bool)
        ensures
            r == self@.wf(),
    {
        self.pdf.len() == self.cdf.len() && R::from_u64(0).less_than(self.alt.std_dev)
    }

    /// Number of gap lengths that the tables cover.
    pub fn len(&self) -> (r: usize)
        ensures
            r == self@.pdf.len(),
    {
        self.pdf.len()
    }

    pub fn set_mu(&mut self, mu: R)
        ensures
            final(self)@ == (ConnectorView { mu, ..old(self)@ }),
    {
        self.mu = mu;
    }

    /// Adds `mu` to the mean gap.
    pub fn add_mu(&mut self, mu: R)
        ensures
            final(self)@ == (ConnectorView { mu: old(self)@.mu.add_spec(mu), ..old(self)@ }),
    {
        self.mu = self.mu.plus(mu);
    }

    pub fn set_sigma(&mut self, sigma: R)
        ensures
            final(self)@ == (ConnectorView { sigma, ..old(self)@ }),
    {
        self.sigma = sigma;
    }

    /// Combines the spread with an independent one: `sqrt(sigma² + s²)`.
    pub fn add_sigma(&mut self, sigma: R)
        ensures
            final(self)@ == (ConnectorView {
                sigma: old(self)@.sigma.mul_spec(old(self)@.sigma).add_spec(
                    sigma.mul_spec(sigma),
                ).sqrt_spec(),
                ..old(self)@
            }),
    {
        self.sigma = self.sigma.times(self.sigma).plus(sigma.times(sigma)).sqrt();
    }

    /// Appends the entries of the gap lengths `self.len()..stop`, each the
    /// law's density and distribution function at its gap length; entries
    /// already there are kept as they are.
    pub fn compute_until(&mut self, stop: usize)
        requires
            old(self)@.wf(),
        ensures
            final(self)@.wf(),
            final(self)@.extends(old(self)@),
            final(self)@.len() == if stop > old(self)@.len() {
                stop as int
            } else {
                old(self)@.len()
            },
            final(self)@.follows_law(old(self)@.len()),
    {
        let mut i: usize = self.pdf.len();
        proof {
            assert(self@.pdf.subrange(0, self@.pdf.len() as int) =~= self@.pdf);
            assert(self@.cdf.subrange(0, self@.cdf.len() as int) =~= self@.cdf);
        }
        while i < stop
            invariant
                self@.wf(),
                self@.extends(old(self)@),
                i == self@.len(),
                old(self)@.len() <= i,
                i <= stop || i == old(self)@.len(),
                self@.follows_law(old(self)@.len()),
            decreases stop - i,
        {
            let p = self.alt.pdf(i);
            let c = self.alt.cdf(i);
            self.pdf.push(p);
            self.cdf.push(c);
            proof {
                assert(self@.pdf.subrange(0, old(self)@.pdf.len() as int) =~= old(self)@.pdf);
                assert(self@.cdf.subrange(0, old(self)@.cdf.len() as int) =~= old(self)@.cdf);
            }
            i = i + 1;
        }
    }

    /// Extends the tables to the gap lengths `0..len`; entries already there
    /// are kept, and the tables never shrink.
    pub fn precompute_from_size(&mut self, len: usize)
        requires
            old(self)@.wf(),
        ensures
            final(self)@.wf(),
            final(self)@.extends(old(self)@),
            final(self)@.len() == if len > old(self)@.len() {
                len as int
            } else {
                old(self)@.len()
            },
            final(self)@.follows_law(old(self)@.len()),
    {
        self.compute_until(len);
    }

    /// Extends the tables to the gap lengths up to the longest sequence that
    /// the connector was made for; entries already there are kept, and the
    /// tables never shrink.
    pub fn precompute(&mut self)
        requires
            old(self)@.wf(),
            old(self)@.max_seq_len is Some,
        ensures
            final(self)@.wf(),
            final(self)@.extends(old(self)@),
            final(self)@.len() == if old(self)@.max_seq_len->Some_0 > old(self)@.len() {
                old(self)@.max_seq_len->Some_0 as int
            } else {
                old(self)@.len()
            },
            final(self)@.follows_law(old(self)@.len()),
    {
        let len = match self.max_seq_len {
            Some(n) => n,
            Option::None => 0,
        };
        self.compute_until(len);
    }

    /// Log-odds, in bits, of a gap of `gap` characters between two
    /// recognizers against uniform placement: the density of the gap
    /// normalised by the area of the law over the sequence (an area of at
    /// most 10^-10 is replaced by 10^-6), against
    /// C(eff_len - gap - 1, num_recs - 1) / C(eff_len, num_recs).
    pub fn score(&self, gap: usize, seq_len: usize, eff_len: usize, num_recs: usize) -> (r: R)
        requires
            self@.wf(),
            gap < self@.len(),
            1 <= seq_len <= self@.len(),
            1 <= num_recs,
            gap + num_recs <= eff_len,
            binom(eff_len as nat, num_recs as nat) <= u64::MAX,
        ensures
            r == self@.score_spec(gap as int, seq_len as int, eff_len as int, num_recs as int),
    {
        let num = self.pdf[gap];
        let auc = self.cdf[seq_len - 1].minus(self.cdf[0]);
        let one = R::from_u64(1);
        let threshold = one.over(R::from_u64(AUC_THRESHOLD_INV));
        let num = if threshold.less_than(auc) {
            num.over(auc)
        } else {
            num.over(one.over(R::from_u64(AUC_FLOOR_INV)))
        };
        let (top, bottom) = null_counts(gap, eff_len, num_recs);
        let den = R::from_u64(top).over(R::from_u64(bottom));
        num.log2().minus(den.log2())
    }
}

/// A connector with mean gap `mu` and spread `sigma`; where the longest
/// sequence is given, its tables are computed up to it.
pub fn connector<R: Real>(mu: R, sigma: R, max_seq_len: Option<usize>) -> (r: Connector<R>)
    requires
        num::<R>(0).lt_spec(sigma),
    ensures
        r@.follows_law(0),
        r@.wf(),
        r@.mu == mu,
        r@.sigma == sigma,
        r@.alt == (Gaussian { mean: mu, std_dev: sigma }),
        r@.max_seq_len == max_seq_len,
        r@.len() == match max_seq_len {
            Some(n) => n as int,
            Option::None => 0,
        },
{
    let mut new = Connector {
        mu,
        sigma,
        alt: Gaussian { mean: mu, std_dev: sigma },
        pdf: Vec::new(),
        cdf: Vec::new(),
        max_seq_len,
    };
    if max_seq_len.is_some() {
        new.precompute();
    }
    new
}

} // verus!
