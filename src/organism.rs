use crate::connector::{binom, binomial_fits, Connector, ConnectorView};
use crate::error::OrganismError;
use crate::number::{num, Real};
use crate::placement::{
    Node,
    is_chain, lemma_total_len_lower, lemma_total_len_monotone, offset_of, total_len, traceback_ok,
    Placement,
};
use crate::aux::first_max;
use crate::recognizer::{window_score, Recognizer, RecognizerFeat, RecognizerView};
use vstd::prelude::*;

verus! {

/// How removing a recognizer treats the spacing that it leaves behind.
#[derive(Copy, Clone, Debug, PartialEq, Eq, Structural)]
pub enum DeletionMethod {
    /// A neighbouring connector absorbs the removed recognizer's length and
    /// the removed connector's spacing.
    Intelligent,
    /// The removed spacing is dropped.
    Blind,
}

/// An ordered chain of recognizers joined by connectors: recognizer `i` and
/// recognizer `i + 1` are joined by connector `i`.
#[derive(Clone, Debug)]
pub struct Organism<R> {
    recs: Vec<Recognizer<R>>,
    cons: Vec<Connector<R>>,
    id: Option<usize>,
    deletion: Option<DeletionMethod>,
}

/// What an organism holds, as mathematical values.
pub ghost struct OrganismView<R> {
    pub recs: Seq<RecognizerView<R>>,
    pub cons: Seq<ConnectorView<R>>,
    pub id: Option<usize>,
    pub deletion: Option<DeletionMethod>,
}

impl<R> View for Organism<R> {
    type V = OrganismView<R>;

    closed spec fn view(&self) -> OrganismView<R> {
        OrganismView {
            recs: self.recs@.map_values(|r: Recognizer<R>| r@),
            cons: self.cons@.map_values(|c: Connector<R>| c@),
            id: self.id,
            deletion: self.deletion,
        }
    }
}

impl<R: Real> OrganismView<R> {
    /// The lengths of the recognizers, in order.
    pub open spec fn lens(&self) -> Seq<usize> {
        self.recs.map_values(|r: RecognizerView<R>| r.len as usize)
    }

    /// The combined length of the recognizers.
    pub open spec fn len_recs(&self) -> int {
        total_len(self.lens(), self.recs.len() as int)
    }

    /// One connector fewer than recognizers (none for none).
    pub open spec fn chained(&self) -> bool {
        self.cons.len() == if self.recs.len() == 0 {
            0
        } else {
            self.recs.len() - 1
        }
    }

    /// Every recognizer is a base matrix.
    pub open spec fn all_sequence(&self) -> bool {
        forall|i: int| 0 <= i < self.recs.len() ==> (#[trigger] self.recs[i]).feat == RecognizerFeat::Sequence
    }

    /// Number of offsets of the last recognizer on a sequence of `seq_len`.
    pub open spec fn n_align(&self, seq_len: int) -> int {
        seq_len - self.len_recs() + 1
    }

    /// Number of slots of the uniform placement null model.
    pub open spec fn eff_len(&self, seq_len: int) -> int {
        seq_len - self.len_recs() + self.recs.len()
    }

    /// The characters that recognizer `i` may cover on `seq`.
    pub open spec fn window(&self, seq: Seq<char>, i: int) -> Seq<char> {
        seq.subrange(
            total_len(self.lens(), i),
            seq.len() - self.len_recs() + total_len(self.lens(), i + 1),
        )
    }

    /// Score of recognizer `i` at offset `j` on `seq`.
    pub open spec fn rec_cell(&self, seq: Seq<char>, i: int, j: int) -> R {
        window_score(self.recs[i].matrix, self.window(seq, i), j, self.recs[i].len)
    }

    /// Best score of recognizers `0..=i` and the connectors between them,
    /// with recognizer `i` at offset `j`.
    pub open spec fn best(&self, seq: Seq<char>, i: int, j: int) -> R
        decreases i, 1int, 0int,
    {
        if i <= 0 {
            self.rec_cell(seq, 0, j)
        } else {
            self.pred(seq, i, j, j + 1).0
        }
    }

    /// The best predecessor of recognizer `i` at offset `j` among the
    /// offsets `0..k` of recognizer `i - 1`, scanned from 0 upwards: the best
    /// value, its gap and the gap's score. A candidate replaces the current
    /// best only when the best is strictly below it, so the first offset to
    /// reach the best value (the smallest `k`, that is the longest gap) is kept;
    /// before any candidate the best is minus infinity, with gap 0 and gap
    /// score 0.
    pub open spec fn pred(&self, seq: Seq<char>, i: int, j: int, k: int) -> (R, usize, R)
        decreases i, 0int, k,
    {
        if i <= 0 || k <= 0 {
            (R::neg_infinity_spec(), 0, num(0))
        } else {
            let prev = self.pred(seq, i, j, k - 1);
            let gap = j - (k - 1);
            let g = self.cons[i - 1].score_spec(
                gap,
                seq.len() as int,
                self.eff_len(seq.len() as int),
                self.recs.len() as int,
            );
            let cand = self.best(seq, i - 1, k - 1).add_spec(g).add_spec(self.rec_cell(seq, i, j));
            if prev.0.lt_spec(cand) {
                (cand, gap as usize, g)
            } else {
                prev
            }
        }
    }

    /// The best scores of the whole chain, by offset of the last recognizer.
    pub open spec fn final_row(&self, seq: Seq<char>) -> Seq<R> {
        Seq::new(
            self.n_align(seq.len() as int) as nat,
            |j: int| self.best(seq, self.recs.len() - 1, j),
        )
    }

    /// `nodes` is the placement that the recurrence of `best` and `pred`
    /// gives on `seq`: the last recognizer at the first offset of largest
    /// total score, that score as `energy`, and each earlier recognizer at
    /// the offset that the gap kept by `pred` leads to; each recognizer node
    /// scores its window, each gap node the connector's score of its length.
    pub open spec fn placed_as(&self, seq: Seq<char>, nodes: Seq<crate::placement::Node<R>>, energy: R) -> bool {
        let lens = self.lens();
        let nr = self.recs.len() as int;
        let last = first_max(self.final_row(seq), self.n_align(seq.len() as int));
        &&& forall|i: int|
            0 <= i < nr ==> 0 <= #[trigger] offset_of(nodes, lens, i) < self.n_align(
                seq.len() as int,
            )
        &&& offset_of(nodes, lens, nr - 1) == last
        &&& energy == self.best(seq, nr - 1, last)
        &&& forall|i: int|
            0 <= i < nr ==> (#[trigger] nodes[2 * i]).energy == self.rec_cell(
                seq,
                i,
                offset_of(nodes, lens, i),
            )
        &&& forall|i: int|
            1 <= i < nr ==> {
                let j = offset_of(nodes, lens, i);
                let p = self.pred(seq, i, j, j + 1);
                &&& (#[trigger] nodes[2 * i - 1]).energy == p.2
                &&& nodes[2 * i - 1].stop + 1 - nodes[2 * i - 1].start == p.1
            }
    }

    /// What placing on a sequence of `seq_len` characters needs: at least
    /// one recognizer, each well formed and at least one column long, together
    /// no longer than the sequence; connector tables that reach the
    /// sequence's length; and a number of uniform placements that fits in
    /// 64 bits.
    pub open spec fn placeable(&self, seq_len: int) -> bool {
        let nr = self.recs.len();
        &&& nr >= 1
        &&& self.chained()
        &&& forall|i: int| 0 <= i < nr ==> (#[trigger] self.recs[i]).wf() && self.recs[i].len >= 1
        &&& forall|i: int|
            0 <= i < self.cons.len() ==> (#[trigger] self.cons[i]).wf() && self.cons[i].len()
                >= seq_len
        &&& self.len_recs() <= seq_len
        &&& binom((seq_len - self.len_recs() + nr) as nat, nr as nat) <= u64::MAX
    }
}

/// Index of the connector removed with recognizer `rec_idx` of `num_recs`:
/// the only neighbour at either end, else the left one when `left` holds.
pub open spec fn removed_connector(rec_idx: int, num_recs: int, left: bool) -> int {
    if rec_idx == 0 {
        0
    } else if rec_idx == num_recs - 1 {
        num_recs - 2
    } else if left {
        rec_idx - 1
    } else {
        rec_idx
    }
}

/// Index, after the removal, of the connector that absorbs the removed
/// spacing: the first connector when the first recognizer goes, the
/// second-to-last when the last goes, else the one that now joins the two
/// former neighbours of the removed recognizer.
pub open spec fn merge_target(rec_idx: int, num_recs: int) -> int {
    if rec_idx == 0 {
        0
    } else if rec_idx == num_recs - 1 {
        num_recs - 3
    } else {
        rec_idx - 1
    }
}

/// `new` is `old` with recognizer `rec_idx` removed, and with it the
/// connector `removed_connector(rec_idx, |recs|, left)`; with intelligent
/// deletion and more than one connector, the connector at
/// `merge_target(rec_idx, |recs|)` then absorbs the removed stretch: its mean
/// grows by the removed recognizer's length plus the removed connector's
/// mean, its spread `s` becomes `sqrt(s * s + r * r)` for the removed spread
/// `r`, and nothing else of it changes. With fewer than two recognizers
/// nothing is removed.
pub open spec fn removed_as<R: Real>(
    old: OrganismView<R>,
    new: OrganismView<R>,
    rec_idx: int,
    left: bool,
) -> bool {
    let nr = old.recs.len() as int;
    if nr < 2 {
        new == old
    } else {
        let gone = old.cons[removed_connector(rec_idx, nr, left)];
        let rest = old.cons.remove(removed_connector(rec_idx, nr, left));
        let ai = merge_target(rec_idx, nr);
        let shift = num::<R>(old.recs[rec_idx].len as u64).add_spec(gone.mu);
        &&& new.recs == old.recs.remove(rec_idx)
        &&& new.id == old.id
        &&& new.deletion == old.deletion
        &&& if old.deletion == Some(DeletionMethod::Intelligent) && old.cons.len() > 1 {
            &&& 0 <= ai < rest.len()
            &&& new.cons == rest.update(
                ai,
                ConnectorView {
                    mu: rest[ai].mu.add_spec(shift),
                    sigma: rest[ai].sigma.mul_spec(rest[ai].sigma).add_spec(
                        gone.sigma.mul_spec(gone.sigma),
                    ).sqrt_spec(),
                    ..rest[ai]
                },
            )
        } else {
            new.cons == rest
        }
    }
}

proof fn lemma_map_remove<A, B>(s: Seq<A>, i: int, f: spec_fn(A) -> B)
    requires
        0 <= i < s.len(),
    ensures
        s.remove(i).map_values(f) == s.map_values(f).remove(i),
{
    assert(s.remove(i).map_values(f) =~= s.map_values(f).remove(i));
}

/// Relies on rand::random::<bool>: a coin flip from the thread-local
/// generator. Nothing is assumed of its outcome.
#[verifier::external_body]
fn coin_flip() -> bool {
    rand::random::<bool>()
}

proof fn lemma_map_update<A, B>(s: Seq<A>, i: int, x: A, f: spec_fn(A) -> B)
    requires
        0 <= i < s.len(),
    ensures
        s.update(i, x).map_values(f) == s.map_values(f).update(i, f(x)),
{
    assert(s.update(i, x).map_values(f) =~= s.map_values(f).update(i, f(x)));
}

/// `n` copies of `v`.
fn filled<T: Copy>(n: usize, v: T) -> (r: Vec<T>)
    ensures
        r@ == Seq::new(n as nat, |i: int| v),
{
    let mut r: Vec<T> = Vec::new();
    let mut i: usize = 0;
    while i < n
        invariant
            i <= n,
            r@ == Seq::new(i as nat, |k: int| v),
        decreases n - i,
    {
        r.push(v);
        proof {
            assert(r@ =~= Seq::new((i + 1) as nat, |k: int| v));
        }
        i = i + 1;
    }
    r
}

/// A copy of `v`.
fn copy_of<T: Copy>(v: &Vec<T>) -> (r: Vec<T>)
    ensures
        r@ == v@,
{
    let mut r: Vec<T> = Vec::new();
    let mut i: usize = 0;
    while i < v.len()
        invariant
            i <= v@.len(),
            r@ == v@.subrange(0, i as int),
        decreases v@.len() - i,
    {
        r.push(v[i]);
        proof {
            assert(r@ =~= v@.subrange(0, i + 1));
        }
        i = i + 1;
    }
    proof {
        assert(r@ =~= v@);
    }
    r
}

impl<R: Real> Organism<R> {
    pub fn recs(&self) -> (r: &Vec<Recognizer<R>>)
        ensures
            r@.map_values(|x: Recognizer<R>| x@) == self@.recs,
    {
        &self.recs
    }

    pub fn cons(&self) -> (r: &Vec<Connector<R>>)
        ensures
            r@.map_values(|x: Connector<R>| x@) == self@.cons,
    {
        &self.cons
    }

    /// The identifier, which must have been given.
    pub fn id(&self) -> (r: usize)
        requires
            self@.id is Some,
        ensures
            self@.id == Some(r),
    {
        match self.id {
            Some(i) => i,
            Option::None => 0,
        }
    }

    /// Number of nodes: recognizers and connectors.
    pub fn len(&self) -> (r: usize)
        requires
            self@.recs.len() + self@.cons.len() <= usize::MAX,
        ensures
            r == self@.recs.len() + self@.cons.len(),
    {
        self.recs.len() + self.cons.len()
    }

    pub fn num_recs(&self) -> (r: usize)
        ensures
            r == self@.recs.len(),
    {
        self.recs.len()
    }

    pub fn num_cons(&self) -> (r: usize)
        ensures
            r == self@.cons.len(),
    {
        self.cons.len()
    }

    /// The combined length of the recognizers.
    pub fn len_recs(&self) -> (r: usize)
        requires
            self@.len_recs() <= usize::MAX,
        ensures
            r == self@.len_recs(),
    {
        let n = self.recs.len();
        let mut sum: usize = 0;
        let mut i: usize = 0;
        while i < n
            invariant
                n == self@.recs.len(),
                i <= n,
                sum == total_len(self@.lens(), i as int),
                self@.len_recs() <= usize::MAX,
            decreases n - i,
        {
            proof {
                lemma_total_len_monotone(self@.lens(), i + 1, n as int);
            }
            sum = sum + self.recs[i].len();
            i = i + 1;
        }
        sum
    }

    /// Whether the recognizers together are longer than `bound`.
    fn len_recs_exceeds(&self, bound: usize) -> (r: bool)
        ensures
            r == (self@.len_recs() > bound),
    {
        let ghost lens = self@.lens();
        let n = self.recs.len();
        let mut sum: usize = 0;
        let mut i: usize = 0;
        while i < n
            invariant
                n == self@.recs.len(),
                lens == self@.lens(),
                i <= n,
                sum == total_len(lens, i as int),
                sum <= bound,
            decreases n - i,
        {
            proof {
                lemma_total_len_monotone(lens, i + 1, n as int);
            }
            let len = self.recs[i].len();
            if len > bound - sum {
                return true;
            }
            sum = sum + len;
            i = i + 1;
        }
        false
    }

    pub fn rec_at(&self, rec_idx: usize) -> (r: &Recognizer<R>)
        requires
            rec_idx < self@.recs.len(),
        ensures
            r@ == self@.recs[rec_idx as int],
    {
        &self.recs[rec_idx]
    }

    pub fn con_at(&self, con_idx: usize) -> (r: &Connector<R>)
        requires
            con_idx < self@.cons.len(),
        ensures
            r@ == self@.cons[con_idx as int],
    {
        &self.cons[con_idx]
    }

    /// Whether `place` may be called on a sequence of `seq_len` characters
    /// (see `OrganismView::placeable`).
    pub fn can_place(&self, seq_len: usize) -> (r: bool)
        ensures
            r == self@.placeable(seq_len as int),
    {
        let ghost lens = self@.lens();
        let nr = self.recs.len();
        if nr == 0 || self.cons.len() != nr - 1 {
            return false;
        }
        let mut total: usize = 0;
        let mut i: usize = 0;
        while i < nr
            invariant
                nr == self@.recs.len(),
                lens == self@.lens(),
                i <= nr,
                total == total_len(lens, i as int),
                total <= seq_len,
                forall|k: int| 0 <= k < i ==> (#[trigger] self@.recs[k]).wf() && self@.recs[k].len >= 1,
            decreases nr - i,
        {
            let rec = &self.recs[i];
            let len = rec.len();
            if !rec.is_wf() || len < 1 {
                assert(self@.recs[i as int] == rec@);
                return false;
            }
            if len > seq_len - total {
                proof {
                    lemma_total_len_monotone(lens, i + 1, nr as int);
                }
                return false;
            }
            total = total + len;
            i = i + 1;
        }
        let nc = self.cons.len();
        let mut c: usize = 0;
        while c < nc
            invariant
                nc == self@.cons.len(),
                c <= nc,
                forall|k: int| 0 <= k < c ==> (#[trigger] self@.cons[k]).wf() && self@.cons[k].len() >= seq_len,
            decreases nc - c,
        {
            let con = &self.cons[c];
            if !con.is_wf() || con.len() < seq_len {
                assert(self@.cons[c as int] == con@);
                return false;
            }
            c = c + 1;
        }
        proof {
            assert forall|k: int| 0 <= k < nr implies #[trigger] lens[k] >= 1 by {
                assert(self@.recs[k].len >= 1);
            }
            lemma_total_len_lower(lens, nr as int);
        }
        binomial_fits(seq_len - total + nr, nr)
    }

    /// The best placement of the whole chain on `seq`.
    ///
    /// With `P(i)` the combined length of the first `i` recognizers and
    /// `n = |seq| - P(R) + 1` offsets, recognizer `i` at offset `j` covers
    /// `seq[j + P(i) .. j + P(i + 1)]`. Layer by layer, the best score with
    /// recognizer `i` at offset `j` is the largest, over the offsets `k <= j`
    /// of recognizer `i - 1`, of its best score at `k`, plus the connector's
    /// score of the gap `j - k`, plus recognizer `i`'s score at `j`; the
    /// smallest `k` that reaches the largest value is kept (see `best` and
    /// `pred`). The last recognizer goes to the first offset of largest total,
    /// and the alignment is rebuilt from there (`placed_as`).
    ///
    /// Only base matrices score: if a recognizer scores by shape, placement
    /// fails. `_precomp` is not read.
    pub fn place(&self, seq: &[char], _precomp: Option<&[R]>) -> (r: Result<
        Placement<R>,
        OrganismError,
    >)
        requires
            self@.placeable(seq@.len() as int),
        ensures
            r is Err <==> !self@.all_sequence(),
            r is Err ==> r == Err::<Placement<R>, OrganismError>(
                OrganismError::RecognizerError(crate::error::RecognizerError::ShapeUnimplemented),
            ),
            r matches Ok(p) ==> is_chain(p@.nodes, seq@, self@.lens()),
            r matches Ok(p) ==> (self@.recs.len() == 1 ==> p@.energy == p@.nodes[0].energy),
            r matches Ok(p) ==> self@.placed_as(seq@, p@.nodes, p@.energy),
    {
        let ghost lens = self@.lens();
        let ghost o = self@;
        let ghost sq = seq@;
        let num_recs = self.recs.len();
        let seq_len = seq.len();
        proof {
            lemma_total_len_monotone(lens, 1, num_recs as int);
            assert(self@.recs[0].len >= 1);
            assert(total_len(lens, 0) == 0);
            assert forall|k: int| 0 <= k < num_recs implies #[trigger] lens[k] >= 1 by {
                assert(self@.recs[k].len >= 1);
            }
            lemma_total_len_lower(lens, num_recs as int);
        }
        let min_len = self.len_recs();
        let eff_len = seq_len - min_len + num_recs;
        let n_align = seq_len - min_len + 1;
        let zero = R::from_u64(0);
        let neg = R::neg_infinity();
        let mut f_offset: usize = 0;
        let mut r_offset: usize = seq_len - min_len;
        let mut c_row: Vec<R> = filled(n_align, zero);
        let mut rs_matrix: Vec<Vec<R>> = Vec::new();
        let mut gs_matrix: Vec<Vec<R>> = Vec::new();
        let mut tr_matrix: Vec<Vec<usize>> = Vec::new();
        let mut rec_lengths: Vec<usize> = Vec::new();
        let mut i: usize = 0;
        while i < num_recs
            invariant
                self@.placeable(seq_len as int),
                lens == self@.lens(),
                num_recs == self@.recs.len(),
                seq_len == seq@.len(),
                min_len == self@.len_recs(),
                min_len == total_len(lens, num_recs as int),
                1 <= min_len <= seq_len,
                eff_len == seq_len - min_len + num_recs,
                n_align == seq_len - min_len + 1,
                i <= num_recs,
                f_offset == total_len(lens, i as int),
                r_offset == seq_len - min_len + total_len(lens, i as int),
                c_row@.len() == n_align,
                rec_lengths@ == lens.subrange(0, i as int),
                rs_matrix@.len() == i,
                gs_matrix@.len() == tr_matrix@.len(),
                i > 0 ==> gs_matrix@.len() == i - 1,
                i == 0 ==> gs_matrix@.len() == 0,
                forall|k: int| 0 <= k < rs_matrix@.len() ==> (#[trigger] rs_matrix@[k])@.len() == n_align,
                forall|k: int| 0 <= k < gs_matrix@.len() ==> (#[trigger] gs_matrix@[k])@.len() == n_align,
                forall|k: int| 0 <= k < tr_matrix@.len() ==> (#[trigger] tr_matrix@[k])@.len() == n_align,
                traceback_ok(tr_matrix@),
                i == 1 ==> c_row@ == rs_matrix@[0]@,
                forall|k: int| 0 <= k < i ==> (#[trigger] self@.recs[k]).feat == RecognizerFeat::Sequence,
                o == self@,
                sq == seq@,
                zero == num::<R>(0),
                neg == R::neg_infinity_spec(),
                forall|k: int, j: int|
                    0 <= k < i && 0 <= j < n_align ==> #[trigger] rs_matrix@[k]@[j] == o.rec_cell(
                        sq,
                        k,
                        j,
                    ),
                forall|k: int, j: int|
                    0 <= k < gs_matrix@.len() && 0 <= j < n_align ==> #[trigger] gs_matrix@[k]@[j]
                        == o.pred(sq, k + 1, j, j + 1).2,
                forall|k: int, j: int|
                    0 <= k < tr_matrix@.len() && 0 <= j < n_align ==> #[trigger] tr_matrix@[k]@[j]
                        == o.pred(sq, k + 1, j, j + 1).1,
                i >= 1 ==> forall|j: int| 0 <= j < n_align ==> #[trigger] c_row@[j] == o.best(sq, i - 1, j),
            decreases num_recs - i,
        {
            proof {
                lemma_total_len_monotone(lens, i + 1, num_recs as int);
                assert(self@.recs[i as int].wf() && self@.recs[i as int].len >= 1);
            }
            let rec = &self.recs[i];
            let len = rec.len();
            assert(lens[i as int] == len);
            rec_lengths.push(len);
            proof {
                assert(rec_lengths@ =~= lens.subrange(0, i + 1));
            }
            r_offset = r_offset + len;
            let mut row = filled(n_align, zero);
            match rec.calculate_row(&seq[f_offset..r_offset], &mut row) {
                Ok(()) => {},
                Err(e) => {
                    return Err(OrganismError::RecognizerError(e));
                },
            }
            assert(rec@ == o.recs[i as int]);
            assert(o.window(sq, i as int) == seq@.subrange(f_offset as int, r_offset as int));
            assert(forall|j: int| 0 <= j < n_align ==> #[trigger] row@[j] == o.rec_cell(sq, i as int, j));
            if i > 0 {
                let con = &self.cons[i - 1];
                assert(self@.cons[i - 1].wf());
                let mut t_row: Vec<R> = Vec::new();
                let mut tr_row: Vec<usize> = Vec::new();
                let mut gs_row: Vec<R> = Vec::new();
                let mut j: usize = 0;
                while j < n_align
                    invariant
                        self@.placeable(seq_len as int),
                        con@ == self@.cons[i - 1],
                        1 <= i < num_recs,
                        num_recs == self@.recs.len(),
                        seq_len == seq@.len(),
                        min_len == self@.len_recs(),
                        1 <= min_len <= seq_len,
                        eff_len == seq_len - min_len + num_recs,
                        n_align == seq_len - min_len + 1,
                        c_row@.len() == n_align,
                        row@.len() == n_align,
                        j <= n_align,
                        t_row@.len() == j,
                        gs_row@.len() == j,
                        tr_row@.len() == j,
                        forall|k: int| 0 <= k < j ==> #[trigger] tr_row@[k] <= k,
                        o == self@,
                        sq == seq@,
                        zero == num::<R>(0),
                        neg == R::neg_infinity_spec(),
                        forall|jj: int| 0 <= jj < n_align ==> #[trigger] row@[jj] == o.rec_cell(sq, i as int, jj),
                        forall|kk: int| 0 <= kk < n_align ==> #[trigger] c_row@[kk] == o.best(sq, i - 1, kk),
                        forall|jj: int| 0 <= jj < j ==> #[trigger] t_row@[jj] == o.best(sq, i as int, jj),
                        forall|jj: int| 0 <= jj < j ==> #[trigger] gs_row@[jj] == o.pred(sq, i as int, jj, jj + 1).2,
                        forall|jj: int| 0 <= jj < j ==> #[trigger] tr_row@[jj] == o.pred(sq, i as int, jj, jj + 1).1,
                    decreases n_align - j,
                {
                    let mut best = neg;
                    let mut best_gap: usize = 0;
                    let mut best_g = zero;
                    let mut k: usize = 0;
                    while k <= j
                        invariant
                            self@.placeable(seq_len as int),
                            con@ == self@.cons[i - 1],
                            1 <= i < num_recs,
                            num_recs == self@.recs.len(),
                            seq_len == seq@.len(),
                            min_len == self@.len_recs(),
                            1 <= min_len <= seq_len,
                            eff_len == seq_len - min_len + num_recs,
                            n_align == seq_len - min_len + 1,
                            c_row@.len() == n_align,
                            row@.len() == n_align,
                            j < n_align,
                            k <= j + 1,
                            best_gap <= j,
                            o == self@,
                            sq == seq@,
                            forall|jj: int| 0 <= jj < n_align ==> #[trigger] row@[jj] == o.rec_cell(sq, i as int, jj),
                            forall|kk: int| 0 <= kk < n_align ==> #[trigger] c_row@[kk] == o.best(sq, i - 1, kk),
                            (best, best_gap, best_g) == o.pred(sq, i as int, j as int, k as int),
                        decreases j + 1 - k,
                    {
                        let gap = j - k;
                        let g = con.score(gap, seq_len, eff_len, num_recs);
                        let cand = c_row[k].plus(g).plus(row[j]);
                        if best.less_than(cand) {
                            best = cand;
                            best_gap = gap;
                            best_g = g;
                        }
                        k = k + 1;
                    }
                    t_row.push(best);
                    tr_row.push(best_gap);
                    gs_row.push(best_g);
                    j = j + 1;
                }
                c_row = t_row;
                tr_matrix.push(tr_row);
                gs_matrix.push(gs_row);
            } else {
                c_row = copy_of(&row);
            }
            rs_matrix.push(row);
            f_offset = f_offset + len;
            i = i + 1;
        }
        proof {
            assert(rec_lengths@ =~= lens);
            assert forall|k: int| 0 <= k < lens.len() implies #[trigger] lens[k] >= 1 by {
                assert(self@.recs[k].len >= 1);
            }
            assert(c_row@ =~= o.final_row(sq));
        }
        let p = Placement::from_matrix(seq, &rs_matrix, &gs_matrix, &tr_matrix, &rec_lengths, &c_row, min_len);
        proof {
            let nodes = p@.nodes;
            assert forall|k: int| 0 <= k < num_recs implies (#[trigger] nodes[2 * k]).energy == o.rec_cell(
                sq,
                k,
                offset_of(nodes, lens, k),
            ) by {
                let j = offset_of(nodes, lens, k);
                assert(rs_matrix@[k]@[j] == o.rec_cell(sq, k, j));
            }
            assert forall|k: int| 1 <= k < num_recs implies {
                let j = offset_of(nodes, lens, k);
                let q = o.pred(sq, k, j, j + 1);
                &&& (#[trigger] nodes[2 * k - 1]).energy == q.2
                &&& nodes[2 * k - 1].stop + 1 - nodes[2 * k - 1].start == q.1
            } by {
                let j = offset_of(nodes, lens, k);
                assert(gs_matrix@[k - 1]@[j] == o.pred(sq, k - 1 + 1, j, j + 1).2);
                assert(tr_matrix@[k - 1]@[j] == o.pred(sq, k - 1 + 1, j, j + 1).1);
            }
        }
        Ok(p)
    }

    pub fn rec_at_mut(&mut self, rec_idx: usize) -> (r: &mut Recognizer<R>)
        requires
            rec_idx < old(self)@.recs.len(),
        ensures
            r@ == old(self)@.recs[rec_idx as int],
            final(self)@ == (OrganismView {
                recs: old(self)@.recs.update(rec_idx as int, final(r)@),
                ..old(self)@
            }),
    {
        let r = &mut self.recs[rec_idx];
        proof {
            lemma_map_update(old(self).recs@, rec_idx as int, *final(r), |x: Recognizer<R>| x@);
        }
        r
    }

    pub fn con_at_mut(&mut self, con_idx: usize) -> (r: &mut Connector<R>)
        requires
            con_idx < old(self)@.cons.len(),
        ensures
            r@ == old(self)@.cons[con_idx as int],
            final(self)@ == (OrganismView {
                cons: old(self)@.cons.update(con_idx as int, final(r)@),
                ..old(self)@
            }),
    {
        let r = &mut self.cons[con_idx];
        proof {
            lemma_map_update(old(self).cons@, con_idx as int, *final(r), |x: Connector<R>| x@);
        }
        r
    }

    /// Exchanges recognizers `rec_a` and `rec_b`.
    pub fn swap_rec(&mut self, rec_a: usize, rec_b: usize)
        requires
            rec_a < old(self)@.recs.len(),
            rec_b < old(self)@.recs.len(),
        ensures
            final(self)@ == (OrganismView {
                recs: old(self)@.recs.update(rec_a as int, old(self)@.recs[rec_b as int]).update(
                    rec_b as int,
                    old(self)@.recs[rec_a as int],
                ),
                ..old(self)@
            }),
    {
        if rec_a != rec_b {
            let (lo, hi) = if rec_a < rec_b { (rec_a, rec_b) } else { (rec_b, rec_a) };
            let x_hi = self.recs.remove(hi);
            let x_lo = self.recs.remove(lo);
            self.recs.insert(lo, x_hi);
            self.recs.insert(hi, x_lo);
            proof {
                assert(self@.recs =~= old(self)@.recs.update(rec_a as int, old(self)@.recs[rec_b as int]).update(
                    rec_b as int,
                    old(self)@.recs[rec_a as int],
                ));
            }
        } else {
            proof {
                assert(self@.recs =~= old(self)@.recs.update(rec_a as int, old(self)@.recs[rec_b as int]).update(
                    rec_b as int,
                    old(self)@.recs[rec_a as int],
                ));
            }
        }
    }

    /// Exchanges connectors `con_a` and `con_b`.
    pub fn swap_con(&mut self, con_a: usize, con_b: usize)
        requires
            con_a < old(self)@.cons.len(),
            con_b < old(self)@.cons.len(),
        ensures
            final(self)@ == (OrganismView {
                cons: old(self)@.cons.update(con_a as int, old(self)@.cons[con_b as int]).update(
                    con_b as int,
                    old(self)@.cons[con_a as int],
                ),
                ..old(self)@
            }),
    {
        if con_a != con_b {
            let (lo, hi) = if con_a < con_b { (con_a, con_b) } else { (con_b, con_a) };
            let x_hi = self.cons.remove(hi);
            let x_lo = self.cons.remove(lo);
            self.cons.insert(lo, x_hi);
            self.cons.insert(hi, x_lo);
        }
        proof {
            assert(self@.cons =~= old(self)@.cons.update(con_a as int, old(self)@.cons[con_b as int]).update(
                con_b as int,
                old(self)@.cons[con_a as int],
            ));
        }
    }

    /// Makes every connector's tables reach `seq_len`, so that the organism
    /// can be placed on a sequence of that length; fails, changing nothing,
    /// when the recognizers together are longer than that.
    pub fn check(&mut self, seq_len: usize) -> (r: Result<(), OrganismError>)
        requires
            forall|i: int| 0 <= i < old(self)@.cons.len() ==> (#[trigger] old(self)@.cons[i]).wf(),
        ensures
            r is Err <==> old(self)@.len_recs() > seq_len,
            r is Err ==> r == Err::<(), OrganismError>(OrganismError::ExceedSeqError) && final(self)@
                == old(self)@,
            r is Ok ==> {
                &&& final(self)@.recs == old(self)@.recs
                &&& final(self)@.id == old(self)@.id
                &&& final(self)@.deletion == old(self)@.deletion
                &&& final(self)@.cons.len() == old(self)@.cons.len()
                &&& forall|i: int|
                    0 <= i < old(self)@.cons.len() ==> {
                        &&& (#[trigger] final(self)@.cons[i]).wf()
                        &&& final(self)@.cons[i].extends(old(self)@.cons[i])
                        &&& final(self)@.cons[i].len() == if seq_len > old(self)@.cons[i].len() {
                            seq_len as int
                        } else {
                            old(self)@.cons[i].len()
                        }
                    }
            },
    {
        if self.len_recs_exceeds(seq_len) {
            return Err(OrganismError::ExceedSeqError);
        }
        let n = self.cons.len();
        let mut i: usize = 0;
        while i < n
            invariant
                n == old(self)@.cons.len(),
                i <= n,
                self@.recs == old(self)@.recs,
                self@.id == old(self)@.id,
                self@.deletion == old(self)@.deletion,
                self@.cons.len() == n,
                forall|k: int| i <= k < n ==> #[trigger] self@.cons[k] == old(self)@.cons[k],
                forall|k: int| 0 <= k < n ==> (#[trigger] old(self)@.cons[k]).wf(),
                forall|k: int|
                    0 <= k < i ==> {
                        &&& (#[trigger] self@.cons[k]).wf()
                        &&& self@.cons[k].extends(old(self)@.cons[k])
                        &&& self@.cons[k].len() == if seq_len > old(self)@.cons[k].len() {
                            seq_len as int
                        } else {
                            old(self)@.cons[k].len()
                        }
                    },
            decreases n - i,
        {
            proof {
                old(self)@.cons[i as int].lemma_extends_itself();
            }
            let con = self.con_at_mut(i);
            if seq_len > con.len() {
                con.compute_until(seq_len);
            }
            i = i + 1;
        }
        Ok(())
    }

    /// The structural insertion of a recognizer is not defined; the organism
    /// is left as it is.
    pub fn insert(&mut self, _rec_idx: usize)
        ensures
            final(self)@ == old(self)@,
    {
    }

    /// Removes recognizer `rec_idx` and one adjacent connector: the first
    /// connector for the first recognizer, the last for the last, else the
    /// left one or the right one at random. With intelligent deletion the
    /// connector that now spans the removed stretch absorbs it: its mean
    /// grows by the removed recognizer's length and the removed connector's
    /// mean, and its spread combines with the removed spread as independent
    /// variances do. Nothing happens with fewer than two recognizers.
    pub fn remove(&mut self, rec_idx: usize)
        requires
            old(self)@.chained(),
            old(self)@.recs.len() >= 2 ==> rec_idx < old(self)@.recs.len(),
        ensures
            exists|left: bool| removed_as(old(self)@, final(self)@, rec_idx as int, left),
    {
        let left = coin_flip();
        self.remove_with(rec_idx, left);
    }

    /// `remove` with the random choice made: `left` removes, for an interior
    /// recognizer, the connector on its left rather than the one on its right.
    pub fn remove_with(&mut self, rec_idx: usize, left: bool)
        requires
            old(self)@.chained(),
            old(self)@.recs.len() >= 2 ==> rec_idx < old(self)@.recs.len(),
        ensures
            removed_as(old(self)@, final(self)@, rec_idx as int, left),
    {
        let num_recs = self.recs.len();
        let num_cons = self.cons.len();
        if num_recs < 2 {
            return;
        }
        let con_idx = if rec_idx == 0 {
            0
        } else if rec_idx == num_cons {
            num_recs - 2
        } else if left {
            rec_idx - 1
        } else {
            rec_idx
        };
        let deleted_rec = self.recs.remove(rec_idx);
        let deleted_con = self.cons.remove(con_idx);
        proof {
            lemma_map_remove(old(self).recs@, rec_idx as int, |x: Recognizer<R>| x@);
            lemma_map_remove(old(self).cons@, con_idx as int, |x: Connector<R>| x@);
        }
        let merge = match self.deletion {
            Some(DeletionMethod::Intelligent) => num_cons > 1,
            _ => false,
        };
        if merge {
            let adj_idx = if rec_idx == 0 {
                0
            } else if rec_idx == num_cons {
                con_idx - 1
            } else {
                rec_idx - 1
            };
            let shift = R::from_u64(deleted_rec.len() as u64).plus(deleted_con.mu());
            let ghost before = self@;
            let con = self.con_at_mut(adj_idx);
            con.add_mu(shift);
            con.add_sigma(deleted_con.sigma());
            proof {
                let rest = before.cons;
                let target = rest[adj_idx as int];
                assert(self@.cons =~= rest.update(
                    adj_idx as int,
                    ConnectorView {
                        mu: target.mu.add_spec(shift),
                        sigma: target.sigma.mul_spec(target.sigma).add_spec(
                            deleted_con@.sigma.mul_spec(deleted_con@.sigma),
                        ).sqrt_spec(),
                        ..target
                    },
                ));
            }
        }
    }
}

/// An organism of the given recognizers and connectors.
pub fn organism<R: Real>(
    recs: Vec<Recognizer<R>>,
    cons: Vec<Connector<R>>,
    id: Option<usize>,
    deletion: Option<DeletionMethod>,
) -> (r: Organism<R>)
    ensures
        r@.recs == recs@.map_values(|x: Recognizer<R>| x@),
        r@.cons == cons@.map_values(|x: Connector<R>| x@),
        r@.id == id,
        r@.deletion == deletion,
{
    Organism { recs, cons, id, deletion }
}

/// The node scores of `nodes[0..t]` added left to right.
pub open spec fn chain_energy<R: Real>(nodes: Seq<Node<R>>, t: int) -> R
    decreases t,
{
    if t <= 1 {
        nodes[0].energy
    } else {
        chain_energy(nodes, t - 1).add_spec(nodes[t - 1].energy)
    }
}

impl<R: Real> OrganismView<R> {
    /// Recognizer `i` at offset `j` was reached from some offset of
    /// recognizer `i - 1`: some candidate beat the starting minus infinity.
    pub open spec fn reached(&self, seq: Seq<char>, i: int, j: int) -> bool {
        self.pred(seq, i, j, j + 1) != (R::neg_infinity_spec(), 0usize, num::<R>(0))
    }

    /// A best predecessor that some candidate set is that candidate: the
    /// best value is the predecessor's best plus the gap score plus the
    /// recognizer's score, at a gap no longer than the offset.
    pub proof fn lemma_pred_is_candidate(&self, seq: Seq<char>, i: int, j: int, k: int)
        requires
            i >= 1,
            0 <= j <= usize::MAX,
            0 <= k <= j + 1,
            self.pred(seq, i, j, k) != (R::neg_infinity_spec(), 0usize, num::<R>(0)),
        ensures
            ({
                let p = self.pred(seq, i, j, k);
                let gap = p.1 as int;
                &&& 0 <= gap <= j
                &&& j - gap < k
                &&& p.2 == self.cons[i - 1].score_spec(
                    gap,
                    seq.len() as int,
                    self.eff_len(seq.len() as int),
                    self.recs.len() as int,
                )
                &&& p.0 == self.best(seq, i - 1, j - gap).add_spec(p.2).add_spec(
                    self.rec_cell(seq, i, j),
                )
            }),
        decreases k,
    {
        let prev = self.pred(seq, i, j, k - 1);
        let gap = j - (k - 1);
        let g = self.cons[i - 1].score_spec(
            gap,
            seq.len() as int,
            self.eff_len(seq.len() as int),
            self.recs.len() as int,
        );
        let cand = self.best(seq, i - 1, k - 1).add_spec(g).add_spec(self.rec_cell(seq, i, j));
        if !prev.0.lt_spec(cand) {
            self.lemma_pred_is_candidate(seq, i, j, k - 1);
        }
    }

    /// The total score of a placement is its node scores added left to right,
    /// when every recognizer after the first was reached from its
    /// predecessor (with floats: when some candidate beat minus infinity,
    /// which holds whenever the scores are finite).
    pub proof fn lemma_energy_is_node_sum(&self, seq: Seq<char>, nodes: Seq<Node<R>>, energy: R)
        requires
            self.recs.len() >= 1,
            is_chain(nodes, seq, self.lens()),
            self.placed_as(seq, nodes, energy),
            forall|i: int|
                1 <= i < self.recs.len() ==> #[trigger] self.reached(
                    seq,
                    i,
                    offset_of(nodes, self.lens(), i),
                ),
        ensures
            energy == chain_energy(nodes, nodes.len() as int),
    {
        let nr = self.recs.len() as int;
        self.lemma_chain_prefix_sum(seq, nodes, energy, nr - 1);
    }

    /// In a placement, recognizer `i - 1` sits where the gap kept by `pred`
    /// for recognizer `i` leads.
    proof fn lemma_offset_step(&self, seq: Seq<char>, nodes: Seq<Node<R>>, energy: R, i: int)
        requires
            1 <= i < self.recs.len(),
            is_chain(nodes, seq, self.lens()),
            self.placed_as(seq, nodes, energy),
        ensures
            ({
                let j = offset_of(nodes, self.lens(), i);
                offset_of(nodes, self.lens(), i - 1) == j - self.pred(seq, i, j, j + 1).1
            }),
    {
        let lens = self.lens();
        let j = offset_of(nodes, lens, i);
        let p = self.pred(seq, i, j, j + 1);
        assert(nodes[2 * i - 1].stop + 1 - nodes[2 * i - 1].start == p.1);
        assert(nodes[2 * (i - 1)].stop + 1 == nodes[2 * i - 1].start);
        assert(nodes[2 * i - 1].stop + 1 == nodes[2 * i].start);
        assert(nodes[2 * (i - 1)].stop + 1 - nodes[2 * (i - 1)].start == lens[i - 1]);
        assert(total_len(lens, i) == total_len(lens, i - 1) + lens[i - 1]);
    }

    proof fn lemma_offsets_agree(
        &self,
        seq: Seq<char>,
        nodes1: Seq<Node<R>>,
        energy1: R,
        nodes2: Seq<Node<R>>,
        energy2: R,
        i: int,
    )
        requires
            0 <= i < self.recs.len(),
            is_chain(nodes1, seq, self.lens()),
            self.placed_as(seq, nodes1, energy1),
            is_chain(nodes2, seq, self.lens()),
            self.placed_as(seq, nodes2, energy2),
        ensures
            offset_of(nodes1, self.lens(), i) == offset_of(nodes2, self.lens(), i),
        decreases self.recs.len() - i,
    {
        if i < self.recs.len() - 1 {
            self.lemma_offsets_agree(seq, nodes1, energy1, nodes2, energy2, i + 1);
            self.lemma_offset_step(seq, nodes1, energy1, i + 1);
            self.lemma_offset_step(seq, nodes2, energy2, i + 1);
        }
    }

    /// Placement is deterministic: two placements that both follow the
    /// recurrence on one sequence have the same total score and the same
    /// nodes.
    pub proof fn lemma_placement_unique(
        &self,
        seq: Seq<char>,
        nodes1: Seq<Node<R>>,
        energy1: R,
        nodes2: Seq<Node<R>>,
        energy2: R,
    )
        requires
            self.recs.len() >= 1,
            is_chain(nodes1, seq, self.lens()),
            self.placed_as(seq, nodes1, energy1),
            is_chain(nodes2, seq, self.lens()),
            self.placed_as(seq, nodes2, energy2),
        ensures
            energy1 == energy2,
            nodes1.len() == nodes2.len(),
            forall|t: int|
                0 <= t < nodes1.len() ==> {
                    &&& (#[trigger] nodes1[t]).node_type == nodes2[t].node_type
                    &&& nodes1[t].start == nodes2[t].start
                    &&& nodes1[t].stop == nodes2[t].stop
                    &&& nodes1[t].energy == nodes2[t].energy
                    &&& nodes1[t].seq@ == nodes2[t].seq@
                },
    {
        let lens = self.lens();
        let nr = self.recs.len() as int;
        assert forall|t: int| 0 <= t < nodes1.len() implies {
            &&& (#[trigger] nodes1[t]).node_type == nodes2[t].node_type
            &&& nodes1[t].start == nodes2[t].start
            &&& nodes1[t].stop == nodes2[t].stop
            &&& nodes1[t].energy == nodes2[t].energy
            &&& nodes1[t].seq@ == nodes2[t].seq@
        } by {
            let k = t / 2;
            if t == 2 * k {
                self.lemma_offsets_agree(seq, nodes1, energy1, nodes2, energy2, k);
                assert(nodes1[2 * k].stop + 1 - nodes1[2 * k].start == lens[k]);
                assert(nodes2[2 * k].stop + 1 - nodes2[2 * k].start == lens[k]);
            } else {
                assert(t == 2 * (k + 1) - 1);
                self.lemma_offsets_agree(seq, nodes1, energy1, nodes2, energy2, k);
                self.lemma_offsets_agree(seq, nodes1, energy1, nodes2, energy2, k + 1);
                assert(nodes1[2 * k].stop + 1 == nodes1[t].start);
                assert(nodes2[2 * k].stop + 1 == nodes2[t].start);
                assert(nodes1[t].stop + 1 == nodes1[2 * (k + 1)].start);
                assert(nodes2[t].stop + 1 == nodes2[2 * (k + 1)].start);
                assert(nodes1[2 * k].stop + 1 - nodes1[2 * k].start == lens[k]);
                assert(nodes2[2 * k].stop + 1 - nodes2[2 * k].start == lens[k]);
                assert(nodes1[2 * (k + 1) - 1].energy == nodes2[2 * (k + 1) - 1].energy);
            }
        }
    }

    proof fn lemma_chain_prefix_sum(&self, seq: Seq<char>, nodes: Seq<Node<R>>, energy: R, i: int)
        requires
            0 <= i < self.recs.len(),
            is_chain(nodes, seq, self.lens()),
            self.placed_as(seq, nodes, energy),
            forall|k: int|
                1 <= k < self.recs.len() ==> #[trigger] self.reached(
                    seq,
                    k,
                    offset_of(nodes, self.lens(), k),
                ),
        ensures
            chain_energy(nodes, 2 * i + 1) == self.best(seq, i, offset_of(nodes, self.lens(), i)),
        decreases i,
    {
        let lens = self.lens();
        let j = offset_of(nodes, lens, i);
        assert(nodes[2 * i].energy == self.rec_cell(seq, i, j));
        lemma_total_len_monotone(lens, 0, i);
        assert(j <= usize::MAX);
        if i > 0 {
            self.lemma_chain_prefix_sum(seq, nodes, energy, i - 1);
            assert(self.reached(seq, i, j));
            self.lemma_pred_is_candidate(seq, i, j, j + 1);
            let p = self.pred(seq, i, j, j + 1);
            assert(nodes[2 * i - 1].energy == p.2);
            self.lemma_offset_step(seq, nodes, energy, i);
            assert(chain_energy(nodes, 2 * i) == chain_energy(nodes, 2 * i - 1).add_spec(
                nodes[2 * i - 1].energy,
            ));
            assert(chain_energy(nodes, 2 * i + 1) == chain_energy(nodes, 2 * i - 1).add_spec(
                nodes[2 * i - 1].energy,
            ).add_spec(nodes[2 * i].energy));
        }
    }
}

} // verus!
