use crate::aux::{first_max, maxf_idx};
use crate::number::{num, Real};
use vstd::prelude::*;

verus! {

/// Whether a node of a placement is a recognizer match or a gap.
#[derive(Copy, Clone, Debug, PartialEq, Eq, Structural)]
pub enum NodeType {
    Recognizer,
    Connector,
}

/// One matched segment `start..=stop` of the sequence, with its score and
/// its text. An empty gap has `stop + 1 == start`.
#[derive(Clone, Debug)]
pub struct Node<R> {
    pub node_type: NodeType,
    pub start: usize,
    pub stop: usize,
    pub energy: R,
    pub seq: Vec<char>,
}

impl<R: Copy> Node<R> {
    pub fn node_type(&self) -> (r: NodeType)
        ensures
            r == self.node_type,
    {
        self.node_type
    }
}

/// Sum of the first `i` lengths.
pub open spec fn total_len(lens: Seq<usize>, i: int) -> int
    decreases i,
{
    if i <= 0 {
        0
    } else {
        total_len(lens, i - 1) + lens[i - 1]
    }
}

pub proof fn lemma_total_len_monotone(lens: Seq<usize>, i: int, j: int)
    requires
        0 <= i <= j,
    ensures
        total_len(lens, i) <= total_len(lens, j),
    decreases j,
{
    if i < j {
        lemma_total_len_monotone(lens, i, j - 1);
    }
}

/// With every length at least one, `i` lengths add up to at least `i`.
pub proof fn lemma_total_len_lower(lens: Seq<usize>, i: int)
    requires
        0 <= i <= lens.len(),
        forall|k: int| 0 <= k < i ==> #[trigger] lens[k] >= 1,
    ensures
        total_len(lens, i) >= i,
    decreases i,
{
    if i > 0 {
        lemma_total_len_lower(lens, i - 1);
    }
}

/// `nodes` lays `lens.len()` recognizers, joined by gaps, left to right
/// along `seq`: recognizer `i` is node `2 i`, the gap before it node
/// `2 i - 1`; each node ends just before the next starts, recognizer `i`
/// covers `lens[i]` characters, and each node's text is its segment.
pub open spec fn is_chain<R>(nodes: Seq<Node<R>>, seq: Seq<char>, lens: Seq<usize>) -> bool {
    let nr = lens.len() as int;
    &&& nodes.len() == 2 * nr - 1
    &&& forall|i: int| 0 <= i < nr ==> (#[trigger] nodes[2 * i]).node_type == NodeType::Recognizer
    &&& forall|i: int|
        0 <= i < nr ==> (#[trigger] nodes[2 * i]).stop + 1 - nodes[2 * i].start == lens[i]
    &&& forall|i: int|
        0 <= i < nr - 1 ==> (#[trigger] nodes[2 * i + 1]).node_type == NodeType::Connector
    &&& forall|s: int, t: int|
        #![trigger nodes[s].stop, nodes[t].start]
        0 <= s && t == s + 1 && t < nodes.len() ==> nodes[s].stop + 1 == nodes[t].start
    &&& forall|t: int| 0 <= t < nodes.len() ==> (#[trigger] nodes[t]).start <= nodes[t].stop + 1
    &&& forall|t: int| 0 <= t < nodes.len() ==> (#[trigger] nodes[t]).stop < seq.len()
    &&& forall|t: int|
        0 <= t < nodes.len() ==> (#[trigger] nodes[t]).seq@ == seq.subrange(
            nodes[t].start as int,
            nodes[t].stop + 1,
        )
}

/// Offset of recognizer `i` in a chain: how far right of its leftmost
/// possible position it starts.
pub open spec fn offset_of<R>(nodes: Seq<Node<R>>, lens: Seq<usize>, i: int) -> int {
    nodes[2 * i].start - total_len(lens, i)
}

/// The dimensions that the score and traceback matrices of `lens.len()`
/// recognizers over `n` offsets have.
pub open spec fn matrices_shaped<R>(
    rs: Seq<Vec<R>>,
    gs: Seq<Vec<R>>,
    tr: Seq<Vec<usize>>,
    lens: Seq<usize>,
    n: int,
) -> bool {
    &&& lens.len() >= 1
    &&& rs.len() == lens.len()
    &&& gs.len() == lens.len() - 1
    &&& tr.len() == lens.len() - 1
    &&& forall|i: int| 0 <= i < rs.len() ==> (#[trigger] rs[i])@.len() == n
    &&& forall|i: int| 0 <= i < gs.len() ==> (#[trigger] gs[i])@.len() == n
    &&& forall|i: int| 0 <= i < tr.len() ==> (#[trigger] tr[i])@.len() == n
    &&& forall|i: int| 0 <= i < lens.len() ==> #[trigger] lens[i] >= 1
}

/// Each recorded gap fits left of its offset: `tr[i][j] <= j`.
pub open spec fn traceback_ok(tr: Seq<Vec<usize>>) -> bool {
    forall|i: int, j: int| 0 <= i < tr.len() && 0 <= j < tr[i]@.len() ==> #[trigger] tr[i]@[j] <= j
}

/// The chain `nodes` is the one that the traceback `tr` gives from the end
/// offset of the last recognizer, with the scores that the matrices record
/// there: each recognizer scores its `rs` cell, each gap its `gs` cell, and
/// each gap is as long as `tr` says.
pub open spec fn follows_traceback<R>(
    nodes: Seq<Node<R>>,
    rs: Seq<Vec<R>>,
    gs: Seq<Vec<R>>,
    tr: Seq<Vec<usize>>,
    lens: Seq<usize>,
) -> bool {
    let nr = lens.len() as int;
    &&& forall|i: int|
        0 <= i < nr ==> (#[trigger] nodes[2 * i]).energy == rs[i]@[offset_of(nodes, lens, i)]
    &&& forall|i: int|
        1 <= i < nr ==> (#[trigger] nodes[2 * i - 1]).energy == gs[i - 1]@[offset_of(
            nodes,
            lens,
            i,
        )]
    &&& forall|i: int|
        1 <= i < nr ==> tr[i - 1]@[offset_of(nodes, lens, i)] as int == (#[trigger] nodes[2 * i
            - 1]).stop + 1 - nodes[2 * i - 1].start
}

/// Node `nd` is recognizer `k` at offset `offs[k]`.
spec fn rec_node_at<R>(
    nd: Node<R>,
    k: int,
    offs: Seq<usize>,
    lens: Seq<usize>,
    rs: Seq<Vec<R>>,
    seq: Seq<char>,
) -> bool {
    &&& nd.node_type == NodeType::Recognizer
    &&& nd.start == offs[k] + total_len(lens, k)
    &&& nd.stop + 1 == offs[k] + total_len(lens, k + 1)
    &&& nd.energy == rs[k]@[offs[k] as int]
    &&& nd.seq@ == seq.subrange(nd.start as int, nd.stop + 1)
}

/// Node `nd` is the gap between recognizers `k - 1` and `k`.
spec fn gap_node_at<R>(
    nd: Node<R>,
    k: int,
    offs: Seq<usize>,
    lens: Seq<usize>,
    gs: Seq<Vec<R>>,
    seq: Seq<char>,
) -> bool {
    &&& nd.node_type == NodeType::Connector
    &&& nd.start == offs[k - 1] + total_len(lens, k)
    &&& nd.stop + 1 == offs[k] + total_len(lens, k)
    &&& nd.energy == gs[k - 1]@[offs[k] as int]
    &&& nd.seq@ == seq.subrange(nd.start as int, nd.stop + 1)
}

/// Node `nd` is node `t` of the chain that the offsets `offs` give:
/// recognizer `t / 2` when `t` is even, else the gap before recognizer
/// `(t + 1) / 2`.
spec fn node_ok<R>(
    nd: Node<R>,
    t: int,
    offs: Seq<usize>,
    lens: Seq<usize>,
    rs: Seq<Vec<R>>,
    gs: Seq<Vec<R>>,
    seq: Seq<char>,
) -> bool {
    if t % 2 == 0 {
        rec_node_at(nd, t / 2, offs, lens, rs, seq)
    } else {
        gap_node_at(nd, (t + 1) / 2, offs, lens, gs, seq)
    }
}

/// What the nodes built from the offsets `offs` satisfy.
#[verifier::opaque]
spec fn built_from_offsets<R>(
    nodes: Seq<Node<R>>,
    offs: Seq<usize>,
    rs: Seq<Vec<R>>,
    gs: Seq<Vec<R>>,
    tr: Seq<Vec<usize>>,
    lens: Seq<usize>,
    seq: Seq<char>,
    n: int,
) -> bool {
    &&& lens.len() >= 1
    &&& seq.len() == n - 1 + total_len(lens, lens.len() as int)
    &&& offs.len() == lens.len()
    &&& forall|k: int| 0 <= k < lens.len() ==> #[trigger] lens[k] >= 1
    &&& forall|k: int| 0 <= k < lens.len() ==> #[trigger] offs[k] < n
    &&& forall|k: int|
        0 <= k < lens.len() - 1 ==> #[trigger] offs[k] == offs[k + 1] - tr[k]@[offs[k + 1] as int]
    &&& nodes.len() == 2 * lens.len() - 1
    &&& forall|t: int|
        0 <= t < nodes.len() ==> node_ok(#[trigger] nodes[t], t, offs, lens, rs, gs, seq)
}

proof fn lemma_node_facts<R>(
    nodes: Seq<Node<R>>,
    offs: Seq<usize>,
    rs: Seq<Vec<R>>,
    gs: Seq<Vec<R>>,
    tr: Seq<Vec<usize>>,
    lens: Seq<usize>,
    seq: Seq<char>,
    n: int,
    t: int,
)
    requires
        built_from_offsets(nodes, offs, rs, gs, tr, lens, seq, n),
        0 <= t < nodes.len(),
    ensures
        nodes.len() == 2 * lens.len() - 1,
        nodes[t].start <= nodes[t].stop + 1,
        nodes[t].stop < seq.len(),
        nodes[t].seq@ == seq.subrange(nodes[t].start as int, nodes[t].stop + 1),
        t < nodes.len() - 1 ==> nodes[t].stop + 1 == nodes[t + 1].start,
{
    reveal(built_from_offsets);
    let nr = lens.len() as int;
    let k = t / 2;
    lemma_total_len_monotone(lens, k + 1, nr);
    assert(node_ok(nodes[t], t, offs, lens, rs, gs, seq));
    if t % 2 == 0 {
        assert(lens[k] >= 1);
        assert(offs[k] < n);
        if t < nodes.len() - 1 {
            assert(node_ok(nodes[t + 1], t + 1, offs, lens, rs, gs, seq));
            assert((t + 1) % 2 == 1 && (t + 2) / 2 == k + 1);
        }
    } else {
        assert(node_ok(nodes[t + 1], t + 1, offs, lens, rs, gs, seq));
        assert((t + 1) % 2 == 0 && (t + 1) / 2 == k + 1);
        assert(offs[k] == offs[k + 1] - tr[k]@[offs[k + 1] as int]);
        assert(offs[k + 1] < n);
        assert(lens[k + 1] >= 1);
    }
}

proof fn lemma_built_len<R>(
    nodes: Seq<Node<R>>,
    offs: Seq<usize>,
    rs: Seq<Vec<R>>,
    gs: Seq<Vec<R>>,
    tr: Seq<Vec<usize>>,
    lens: Seq<usize>,
    seq: Seq<char>,
    n: int,
)
    requires
        built_from_offsets(nodes, offs, rs, gs, tr, lens, seq, n),
    ensures
        nodes.len() == 2 * lens.len() - 1,
        offs.len() == lens.len(),
        lens.len() >= 1,
{
    reveal(built_from_offsets);
}

proof fn lemma_rec_node<R>(
    nodes: Seq<Node<R>>,
    offs: Seq<usize>,
    rs: Seq<Vec<R>>,
    gs: Seq<Vec<R>>,
    tr: Seq<Vec<usize>>,
    lens: Seq<usize>,
    seq: Seq<char>,
    n: int,
    k: int,
)
    requires
        built_from_offsets(nodes, offs, rs, gs, tr, lens, seq, n),
        0 <= k < lens.len(),
    ensures
        offset_of(nodes, lens, k) == offs[k],
        nodes[2 * k].node_type == NodeType::Recognizer,
        nodes[2 * k].stop + 1 - nodes[2 * k].start == lens[k],
        nodes[2 * k].energy == rs[k]@[offs[k] as int],
{
    reveal(built_from_offsets);
    assert(node_ok(nodes[2 * k], 2 * k, offs, lens, rs, gs, seq));
    assert((2 * k) % 2 == 0 && (2 * k) / 2 == k);
}

proof fn lemma_gap_node<R>(
    nodes: Seq<Node<R>>,
    offs: Seq<usize>,
    rs: Seq<Vec<R>>,
    gs: Seq<Vec<R>>,
    tr: Seq<Vec<usize>>,
    lens: Seq<usize>,
    seq: Seq<char>,
    n: int,
    k: int,
)
    requires
        built_from_offsets(nodes, offs, rs, gs, tr, lens, seq, n),
        1 <= k < lens.len(),
    ensures
        nodes[2 * k - 1].node_type == NodeType::Connector,
        nodes[2 * k - 1].energy == gs[k - 1]@[offs[k] as int],
        tr[k - 1]@[offs[k] as int] as int == nodes[2 * k - 1].stop + 1 - nodes[2 * k - 1].start,
{
    reveal(built_from_offsets);
    assert(node_ok(nodes[2 * k - 1], 2 * k - 1, offs, lens, rs, gs, seq));
    assert((2 * k - 1) % 2 == 1 && (2 * k) / 2 == k);
    assert(node_ok(nodes[2 * k], 2 * k, offs, lens, rs, gs, seq));
    assert((2 * k) % 2 == 0);
    assert(offs[k - 1] == offs[k] - tr[k - 1]@[offs[k] as int]);
}

/// Recognizer nodes: offsets, kinds, lengths and scores.
proof fn lemma_chain_recs<R>(
    nodes: Seq<Node<R>>,
    offs: Seq<usize>,
    rs: Seq<Vec<R>>,
    gs: Seq<Vec<R>>,
    tr: Seq<Vec<usize>>,
    lens: Seq<usize>,
    seq: Seq<char>,
    n: int,
)
    requires
        built_from_offsets(nodes, offs, rs, gs, tr, lens, seq, n),
    ensures
        forall|k: int| 0 <= k < lens.len() ==> #[trigger] offset_of(nodes, lens, k) == offs[k],
        forall|i: int| 0 <= i < lens.len() ==> (#[trigger] nodes[2 * i]).node_type
        == NodeType::Recognizer,
        forall|i: int|
        0 <= i < lens.len() ==> (#[trigger] nodes[2 * i]).stop + 1 - nodes[2 * i].start == lens[i],
        forall|i: int| 0 <= i < lens.len() ==> (#[trigger] nodes[2 * i]).energy == rs[i]@[offset_of(
        nodes,
        lens,
        i,
    )],
{
    lemma_built_len(nodes, offs, rs, gs, tr, lens, seq, n);
    let nr = lens.len() as int;
    assert forall|k: int| 0 <= k < nr implies #[trigger] offset_of(nodes, lens, k) == offs[k] by {
        lemma_rec_node(nodes, offs, rs, gs, tr, lens, seq, n, k);
    }
    assert forall|i: int| 0 <= i < nr implies (#[trigger] nodes[2 * i]).node_type
        == NodeType::Recognizer by {
        lemma_rec_node(nodes, offs, rs, gs, tr, lens, seq, n, i);
    }
    assert forall|i: int|
        0 <= i < nr implies (#[trigger] nodes[2 * i]).stop + 1 - nodes[2 * i].start == lens[i] by {
        lemma_rec_node(nodes, offs, rs, gs, tr, lens, seq, n, i);
    }
    assert forall|i: int| 0 <= i < nr implies (#[trigger] nodes[2 * i]).energy == rs[i]@[offset_of(
        nodes,
        lens,
        i,
    )] by {
        lemma_rec_node(nodes, offs, rs, gs, tr, lens, seq, n, i);
    }
}

/// Gap nodes: kinds, scores and lengths.
proof fn lemma_chain_gaps<R>(
    nodes: Seq<Node<R>>,
    offs: Seq<usize>,
    rs: Seq<Vec<R>>,
    gs: Seq<Vec<R>>,
    tr: Seq<Vec<usize>>,
    lens: Seq<usize>,
    seq: Seq<char>,
    n: int,
)
    requires
        built_from_offsets(nodes, offs, rs, gs, tr, lens, seq, n),
    ensures
        forall|i: int| 0 <= i < lens.len() - 1 ==> (#[trigger] nodes[2 * i + 1]).node_type
        == NodeType::Connector,
        forall|i: int| 1 <= i < lens.len() ==> (#[trigger] nodes[2 * i - 1]).energy == gs[i
        - 1]@[offset_of(nodes, lens, i)],
        forall|i: int| 1 <= i < lens.len() ==> tr[i - 1]@[offset_of(nodes, lens, i)] as int == (
    #[trigger] nodes[2 * i - 1]).stop + 1 - nodes[2 * i - 1].start,
{
    lemma_built_len(nodes, offs, rs, gs, tr, lens, seq, n);
    let nr = lens.len() as int;
    assert forall|i: int| 0 <= i < nr - 1 implies (#[trigger] nodes[2 * i + 1]).node_type
        == NodeType::Connector by {
        lemma_gap_node(nodes, offs, rs, gs, tr, lens, seq, n, i + 1);
        assert(2 * (i + 1) - 1 == 2 * i + 1);
    }
    assert forall|i: int| 1 <= i < nr implies (#[trigger] nodes[2 * i - 1]).energy == gs[i
        - 1]@[offset_of(nodes, lens, i)] by {
        lemma_gap_node(nodes, offs, rs, gs, tr, lens, seq, n, i);
        lemma_rec_node(nodes, offs, rs, gs, tr, lens, seq, n, i);
    }
    assert forall|i: int| 1 <= i < nr implies tr[i - 1]@[offset_of(nodes, lens, i)] as int == (
    #[trigger] nodes[2 * i - 1]).stop + 1 - nodes[2 * i - 1].start by {
        lemma_gap_node(nodes, offs, rs, gs, tr, lens, seq, n, i);
        lemma_rec_node(nodes, offs, rs, gs, tr, lens, seq, n, i);
    }
}

/// Every node is a segment of the sequence, right after the one before.
proof fn lemma_chain_segments<R>(
    nodes: Seq<Node<R>>,
    offs: Seq<usize>,
    rs: Seq<Vec<R>>,
    gs: Seq<Vec<R>>,
    tr: Seq<Vec<usize>>,
    lens: Seq<usize>,
    seq: Seq<char>,
    n: int,
)
    requires
        built_from_offsets(nodes, offs, rs, gs, tr, lens, seq, n),
    ensures
        forall|s: int, t: int|
            #![trigger nodes[s].stop, nodes[t].start]
            0 <= s && t == s + 1 && t < nodes.len() ==> nodes[s].stop + 1 == nodes[t].start,
        forall|t: int| 0 <= t < nodes.len() ==> (#[trigger] nodes[t]).start <= nodes[t].stop
        + 1,
        forall|t: int| 0 <= t < nodes.len() ==> (#[trigger] nodes[t]).stop < seq.len(),
        forall|t: int| 0 <= t < nodes.len() ==> (#[trigger] nodes[t]).seq@ == seq.subrange(
        nodes[t].start as int,
        nodes[t].stop + 1,
    ),
{
    lemma_built_len(nodes, offs, rs, gs, tr, lens, seq, n);
    assert forall|s: int, t: int|
        #![trigger nodes[s].stop, nodes[t].start]
        0 <= s && t == s + 1 && t < nodes.len() implies nodes[s].stop + 1 == nodes[t].start by {
        lemma_node_facts(nodes, offs, rs, gs, tr, lens, seq, n, s);
    }
    assert forall|t: int| 0 <= t < nodes.len() implies (#[trigger] nodes[t]).start <= nodes[t].stop
        + 1 by {
        lemma_node_facts(nodes, offs, rs, gs, tr, lens, seq, n, t);
    }
    assert forall|t: int| 0 <= t < nodes.len() implies (#[trigger] nodes[t]).stop < seq.len() by {
        lemma_node_facts(nodes, offs, rs, gs, tr, lens, seq, n, t);
    }
    assert forall|t: int| 0 <= t < nodes.len() implies (#[trigger] nodes[t]).seq@ == seq.subrange(
        nodes[t].start as int,
        nodes[t].stop + 1,
    ) by {
        lemma_node_facts(nodes, offs, rs, gs, tr, lens, seq, n, t);
    }
}

proof fn lemma_chain_from_offsets<R>(
    nodes: Seq<Node<R>>,
    offs: Seq<usize>,
    rs: Seq<Vec<R>>,
    gs: Seq<Vec<R>>,
    tr: Seq<Vec<usize>>,
    lens: Seq<usize>,
    seq: Seq<char>,
    n: int,
)
    requires
        built_from_offsets(nodes, offs, rs, gs, tr, lens, seq, n),
    ensures
        is_chain(nodes, seq, lens),
        follows_traceback(nodes, rs, gs, tr, lens),
        forall|k: int| 0 <= k < lens.len() ==> #[trigger] offset_of(nodes, lens, k) == offs[k],
{
    lemma_built_len(nodes, offs, rs, gs, tr, lens, seq, n);
    lemma_chain_recs(nodes, offs, rs, gs, tr, lens, seq, n);
    lemma_chain_gaps(nodes, offs, rs, gs, tr, lens, seq, n);
    lemma_chain_segments(nodes, offs, rs, gs, tr, lens, seq, n);
}

/// The characters `seq[start..end]`.
fn segment(seq: &[char], start: usize, end: usize) -> (r: Vec<char>)
    requires
        start <= end <= seq@.len(),
    ensures
        r@ == seq@.subrange(start as int, end as int),
{
    let mut r: Vec<char> = Vec::new();
    let mut i: usize = start;
    while i < end
        invariant
            start <= i <= end,
            end <= seq@.len(),
            r@ == seq@.subrange(start as int, i as int),
        decreases end - i,
    {
        r.push(seq[i]);
        proof {
            assert(r@ =~= seq@.subrange(start as int, i + 1));
        }
        i = i + 1;
    }
    r
}

/// The best alignment found of an organism on a sequence: its total score
/// and its segments, left to right.
#[derive(Clone, Debug)]
pub struct Placement<R> {
    energy: R,
    nodes: Vec<Node<R>>,
}

/// What a placement holds, as mathematical values.
pub ghost struct PlacementView<R> {
    pub energy: R,
    pub nodes: Seq<Node<R>>,
}

impl<R> View for Placement<R> {
    type V = PlacementView<R>;

    closed spec fn view(&self) -> PlacementView<R> {
        PlacementView { energy: self.energy, nodes: self.nodes@ }
    }
}

impl<R: Real> Placement<R> {
    /// A placement with no node and a total score of zero.
    pub fn new() -> (r: Placement<R>)
        ensures
            r@.nodes.len() == 0,
            r@.energy == num::<R>(0),
    {
        Placement { energy: R::from_u64(0), nodes: Vec::new() }
    }

    /// A placement with no node, a total score of zero, and room for the
    /// nodes of `capacity` recognizers.
    pub fn with_capacity(capacity: usize) -> (r: Placement<R>)
        requires
            1 <= capacity <= usize::MAX / 2,
        ensures
            r@.nodes.len() == 0,
            r@.energy == num::<R>(0),
    {
        Placement { energy: R::from_u64(0), nodes: Vec::with_capacity(capacity * 2 - 1) }
    }

    /// Node `idx`, counted from the left.
    pub fn at(&self, idx: usize) -> (r: &Node<R>)
        requires
            idx < self@.nodes.len(),
        ensures
            *r == self@.nodes[idx as int],
    {
        &self.nodes[idx]
    }

    /// Node `idx`, counted from the left, to change it.
    pub fn mut_at(&mut self, idx: usize) -> (r: &mut Node<R>)
        requires
            idx < old(self)@.nodes.len(),
        ensures
            *r == old(self)@.nodes[idx as int],
            final(self)@ == (PlacementView {
                nodes: old(self)@.nodes.update(idx as int, *final(r)),
                ..old(self)@
            }),
    {
        &mut self.nodes[idx]
    }

    /// Number of nodes.
    pub fn len(&self) -> (r: usize)
        ensures
            r == self@.nodes.len(),
    {
        self.nodes.len()
    }

    /// The total score.
    pub fn energy(&self) -> (r: R)
        ensures
            r == self@.energy,
    {
        self.energy
    }

    /// Rebuilds the best alignment from the matrices that placement filled.
    ///
    /// `c_row[j]` is the best total score with the last recognizer at offset
    /// `j`; `rs[i][j]` the score of recognizer `i` at offset `j`; `tr[i - 1][j]`
    /// and `gs[i - 1][j]` the gap before recognizer `i` in the best chain
    /// with recognizer `i` at offset `j`, and that gap's score. Recognizer `i`
    /// at offset `j` covers `seq[j + P(i) ..= j + P(i + 1) - 1]`, where `P(i)`
    /// is the sum of the first `i` lengths; `m_len` is the sum of all of them.
    ///
    /// The last recognizer is put at the first offset of largest `c_row`,
    /// whose value is the total score; the others follow the traceback.
    pub fn from_matrix(
        seq: &[char],
        rs_matrix: &Vec<Vec<R>>,
        gs_matrix: &Vec<Vec<R>>,
        tr_matrix: &Vec<Vec<usize>>,
        rec_lengths: &Vec<usize>,
        c_row: &Vec<R>,
        m_len: usize,
    ) -> (r: Placement<R>)
        requires
            c_row@.len() >= 1,
            matrices_shaped(rs_matrix@, gs_matrix@, tr_matrix@, rec_lengths@, c_row@.len() as int),
            traceback_ok(tr_matrix@),
            m_len == total_len(rec_lengths@, rec_lengths@.len() as int),
            seq@.len() == c_row@.len() - 1 + m_len,
        ensures
            is_chain(r@.nodes, seq@, rec_lengths@),
            follows_traceback(r@.nodes, rs_matrix@, gs_matrix@, tr_matrix@, rec_lengths@),
            ({
                let last = rec_lengths@.len() - 1;
                let j = offset_of(r@.nodes, rec_lengths@, last);
                &&& 0 <= j < c_row@.len()
                &&& j == first_max(c_row@, c_row@.len() as int)
                &&& forall|i: int|
                    0 <= i < rec_lengths@.len() ==> 0 <= #[trigger] offset_of(
                        r@.nodes,
                        rec_lengths@,
                        i,
                    ) < c_row@.len()
                &&& r@.energy == c_row@[j]
            }),
    {
        let nr = rec_lengths.len();
        let n = c_row.len();
        let m_idx = maxf_idx(c_row);
        let mut offs: Vec<usize> = Vec::new();
        let mut t: usize = 0;
        while t < nr
            invariant
                offs@.len() == t,
                t <= nr,
            decreases nr - t,
        {
            offs.push(0);
            t = t + 1;
        }
        offs.set(nr - 1, m_idx);
        let mut i: usize = nr - 1;
        while i > 0
            invariant
                nr == rec_lengths@.len(),
                n == c_row@.len(),
                matrices_shaped(rs_matrix@, gs_matrix@, tr_matrix@, rec_lengths@, n as int),
                traceback_ok(tr_matrix@),
                offs@.len() == nr,
                i < nr,
                offs@[nr - 1] == m_idx,
                m_idx < n,
                forall|k: int| i <= k < nr ==> #[trigger] offs@[k] < n,
                forall|k: int|
                    i <= k < nr - 1 ==> #[trigger] offs@[k] == offs@[k + 1] - tr_matrix@[k]@[offs@[k
                        + 1] as int],
            decreases i,
        {
            let j = offs[i];
            let gap = tr_matrix[i - 1][j];
            assert(tr_matrix@[i - 1]@[j as int] <= j);
            offs.set(i - 1, j - gap);
            i = i - 1;
        }
        let seq_len = seq.len();
        let mut nodes: Vec<Node<R>> = Vec::new();
        let mut pos: usize = 0;
        let mut i: usize = 0;
        while i < nr
            invariant
                nr == rec_lengths@.len(),
                n == c_row@.len(),
                matrices_shaped(rs_matrix@, gs_matrix@, tr_matrix@, rec_lengths@, n as int),
                traceback_ok(tr_matrix@),
                m_len == total_len(rec_lengths@, nr as int),
                seq@.len() == n - 1 + m_len,
                seq_len == seq@.len(),
                offs@.len() == nr,
                forall|k: int| 0 <= k < nr ==> #[trigger] offs@[k] < n,
                forall|k: int|
                    0 <= k < nr - 1 ==> #[trigger] offs@[k] == offs@[k + 1] - tr_matrix@[k]@[offs@[k
                        + 1] as int],
                i <= nr,
                pos == total_len(rec_lengths@, i as int),
                nodes@.len() == if i == 0 {
                    0
                } else {
                    2 * i - 1
                },
                forall|t: int|
                    0 <= t < nodes@.len() ==> node_ok(
                        #[trigger] nodes@[t],
                        t,
                        offs@,
                        rec_lengths@,
                        rs_matrix@,
                        gs_matrix@,
                        seq@,
                    ),
            decreases nr - i,
        {
            proof {
                lemma_total_len_monotone(rec_lengths@, i as int + 1, nr as int);
                assert(rec_lengths@[i as int] >= 1);
                if i > 0 {
                    lemma_total_len_monotone(rec_lengths@, 1, i as int);
                    assert(rec_lengths@[0] >= 1);
                    assert(total_len(rec_lengths@, 0) == 0);
                    assert(total_len(rec_lengths@, 1) == rec_lengths@[0]);
                }
            }
            let j = offs[i];
            let len = rec_lengths[i];
            if i > 0 {
                assert(tr_matrix@[i - 1]@[j as int] <= j);
                let gap_start = offs[i - 1] + pos;
                let gap_stop = j + pos - 1;
                assert((2 * i - 1) % 2 == 1 && (2 * i) / 2 == i);
                nodes.push(
                    Node {
                        node_type: NodeType::Connector,
                        start: gap_start,
                        stop: gap_stop,
                        energy: gs_matrix[i - 1][j],
                        seq: segment(seq, gap_start, gap_stop + 1),
                    },
                );
            }
            let start = j + pos;
            let stop = j + pos + len - 1;
            assert((2 * i) % 2 == 0 && (2 * i) / 2 == i);
            nodes.push(
                Node {
                    node_type: NodeType::Recognizer,
                    start,
                    stop,
                    energy: rs_matrix[i][j],
                    seq: segment(seq, start, stop + 1),
                },
            );
            pos = pos + len;
            i = i + 1;
        }
        proof {
            reveal(built_from_offsets);
            assert(total_len(rec_lengths@, 0) == 0);
            assert(built_from_offsets(
                nodes@,
                offs@,
                rs_matrix@,
                gs_matrix@,
                tr_matrix@,
                rec_lengths@,
                seq@,
                n as int,
            ));
            lemma_chain_from_offsets(
                nodes@,
                offs@,
                rs_matrix@,
                gs_matrix@,
                tr_matrix@,
                rec_lengths@,
                seq@,
                n as int,
            );
        }
        Placement { energy: c_row[m_idx], nodes }
    }
}

} // verus!
