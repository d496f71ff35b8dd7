//! Segmentation lattice over one input string.
//!
//! Nodes live in an arena; a node's id is its insertion rank. `begin_nodes[p]`
//! lists the nodes starting at character offset `p`, `end_nodes[p]` those
//! ending there. Node 0 is the virtual beginning-of-sequence node, node 1 the
//! virtual end-of-sequence node; both have length 0.

use vstd::prelude::*;
use vstd::string::StrSliceExecFns;
use vstd::string::StringExecFns;
use crate::MAX_EDGE_SCORE;
use crate::MAX_TEXT_LEN;

verus! {

/// One candidate token edge.
pub struct LatticeNode {
    pub begin_pos: usize,
    pub length: usize,
    pub id: usize,
    pub score: i64,
    pub node_id: usize,
}

/// Mathematical image of one edge.
pub ghost struct NodeV {
    pub begin: int,
    pub len: int,
    pub vid: int,
    pub score: int,
}

/// Mathematical image of the whole lattice.
pub ghost struct LatticeV {
    pub chars: Seq<char>,
    pub nodes: Seq<NodeV>,
    pub begins: Seq<Seq<int>>,
    pub ends: Seq<Seq<int>>,
}

/// The lattice: the decomposed input, the node arena, and the two
/// position-indexed views of it.
pub struct Lattice {
    pub sentence: String,
    pub chars: Vec<char>,
    pub nodes: Vec<LatticeNode>,
    pub begin_nodes: Vec<Vec<usize>>,
    pub end_nodes: Vec<Vec<usize>>,
    pub bos_id: usize,
    pub eos_id: usize,
    pub unk_id: usize,
}

impl View for Lattice {
    type V = LatticeV;

    open spec fn view(&self) -> LatticeV {
        LatticeV {
            chars: self.chars@,
            nodes: Seq::new(
                self.nodes@.len(),
                |i: int|
                    NodeV {
                        begin: self.nodes@[i].begin_pos as int,
                        len: self.nodes@[i].length as int,
                        vid: self.nodes@[i].id as int,
                        score: self.nodes@[i].score as int,
                    },
            ),
            begins: Seq::new(
                self.begin_nodes@.len(),
                |p: int| self.begin_nodes@[p]@.map_values(|x: usize| x as int),
            ),
            ends: Seq::new(
                self.end_nodes@.len(),
                |p: int| self.end_nodes@[p]@.map_values(|x: usize| x as int),
            ),
        }
    }
}

impl LatticeV {
    /// Structural well-formedness of the lattice image.
    pub open spec fn wf(self) -> bool {
        let n = self.chars.len() as int;
        &&& self.begins.len() == n + 1
        &&& self.ends.len() == n + 1
        &&& self.nodes.len() >= 2
        &&& self.nodes[0].begin == 0 && self.nodes[0].len == 0 && self.nodes[0].score == 0
        &&& self.nodes[1].begin == n && self.nodes[1].len == 0 && self.nodes[1].score == 0
        &&& (forall|i: int| 2 <= i < self.nodes.len() ==> (#[trigger] self.nodes[i]).len >= 1)
        &&& (forall|i: int|
            0 <= i < self.nodes.len() ==> 0 <= (#[trigger] self.nodes[i]).begin && self.nodes[i].begin
                + self.nodes[i].len <= n && -(MAX_EDGE_SCORE as int) <= self.nodes[i].score <= (
            MAX_EDGE_SCORE as int))
        &&& (forall|p: int, k: int|
            0 <= p < self.begins.len() && 0 <= k < self.begins[p].len() ==> 1 <= (
            #[trigger] self.begins[p][k]) < self.nodes.len() && self.nodes[self.begins[p][k]].begin
                == p)
        &&& (forall|p: int, k: int|
            0 <= p < self.ends.len() && 0 <= k < self.ends[p].len() ==> 0 <= (
            #[trigger] self.ends[p][k]) < self.nodes.len() && self.ends[p][k] != 1 && self.nodes[
                self.ends[p][k]
            ].begin + self.nodes[self.ends[p][k]].len == p && (self.ends[p][k] == 0 ==> p == 0))
        &&& (forall|j: int|
            1 <= j < self.nodes.len() ==> self.begins[(#[trigger] self.nodes[j]).begin].contains(j))
    }

    /// Every position has an outgoing and an incoming edge, so a decode can
    /// always make progress.
    pub open spec fn connected(self) -> bool {
        forall|p: int|
            0 <= p <= self.chars.len() ==> (#[trigger] self.begins[p]).len() > 0 && self.ends[
                p
            ].len() > 0
    }
}

/// The lattice image right after construction: only the two boundary nodes.
pub open spec fn empty_lattice(chars: Seq<char>, bos_vid: int, eos_vid: int) -> LatticeV {
    LatticeV {
        chars,
        nodes: seq![
            NodeV { begin: 0, len: 0, vid: bos_vid, score: 0 },
            NodeV { begin: chars.len() as int, len: 0, vid: eos_vid, score: 0 },
        ],
        begins: Seq::new(
            chars.len() + 1,
            |p: int|
                if p == chars.len() as int {
                    seq![1int]
                } else {
                    Seq::empty()
                },
        ),
        ends: Seq::new(
            chars.len() + 1,
            |p: int|
                if p == 0 {
                    seq![0int]
                } else {
                    Seq::empty()
                },
        ),
    }
}

/// The lattice image after appending one edge.
pub open spec fn insert_edge(l: LatticeV, begin: int, len: int, score: int, vid: int) -> LatticeV {
    let j = l.nodes.len() as int;
    LatticeV {
        chars: l.chars,
        nodes: l.nodes.push(NodeV { begin, len, vid, score }),
        begins: l.begins.update(begin, l.begins[begin].push(j)),
        ends: l.ends.update(begin + len, l.ends[begin + len].push(j)),
    }
}

impl Lattice {
    /// Ties the executable lattice to its image: the stored string matches
    /// the decomposed characters, node ids are arena ranks, and the image is
    /// well-formed.
    pub open spec fn wf(self) -> bool {
        &&& self@.wf()
        &&& self.sentence@ == self.chars@
        &&& (forall|i: int|
            0 <= i < self.nodes@.len() ==> (#[trigger] self.nodes@[i]).node_id == i)
    }

    /// Number of characters of the input.
    pub fn len(&self) -> (r: usize)
        ensures
            r == self@.chars.len(),
    {
        self.chars.len()
    }

    /// Builds the lattice for `sentence` with the two boundary nodes in
    /// place and no other edges.
    pub fn from(sentence: &str, bos_id: usize, eos_id: usize, unk_id: usize) -> (r: Lattice)
        ensures
            r.wf(),
            r@ == empty_lattice(sentence@, bos_id as int, eos_id as int),
            r.sentence@ == sentence@,
            r.bos_id == bos_id,
            r.eos_id == eos_id,
            r.unk_id == unk_id,
    {
        let n = sentence.unicode_len();
        let mut chars: Vec<char> = Vec::new();
        let mut i: usize = 0;
        while i < n
            invariant
                n == sentence@.len(),
                i <= n,
                chars@ == sentence@.take(i as int),
            decreases n - i,
        {
            chars.push(sentence.get_char(i));
            proof {
                assert(sentence@.take(i as int).push(sentence@[i as int]) =~= sentence@.take(
                    i as int + 1,
                ));
            }
            i += 1;
        }
        assert(chars@ =~= sentence@);
        let mut nodes: Vec<LatticeNode> = Vec::new();
        nodes.push(LatticeNode { begin_pos: 0, length: 0, id: bos_id, score: 0, node_id: 0 });
        nodes.push(LatticeNode { begin_pos: n, length: 0, id: eos_id, score: 0, node_id: 1 });
        let mut begin_nodes: Vec<Vec<usize>> = Vec::new();
        let mut end_nodes: Vec<Vec<usize>> = Vec::new();
        let mut ev: Vec<usize> = Vec::new();
        ev.push(0);
        end_nodes.push(ev);
        let mut p: usize = 0;
        while p < n
            invariant
                p <= n,
                begin_nodes@.len() == p,
                end_nodes@.len() == p + 1,
                forall|q: int| 0 <= q < p ==> (#[trigger] begin_nodes@[q])@ =~= Seq::<usize>::empty(),
                end_nodes@[0]@ =~= seq![0usize],
                forall|q: int| 1 <= q < p + 1 ==> (#[trigger] end_nodes@[q])@ =~= Seq::<usize>::empty(),
            decreases n - p,
        {
            begin_nodes.push(Vec::new());
            end_nodes.push(Vec::new());
            p += 1;
        }
        let mut bv: Vec<usize> = Vec::new();
        bv.push(1);
        begin_nodes.push(bv);
        let r = Lattice {
            sentence: String::from_str(sentence),
            chars,
            nodes,
            begin_nodes,
            end_nodes,
            bos_id,
            eos_id,
            unk_id,
        };
        proof {
            let e = empty_lattice(sentence@, bos_id as int, eos_id as int);
            assert(r@.nodes =~= e.nodes);
            assert forall|q: int| 0 <= q < r@.begins.len() implies r@.begins[q] =~= e.begins[q] by {
                assert(r.begin_nodes@[q]@.map_values(|x: usize| x as int) =~= (
                if q == sentence@.len() as int {
                    seq![1int]
                } else {
                    Seq::<int>::empty()
                }));
            }
            assert(r@.begins =~= e.begins);
            assert forall|q: int| 0 <= q < r@.ends.len() implies r@.ends[q] =~= e.ends[q] by {
                assert(r.end_nodes@[q]@.map_values(|x: usize| x as int) =~= (
                if q == 0 {
                    seq![0int]
                } else {
                    Seq::<int>::empty()
                }));
            }
            assert(r@.ends =~= e.ends);
            assert(r@ =~= e);
            lemma_empty_lattice_wf(sentence@, bos_id as int, eos_id as int);
            assert forall|i: int| 0 <= i < r.nodes@.len() implies (#[trigger] r.nodes@[i]).node_id
                == i by {}
            assert(r.wf());
        }
        r
    }

    /// Appends one edge of `length` characters starting at `begin_pos`.
    pub fn insert(&mut self, begin_pos: usize, length: usize, score: i64, vocab_id: usize)
        requires
            old(self).wf(),
            1 <= length,
            begin_pos + length <= old(self)@.chars.len(),
            -MAX_EDGE_SCORE <= score <= MAX_EDGE_SCORE,
        ensures
            final(self).wf(),
            final(self)@ == insert_edge(
                old(self)@,
                begin_pos as int,
                length as int,
                score as int,
                vocab_id as int,
            ),
            final(self).sentence == old(self).sentence,
            final(self).bos_id == old(self).bos_id,
            final(self).eos_id == old(self).eos_id,
            final(self).unk_id == old(self).unk_id,
    {
        let node_id = self.nodes.len();
        self.nodes.push(LatticeNode { begin_pos, length, id: vocab_id, score, node_id });
        let end = begin_pos + length;
        self.begin_nodes[begin_pos].push(node_id);
        self.end_nodes[end].push(node_id);
        proof {
            let o = old(self)@;
            let e = insert_edge(
                o,
                begin_pos as int,
                length as int,
                score as int,
                vocab_id as int,
            );
            assert(self@.nodes =~= e.nodes);
            assert forall|q: int| 0 <= q < self@.begins.len() implies self@.begins[q] == e.begins[q] by {
                if q == begin_pos as int {
                    assert(self.begin_nodes@[q]@ == old(self).begin_nodes@[q]@.push(node_id));
                    assert(self@.begins[q] =~= o.begins[q].push(node_id as int));
                } else {
                    assert(self.begin_nodes@[q] == old(self).begin_nodes@[q]);
                    assert(self@.begins[q] =~= o.begins[q]);
                }
            }
            assert(self@.begins =~= e.begins);
            assert forall|q: int| 0 <= q < self@.ends.len() implies self@.ends[q] == e.ends[q] by {
                if q == end as int {
                    assert(self.end_nodes@[q]@ == old(self).end_nodes@[q]@.push(node_id));
                    assert(self@.ends[q] =~= o.ends[q].push(node_id as int));
                } else {
                    assert(self.end_nodes@[q] == old(self).end_nodes@[q]);
                    assert(self@.ends[q] =~= o.ends[q]);
                }
            }
            assert(self@.ends =~= e.ends);
            assert(self@ =~= e);
            lemma_insert_edge_wf(o, begin_pos as int, length as int, score as int, vocab_id as int);
        }
    }

    /// The substring of the input covered by node `node_id`.
    pub fn piece(&self, node_id: usize) -> (r: String)
        requires
            self.wf(),
            node_id < self.nodes@.len(),
        ensures
            r@ == self@.chars.subrange(
                self@.nodes[node_id as int].begin,
                self@.nodes[node_id as int].begin + self@.nodes[node_id as int].len,
            ),
    {
        proof {
            assert(0 <= self@.nodes[node_id as int].begin && self@.nodes[node_id as int].begin
                + self@.nodes[node_id as int].len <= self@.chars.len());
        }
        let b = self.nodes[node_id].begin_pos;
        let e = b + self.nodes[node_id].length;
        let sub = self.sentence.as_str().substring_char(b, e);
        String::from_str(sub)
    }
}

/// The entries of `ends` are legal predecessors for position `b`: the
/// beginning-of-sequence node, or a real node starting strictly earlier.
pub open spec fn preds_ok(l: LatticeV, ends: Seq<int>, b: int) -> bool {
    forall|k: int|
        0 <= k < ends.len() ==> ((#[trigger] ends[k]) == 0 || (2 <= ends[k] < l.nodes.len()
            && l.nodes[ends[k]].begin < b))
}

/// Best accumulated score among the first `k` candidate predecessors, and
/// the first candidate attaining it (a later one must be strictly better to
/// displace it).
pub open spec fn best_pred_upto(l: LatticeV, ends: Seq<int>, b: int, k: int) -> (int, int)
    decreases b, 0int, k,
        when l.wf() && 0 <= b && preds_ok(l, ends, b) && k <= ends.len()
{
    if k <= 0 {
        (0, -1)
    } else {
        let j = ends[k - 1];
        let js = if j == 0 {
            0int
        } else {
            dp_score(l, j)
        };
        if k == 1 {
            (js, j)
        } else {
            let pre = best_pred_upto(l, ends, b, k - 1);
            if js > pre.0 {
                (js, j)
            } else {
                pre
            }
        }
    }
}

/// Best accumulated score of any path from the beginning-of-sequence node
/// that finishes with node `i`.
pub open spec fn dp_score(l: LatticeV, i: int) -> int
    decreases l.nodes[i].begin, 1int, 0int,
        when l.wf() && 1 <= i < l.nodes.len()
{
    let b = l.nodes[i].begin;
    best_pred_upto(l, l.ends[b], b, l.ends[b].len() as int).0 + l.nodes[i].score
}

/// The chosen predecessor of node `i`: first among those ending at `i`'s
/// begin position with the maximal accumulated score.
pub open spec fn dp_prev(l: LatticeV, i: int) -> int {
    let b = l.nodes[i].begin;
    best_pred_upto(l, l.ends[b], b, l.ends[b].len() as int).1
}

/// In a well-formed lattice the incoming-edge list of any position is a
/// legal predecessor list.
pub proof fn lemma_wf_preds(l: LatticeV, b: int)
    requires
        l.wf(),
        0 <= b < l.ends.len(),
    ensures
        preds_ok(l, l.ends[b], b),
{
    assert forall|k: int|
        0 <= k < l.ends[b].len() implies ((#[trigger] l.ends[b][k]) == 0 || (2 <= l.ends[b][k]
        < l.nodes.len() && l.nodes[l.ends[b][k]].begin < b)) by {
        let j = l.ends[b][k];
        if j != 0 {
            assert(l.nodes[j].len >= 1);
        }
    }
}

/// The chosen predecessor is one of the candidates, and the best score is
/// its accumulated score.
pub proof fn lemma_best_pred_member(l: LatticeV, ends: Seq<int>, b: int, k: int)
    requires
        l.wf(),
        0 <= b,
        preds_ok(l, ends, b),
        1 <= k <= ends.len(),
    ensures
        exists|kk: int| 0 <= kk < k && #[trigger] ends[kk] == best_pred_upto(l, ends, b, k).1,
        best_pred_upto(l, ends, b, k).0 == (if best_pred_upto(l, ends, b, k).1 == 0 {
            0int
        } else {
            dp_score(l, best_pred_upto(l, ends, b, k).1)
        }),
    decreases k,
{
    if k == 1 {
        assert(ends[0] == best_pred_upto(l, ends, b, k).1);
    } else {
        lemma_best_pred_member(l, ends, b, k - 1);
        let j = ends[k - 1];
        let js = if j == 0 {
            0int
        } else {
            dp_score(l, j)
        };
        if js > best_pred_upto(l, ends, b, k - 1).0 {
            assert(ends[k - 1] == best_pred_upto(l, ends, b, k).1);
        }
    }
}

/// The chosen predecessor of a node is legal: the beginning-of-sequence
/// node, or a real node that ends exactly where this node begins.
pub proof fn lemma_dp_prev_valid(l: LatticeV, i: int)
    requires
        l.wf(),
        l.connected(),
        1 <= i < l.nodes.len(),
    ensures
        ({
            let p = dp_prev(l, i);
            let b = l.nodes[i].begin;
            &&& (p == 0 || 2 <= p < l.nodes.len())
            &&& (p != 0 ==> l.nodes[p].begin < b)
            &&& l.nodes[p].begin + l.nodes[p].len == b
            &&& (p == 0 ==> b == 0)
        }),
{
    let b = l.nodes[i].begin;
    assert(0 <= b <= l.chars.len());
    lemma_wf_preds(l, b);
    assert(l.ends[b].len() > 0);
    lemma_best_pred_member(l, l.ends[b], b, l.ends[b].len() as int);
    let kk = choose|kk: int|
        0 <= kk < l.ends[b].len() && #[trigger] l.ends[b][kk] == dp_prev(l, i);
    assert(l.ends[b][kk] == dp_prev(l, i));
}

/// Accumulated scores stay within `(position + 1) * MAX_EDGE_SCORE`.
pub proof fn lemma_best_pred_bound(l: LatticeV, ends: Seq<int>, b: int, k: int)
    requires
        l.wf(),
        0 <= b,
        preds_ok(l, ends, b),
        0 <= k <= ends.len(),
    ensures
        -(b * (MAX_EDGE_SCORE as int)) <= best_pred_upto(l, ends, b, k).0 <= b * (
        MAX_EDGE_SCORE as int),
    decreases b, 0int, k,
{
    if k > 0 {
        let j = ends[k - 1];
        if j != 0 {
            lemma_dp_bound(l, j);
            assert((l.nodes[j].begin + 1) * (MAX_EDGE_SCORE as int) <= b * (MAX_EDGE_SCORE as int))
                by (nonlinear_arith)
                requires
                    l.nodes[j].begin + 1 <= b,
                    MAX_EDGE_SCORE as int > 0,
            ;
        }
        if k > 1 {
            lemma_best_pred_bound(l, ends, b, k - 1);
        }
        assert(b * (MAX_EDGE_SCORE as int) >= 0) by (nonlinear_arith)
            requires
                b >= 0,
                MAX_EDGE_SCORE as int > 0,
        ;
    } else {
        assert(b * (MAX_EDGE_SCORE as int) >= 0) by (nonlinear_arith)
            requires
                b >= 0,
                MAX_EDGE_SCORE as int > 0,
        ;
    }
}

/// A node's accumulated score is bounded by its end position.
pub proof fn lemma_dp_bound(l: LatticeV, i: int)
    requires
        l.wf(),
        1 <= i < l.nodes.len(),
    ensures
        -((l.nodes[i].begin + 1) * (MAX_EDGE_SCORE as int)) <= dp_score(l, i) <= (l.nodes[i].begin
            + 1) * (MAX_EDGE_SCORE as int),
    decreases l.nodes[i].begin, 1int, 0int,
{
    let b = l.nodes[i].begin;
    lemma_wf_preds(l, b);
    lemma_best_pred_bound(l, l.ends[b], b, l.ends[b].len() as int);
    assert((b + 1) * (MAX_EDGE_SCORE as int) == b * (MAX_EDGE_SCORE as int) + (
    MAX_EDGE_SCORE as int)) by (nonlinear_arith);
}

/// The decoded path ending with node `i`, beginning-of-sequence node
/// excluded, in left-to-right order.
pub open spec fn best_path_from(l: LatticeV, i: int) -> Seq<int>
    decreases (if 0 <= i < l.nodes.len() {
        l.nodes[i].begin
    } else {
        0int
    }), (if i == 0 {
        0int
    } else {
        1int
    }),
        when l.wf() && l.connected() && (i == 0 || 2 <= i < l.nodes.len())
        via best_path_from_decreases
{
    if i == 0 {
        Seq::empty()
    } else {
        best_path_from(l, dp_prev(l, i)).push(i)
    }
}

#[via_fn]
proof fn best_path_from_decreases(l: LatticeV, i: int) {
    if i != 0 {
        lemma_dp_prev_valid(l, i);
    }
}

/// The decode's result: the best path into the end-of-sequence node's
/// chosen predecessor.
pub open spec fn viterbi_path(l: LatticeV) -> Seq<int> {
    best_path_from(l, dp_prev(l, 1))
}

/// The characters covered by node `i`.
pub open spec fn node_piece(l: LatticeV, i: int) -> Seq<char> {
    l.chars.subrange(l.nodes[i].begin, l.nodes[i].begin + l.nodes[i].len)
}

/// The decoded token sequence: each path node mapped to its substring.
pub open spec fn spec_tokens(l: LatticeV) -> Seq<Seq<char>> {
    viterbi_path(l).map_values(|i: int| node_piece(l, i))
}

/// Every node of a decoded path is a real node of the lattice, and the path
/// covers `chars` from offset 0 up to the end of its last node, contiguously.
pub proof fn lemma_path_covers(l: LatticeV, i: int)
    requires
        l.wf(),
        l.connected(),
        i == 0 || 2 <= i < l.nodes.len(),
    ensures
        forall|k: int|
            0 <= k < best_path_from(l, i).len() ==> 2 <= #[trigger] best_path_from(l, i)[k]
                < l.nodes.len(),
        concat_pieces(l, best_path_from(l, i)) == l.chars.subrange(
            0,
            if i == 0 {
                0int
            } else {
                l.nodes[i].begin + l.nodes[i].len
            },
        ),
        best_path_from(l, i).len() <= (if i == 0 {
            0int
        } else {
            l.nodes[i].begin + l.nodes[i].len
        }),
    decreases (if 0 <= i < l.nodes.len() {
        l.nodes[i].begin
    } else {
        0int
    }), (if i == 0 {
        0int
    } else {
        1int
    }),
{
    if i == 0 {
        assert(l.chars.subrange(0, 0) =~= Seq::<char>::empty());
    } else {
        lemma_dp_prev_valid(l, i);
        let p = dp_prev(l, i);
        lemma_path_covers(l, p);
        let path = best_path_from(l, i);
        assert(path == best_path_from(l, p).push(i));
        assert(path.drop_last() =~= best_path_from(l, p));
        assert(path.last() == i);
        let b = l.nodes[i].begin;
        let e = l.nodes[i].begin + l.nodes[i].len;
        assert(l.chars.subrange(0, b) + l.chars.subrange(b, e) =~= l.chars.subrange(0, e));
    }
}

/// Concatenation of the substrings covered by the nodes of `path`.
pub open spec fn concat_pieces(l: LatticeV, path: Seq<int>) -> Seq<char>
    decreases path.len(),
{
    if path.len() == 0 {
        Seq::empty()
    } else {
        concat_pieces(l, path.drop_last()) + node_piece(l, path.last())
    }
}

impl Lattice {
    /// The score-maximizing decode: node ids from just after the
    /// beginning-of-sequence node up to just before the end-of-sequence
    /// node, in left-to-right order.
    #[verifier::loop_isolation(false)]
    pub fn viterbi(&self) -> (path: Vec<usize>)
        requires
            self.wf(),
            self@.connected(),
            self@.chars.len() <= MAX_TEXT_LEN as int,
        ensures
            path@.map_values(|x: usize| x as int) == viterbi_path(self@),
    {
        let ghost l = self@;
        let n = self.chars.len();
        let num = self.nodes.len();
        let mut best: Vec<i64> = Vec::new();
        let mut prev: Vec<usize> = Vec::new();
        let mut t: usize = 0;
        while t < num
            invariant
                t <= num,
                best@.len() == t,
                prev@.len() == t,
                forall|j: int| 0 <= j < t ==> best@[j] == 0i64 && prev@[j] == 0usize,
            decreases num - t,
        {
            best.push(0);
            prev.push(0);
            t += 1;
        }
        let mut pos: usize = 0;
        while pos <= n
            invariant
                pos <= n + 1,
                best@.len() == num,
                prev@.len() == num,
                best@[0] == 0i64,
                forall|j: int|
                    1 <= j < num && l.nodes[j].begin < pos ==> (#[trigger] best@[j]) as int
                        == dp_score(l, j) && prev@[j] as int == dp_prev(l, j),
            decreases n + 1 - pos,
        {
            let blist = &self.begin_nodes[pos];
            proof {
                lemma_wf_preds(l, pos as int);
            }
            let mut ki: usize = 0;
            while ki < blist.len()
                invariant
                    ki <= blist@.len(),
                    best@.len() == num,
                    prev@.len() == num,
                    best@[0] == 0i64,
                    forall|j: int|
                        1 <= j < num && l.nodes[j].begin < pos ==> (#[trigger] best@[j]) as int
                            == dp_score(l, j) && prev@[j] as int == dp_prev(l, j),
                    forall|kx: int|
                        0 <= kx < ki ==> best@[#[trigger] l.begins[pos as int][kx]] as int
                            == dp_score(l, l.begins[pos as int][kx])
                            && prev@[l.begins[pos as int][kx]] as int == dp_prev(
                            l,
                            l.begins[pos as int][kx],
                        ),
                decreases blist@.len() - ki,
            {
                let rnode = blist[ki];
                proof {
                    assert(l.begins[pos as int][ki as int] == rnode as int);
                    assert(1 <= rnode as int && (rnode as int) < num && l.nodes[rnode as int].begin == pos as int);
                }
                let elist = &self.end_nodes[pos];
                proof {
                    assert(l.ends[pos as int].len() > 0);
                }
                let e0 = elist[0];
                proof {
                    assert(l.ends[pos as int][0] == e0 as int);
                }
                let mut bs: i64 = best[e0];
                let mut bn: usize = e0;
                proof {
                    if e0 as int != 0 {
                        assert(l.nodes[e0 as int].begin < pos as int);
                    }
                    assert((bs as int, bn as int) == best_pred_upto(
                        l,
                        l.ends[pos as int],
                        pos as int,
                        1,
                    ));
                }
                let mut kk: usize = 1;
                while kk < elist.len()
                    invariant
                        1 <= kk <= l.ends[pos as int].len(),
                        (bs as int, bn as int) == best_pred_upto(
                            l,
                            l.ends[pos as int],
                            pos as int,
                            kk as int,
                        ),
                    decreases elist@.len() - kk,
                {
                    let e = elist[kk];
                    proof {
                        assert(l.ends[pos as int][kk as int] == e as int);
                        if e as int != 0 {
                            assert(l.nodes[e as int].begin < pos as int);
                        }
                    }
                    let s = best[e];
                    if s > bs {
                        bs = s;
                        bn = e;
                    }
                    kk += 1;
                }
                proof {
                    assert((bs as int, bn as int) == best_pred_upto(
                        l,
                        l.ends[pos as int],
                        pos as int,
                        l.ends[pos as int].len() as int,
                    ));
                    lemma_best_pred_bound(
                        l,
                        l.ends[pos as int],
                        pos as int,
                        l.ends[pos as int].len() as int,
                    );
                    assert(pos as int * (MAX_EDGE_SCORE as int) <= (MAX_TEXT_LEN as int) * (
                    MAX_EDGE_SCORE as int)) by (nonlinear_arith)
                        requires
                            0 <= pos as int <= MAX_TEXT_LEN as int,
                            MAX_EDGE_SCORE as int > 0,
                    ;
                    assert(-(MAX_EDGE_SCORE as int) <= l.nodes[rnode as int].score <= (
                    MAX_EDGE_SCORE as int));
                }
                let ghost best_pre = best@;
                let ghost prev_pre = prev@;
                let sc = self.nodes[rnode].score;
                let total = bs + sc;
                best[rnode] = total;
                prev[rnode] = bn;
                proof {
                    assert(best@[rnode as int] as int == dp_score(l, rnode as int));
                    assert(prev@[rnode as int] as int == dp_prev(l, rnode as int));
                    assert forall|j: int|
                        1 <= j < num && l.nodes[j].begin < pos implies (#[trigger] best@[j]) as int
                        == dp_score(l, j) && prev@[j] as int == dp_prev(l, j) by {
                        assert(j != rnode as int);
                        assert(best@[j] == best_pre[j]);
                        assert(prev@[j] == prev_pre[j]);
                        assert(best_pre[j] as int == dp_score(l, j));
                        assert(prev_pre[j] as int == dp_prev(l, j));
                    }
                    assert forall|kx: int| 0 <= kx < ki + 1 implies best@[
                    #[trigger] l.begins[pos as int][kx]] as int == dp_score(
                        l,
                        l.begins[pos as int][kx],
                    ) && prev@[l.begins[pos as int][kx]] as int == dp_prev(
                        l,
                        l.begins[pos as int][kx],
                    ) by {
                        let j = l.begins[pos as int][kx];
                        assert(l.nodes[j].begin == pos as int);
                        if kx < ki {
                            assert(best_pre[j] as int == dp_score(l, j) && prev_pre[j] as int
                                == dp_prev(l, j));
                            if j != rnode as int {
                                assert(best@[j] == best_pre[j] && prev@[j] == prev_pre[j]);
                            }
                        }
                    }
                }
                ki += 1;
            }
            proof {
                assert forall|j: int|
                    1 <= j < num && l.nodes[j].begin < pos + 1 implies (#[trigger] best@[j]) as int
                    == dp_score(l, j) && prev@[j] as int == dp_prev(l, j) by {
                    if l.nodes[j].begin == pos as int {
                        assert(l.begins[l.nodes[j].begin].contains(j));
                        let kx = choose|kx: int|
                            0 <= kx < l.begins[pos as int].len() && l.begins[pos as int][kx] == j;
                        assert(l.begins[pos as int][kx] == j);
                        assert(best@[l.begins[pos as int][kx]] as int == dp_score(
                            l,
                            l.begins[pos as int][kx],
                        ) && prev@[l.begins[pos as int][kx]] as int == dp_prev(
                            l,
                            l.begins[pos as int][kx],
                        ));
                    }
                }
            }
            pos += 1;
        }
        // every node, the end-of-sequence node included, now carries its
        // accumulated score; backtrack from the end-of-sequence node
        proof {
            assert(l.nodes[1].begin == n as int);
            assert(best@[1] as int == dp_score(l, 1));
            assert(prev@[1] as int == dp_prev(l, 1));
            assert forall|j: int| 1 <= j < num implies (#[trigger] prev@[j]) as int == dp_prev(
                l,
                j,
            ) by {
                assert(0 <= l.nodes[j].begin);
                assert(l.nodes[j].begin + l.nodes[j].len <= n as int);
                assert(best@[j] as int == dp_score(l, j));
            }
        }
        let mut rev: Vec<usize> = Vec::new();
        let mut cur: usize = prev[1];
        let ghost target = viterbi_path(l);
        proof {
            lemma_dp_prev_valid(l, 1);
        }
        while cur != 0
            invariant
                cur as int == 0 || (2 <= cur as int && (cur as int) < num),
                best@.len() == num,
                prev@.len() == num,
                forall|j: int|
                    1 <= j < num ==> (#[trigger] prev@[j]) as int == dp_prev(l, j),
                target == best_path_from(l, cur as int) + rev@.map_values(|x: usize| x as int)
                    .reverse(),
            decreases l.nodes[cur as int].begin + (if cur == 0 {
                0int
            } else {
                1int
            }),
        {
            rev.push(cur);
            proof {
                lemma_dp_prev_valid(l, cur as int);
                assert(l.nodes[cur as int].begin < n + 1);
            }
            let nxt = prev[cur];
            proof {
                assert(nxt as int == dp_prev(l, cur as int));
                assert(best_path_from(l, cur as int) == best_path_from(l, nxt as int).push(
                    cur as int,
                ));
                assert(best_path_from(l, nxt as int).push(cur as int) + rev@.drop_last()
                    .map_values(|x: usize| x as int).reverse() == best_path_from(l, nxt as int)
                    + rev@.map_values(|x: usize| x as int).reverse()) by {
                    assert(best_path_from(l, nxt as int).push(cur as int) + rev@.drop_last()
                        .map_values(|x: usize| x as int).reverse() =~= best_path_from(
                        l,
                        nxt as int,
                    ) + rev@.map_values(|x: usize| x as int).reverse());
                }
            }
            cur = nxt;
        }
        proof {
            assert(best_path_from(l, 0) =~= Seq::<int>::empty());
            assert(target =~= rev@.map_values(|x: usize| x as int).reverse());
        }
        let mut path: Vec<usize> = Vec::new();
        let mut k = rev.len();
        while k > 0
            invariant
                k <= rev@.len(),
                path@.len() == rev@.len() - k,
                forall|j: int|
                    0 <= j < path@.len() ==> #[trigger] path@[j] == rev@[rev@.len() - 1 - j],
            decreases k,
        {
            k -= 1;
            path.push(rev[k]);
        }
        proof {
            assert(path@.map_values(|x: usize| x as int) =~= rev@.map_values(
                |x: usize| x as int,
            ).reverse());
        }
        path
    }
}

impl Lattice {
    /// The decoded token strings: the substring covered by each node of the
    /// best path, in order.
    pub fn tokens(&self) -> (r: Vec<String>)
        requires
            self.wf(),
            self@.connected(),
            self@.chars.len() <= MAX_TEXT_LEN as int,
        ensures
            r@.map_values(|s: String| s@) == spec_tokens(self@),
    {
        let path = self.viterbi();
        let ghost vp = viterbi_path(self@);
        proof {
            lemma_dp_prev_valid(self@, 1);
            lemma_path_covers(self@, dp_prev(self@, 1));
        }
        let mut r: Vec<String> = Vec::new();
        let mut i: usize = 0;
        while i < path.len()
            invariant
                self.wf(),
                self@.connected(),
                path@.map_values(|x: usize| x as int) == vp,
                vp == viterbi_path(self@),
                forall|k: int| 0 <= k < vp.len() ==> 2 <= #[trigger] vp[k] < self@.nodes.len(),
                i <= path@.len(),
                r@.map_values(|s: String| s@) == vp.take(i as int).map_values(
                    |j: int| node_piece(self@, j),
                ),
            decreases path@.len() - i,
        {
            proof {
                assert(path@.map_values(|x: usize| x as int)[i as int] == vp[i as int]);
            }
            let ghost r_old = r@;
            let s = self.piece(path[i]);
            proof {
                assert(s@ == node_piece(self@, vp[i as int]));
            }
            r.push(s);
            proof {
                assert(path@.map_values(|x: usize| x as int).len() == path@.len());
                assert(r_old.map_values(|s: String| s@).len() == r_old.len());
                assert(vp.take(i as int).len() == i as int);
                assert(r_old.len() == i as int);
                assert(r@ == r_old.push(s));
                assert(r@.map_values(|s: String| s@).len() == i + 1);
                assert(vp.take(i as int + 1).map_values(|j: int| node_piece(self@, j)).len() == i
                    + 1);
                assert forall|k: int|
                    0 <= k < i + 1 implies r@.map_values(|s: String| s@)[k] == vp.take(
                    i as int + 1,
                ).map_values(|j: int| node_piece(self@, j))[#[trigger] (k + 0)] by {
                    assert(vp.take(i as int + 1)[k] == vp[k]);
                    if k < i {
                        assert(r@[k] == r_old[k]);
                        assert(r_old.map_values(|s: String| s@)[k] == vp.take(
                            i as int,
                        ).map_values(|j: int| node_piece(self@, j))[k]);
                        assert(vp.take(i as int)[k] == vp[k]);
                    } else {
                        assert(r@[k] == s);
                    }
                }
                assert(r@.map_values(|s: String| s@) =~= vp.take(i as int + 1).map_values(
                    |j: int| node_piece(self@, j),
                ));
            }
            i += 1;
        }
        proof {
            assert(vp.take(vp.len() as int) =~= vp);
            assert(r@.map_values(|s: String| s@) =~= spec_tokens(self@));
        }
        r
    }
}

/// The freshly built lattice image is well-formed.
pub proof fn lemma_empty_lattice_wf(chars: Seq<char>, bos_vid: int, eos_vid: int)
    ensures
        empty_lattice(chars, bos_vid, eos_vid).wf(),
        empty_lattice(chars, bos_vid, eos_vid).connected() == (chars.len() == 0),
{
    let e = empty_lattice(chars, bos_vid, eos_vid);
    let n = chars.len() as int;
    assert(e.begins[n][0] == 1);
    assert(e.ends[0][0] == 0);
    assert forall|j: int| 1 <= j < e.nodes.len() implies e.begins[(
    #[trigger] e.nodes[j]).begin].contains(j) by {
        assert(e.begins[n][0] == 1);
    }
    if chars.len() == 0 {
        assert(e.begins[0].len() > 0 && e.ends[0].len() > 0);
    } else {
        assert(e.begins[0].len() == 0);
    }
}

/// Appending a valid edge keeps the lattice image well-formed.
pub proof fn lemma_insert_edge_wf(l: LatticeV, begin: int, len: int, score: int, vid: int)
    requires
        l.wf(),
        1 <= len,
        0 <= begin,
        begin + len <= l.chars.len(),
        -(MAX_EDGE_SCORE as int) <= score <= (MAX_EDGE_SCORE as int),
    ensures
        insert_edge(l, begin, len, score, vid).wf(),
{
    let e = insert_edge(l, begin, len, score, vid);
    let j = l.nodes.len() as int;
    assert(e.begins[begin].last() == j);
    assert forall|p: int, k: int|
        0 <= p < e.begins.len() && 0 <= k < e.begins[p].len() implies 1 <= (
    #[trigger] e.begins[p][k]) < e.nodes.len() && e.nodes[e.begins[p][k]].begin == p by {
        if p == begin && k == l.begins[begin].len() {
            assert(e.begins[p][k] == j);
        } else {
            assert(e.begins[p][k] == l.begins[p][k]);
        }
    }
    assert forall|p: int, k: int|
        0 <= p < e.ends.len() && 0 <= k < e.ends[p].len() implies 0 <= (
    #[trigger] e.ends[p][k]) < e.nodes.len() && e.ends[p][k] != 1 && e.nodes[e.ends[p][k]].begin
        + e.nodes[e.ends[p][k]].len == p && (e.ends[p][k] == 0 ==> p == 0) by {
        if p == begin + len && k == l.ends[begin + len].len() {
            assert(e.ends[p][k] == j);
        } else {
            assert(e.ends[p][k] == l.ends[p][k]);
        }
    }
    assert forall|i: int| 1 <= i < e.nodes.len() implies e.begins[(
    #[trigger] e.nodes[i]).begin].contains(i) by {
        if i == j {
            assert(e.begins[begin][e.begins[begin].len() - 1] == j);
        } else {
            assert(l.begins[l.nodes[i].begin].contains(i));
            let k = choose|k: int|
                0 <= k < l.begins[l.nodes[i].begin].len() && l.begins[l.nodes[i].begin][k] == i;
            assert(e.begins[e.nodes[i].begin][k] == i);
        }
    }
}

} // verus!
