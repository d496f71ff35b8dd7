//! The unigram model: vocabulary, score table, prefix index, and the
//! encode pipeline (populate the lattice, decode, optionally fuse unknown
//! runs).

use vstd::prelude::*;
use vstd::string::StrSliceExecFns;
use vstd::string::StringExecFns;
use crate::trie::Trie;
use crate::trie::TrieBuilder;
use crate::trie::match_lens;
use crate::trie::lemma_match_lens_props;
use crate::lattice::Lattice;
use crate::lattice::LatticeV;
use crate::lattice::empty_lattice;
use crate::lattice::insert_edge;
use crate::lattice::lemma_insert_edge_wf;
use crate::lattice::node_piece;
use crate::lattice::spec_tokens;
use crate::lattice::viterbi_path;
use crate::lattice::dp_prev;
use crate::lattice::lemma_dp_prev_valid;
use crate::lattice::lemma_path_covers;
use crate::K_UNK_PENALTY;
use crate::MAX_EDGE_SCORE;
use crate::MAX_SCORE;
use crate::MAX_TEXT_LEN;

verus! {

/// Mathematical image of a ready model.
pub ghost struct ModelV {
    pub vocab: Seq<Seq<char>>,
    pub scores: Seq<int>,
    pub min_score: int,
    pub bos: int,
    pub eos: int,
    pub unk: int,
}

/// The unigram model. Immutable once built.
pub struct Unigram {
    pub vocab: Vec<String>,
    pub scores: Vec<i64>,
    pub trie: Trie,
    pub min_score: i64,
    pub bos_id: usize,
    pub eos_id: usize,
    pub unk_id: usize,
}

impl View for Unigram {
    type V = ModelV;

    open spec fn view(&self) -> ModelV {
        ModelV {
            vocab: self.vocab@.map_values(|s: String| s@),
            scores: self.scores@.map_values(|x: i64| x as int),
            min_score: self.min_score as int,
            bos: self.bos_id as int,
            eos: self.eos_id as int,
            unk: self.unk_id as int,
        }
    }
}

/// Minimum of the first `k` scores (`k >= 1`).
pub open spec fn min_upto(scores: Seq<int>, k: int) -> int
    decreases k,
{
    if k <= 1 {
        scores[0]
    } else if scores[k - 1] < min_upto(scores, k - 1) {
        scores[k - 1]
    } else {
        min_upto(scores, k - 1)
    }
}

/// Whether some vocabulary entry is exactly `t`.
pub open spec fn vocab_has(vocab: Seq<Seq<char>>, t: Seq<char>) -> bool {
    exists|i: int| 0 <= i < vocab.len() && vocab[i] == t
}

/// The id under which `t` is looked up: the last index holding `t`, or -1.
pub open spec fn token_id(vocab: Seq<Seq<char>>, t: Seq<char>) -> int
    decreases vocab.len(),
{
    if vocab.len() == 0 {
        -1
    } else if vocab.last() == t {
        vocab.len() - 1
    } else {
        token_id(vocab.drop_last(), t)
    }
}

/// A token is looked up successfully exactly when it is in the vocabulary,
/// and then under a valid id that holds it.
pub proof fn lemma_token_id(vocab: Seq<Seq<char>>, t: Seq<char>)
    ensures
        vocab_has(vocab, t) <==> token_id(vocab, t) != -1,
        token_id(vocab, t) != -1 ==> 0 <= token_id(vocab, t) < vocab.len() && vocab[token_id(
            vocab,
            t,
        )] == t,
    decreases vocab.len(),
{
    if vocab.len() > 0 && vocab.last() != t {
        lemma_token_id(vocab.drop_last(), t);
        assert forall|i: int| 0 <= i < vocab.len() && vocab[i] == t implies vocab_has(
            vocab.drop_last(),
            t,
        ) by {
            assert(vocab.drop_last()[i] == t);
        }
        if vocab_has(vocab.drop_last(), t) {
            let i = choose|i: int| 0 <= i < vocab.drop_last().len() && vocab.drop_last()[i] == t;
            assert(vocab[i] == t);
        }
    }
}

impl ModelV {
    /// Well-formedness of the model image: parallel tables of at least 3
    /// non-empty tokens, valid boundary ids, bounded scores, and `min_score`
    /// really the minimum.
    pub open spec fn wf(self) -> bool {
        &&& self.vocab.len() == self.scores.len()
        &&& self.vocab.len() >= 3
        &&& self.vocab.len() <= u32::MAX as int
        &&& 0 <= self.bos < self.vocab.len()
        &&& 0 <= self.eos < self.vocab.len()
        &&& 0 <= self.unk < self.vocab.len()
        &&& (forall|i: int|
            0 <= i < self.scores.len() ==> -(MAX_SCORE as int) <= (#[trigger] self.scores[i]) <= (
            MAX_SCORE as int))
        &&& (forall|i: int| 0 <= i < self.vocab.len() ==> (#[trigger] self.vocab[i]).len() >= 1)
        &&& self.min_score == min_upto(self.scores, self.scores.len() as int)
        &&& -(MAX_SCORE as int) <= self.min_score <= (MAX_SCORE as int)
    }
}

/// The lengths `l` in `[0, upto)`, ascending, whose prefix of `chars` at `p`
/// is a vocabulary token.
pub open spec fn vocab_match_lens(
    vocab: Seq<Seq<char>>,
    chars: Seq<char>,
    p: int,
    upto: int,
) -> Seq<int>
    decreases upto,
{
    if upto <= 0 {
        Seq::empty()
    } else {
        let pre = vocab_match_lens(vocab, chars, p, upto - 1);
        if vocab_has(vocab, chars.subrange(p, p + upto - 1)) {
            pre.push(upto - 1)
        } else {
            pre
        }
    }
}

/// All vocabulary matches at position `p`, shortest first.
pub open spec fn matches_at(m: ModelV, chars: Seq<char>, p: int) -> Seq<int> {
    vocab_match_lens(m.vocab, chars, p, chars.len() - p + 1)
}

/// An index that stores exactly the vocabulary reports exactly the
/// vocabulary's matches.
pub proof fn lemma_match_lens_agree(
    t: Trie,
    vocab: Seq<Seq<char>>,
    chars: Seq<char>,
    p: int,
    upto: int,
)
    requires
        forall|s: Seq<char>| #[trigger] t.contains_seq(s) <==> vocab_has(vocab, s),
    ensures
        match_lens(t, chars, p, upto) == vocab_match_lens(vocab, chars, p, upto),
    decreases upto,
{
    if upto > 0 {
        lemma_match_lens_agree(t, vocab, chars, p, upto - 1);
    }
}

/// Basic facts about the vocabulary match list.
pub proof fn lemma_vocab_match_lens_props(vocab: Seq<Seq<char>>, chars: Seq<char>, p: int, upto: int)
    ensures
        forall|j: int|
            0 <= j < vocab_match_lens(vocab, chars, p, upto).len() ==> 0 <= #[trigger] vocab_match_lens(
                vocab,
                chars,
                p,
                upto,
            )[j] < upto,
        forall|l: int|
            0 <= l < upto ==> (vocab_match_lens(vocab, chars, p, upto).contains(l) <==> vocab_has(
                vocab,
                chars.subrange(p, p + l),
            )),
    decreases upto,
{
    if upto > 0 {
        lemma_vocab_match_lens_props(vocab, chars, p, upto - 1);
        let pre = vocab_match_lens(vocab, chars, p, upto - 1);
        let ml = vocab_match_lens(vocab, chars, p, upto);
        assert forall|l: int| 0 <= l < upto implies (ml.contains(l) <==> vocab_has(
            vocab,
            chars.subrange(p, p + l),
        )) by {
            if vocab_has(vocab, chars.subrange(p, p + upto - 1)) {
                if l == upto - 1 {
                    assert(ml[ml.len() - 1] == l);
                    assert(ml.contains(l));
                } else {
                    if pre.contains(l) {
                        let j = choose|j: int| 0 <= j < pre.len() && pre[j] == l;
                        assert(ml[j] == l);
                    }
                    if ml.contains(l) {
                        let j = choose|j: int| 0 <= j < ml.len() && ml[j] == l;
                        assert(j < pre.len() && pre[j] == l);
                    }
                }
            } else {
                if l == upto - 1 && ml.contains(l) {
                    let j = choose|j: int| 0 <= j < ml.len() && ml[j] == l;
                }
            }
        }
    }
}

/// The score an unknown fallback edge gets.
pub open spec fn unk_score(m: ModelV) -> int {
    m.min_score - (K_UNK_PENALTY as int)
}

/// The lattice after inserting the match edges `ms` (lengths) at position
/// `p`, in order.
pub open spec fn insert_matches(m: ModelV, l: LatticeV, p: int, ms: Seq<int>) -> LatticeV
    decreases ms.len(),
{
    if ms.len() == 0 {
        l
    } else {
        let pre = insert_matches(m, l, p, ms.drop_last());
        let len = ms.last();
        let id = token_id(m.vocab, l.chars.subrange(p, p + len));
        insert_edge(pre, p, len, m.scores[id], id)
    }
}

/// The lattice after processing position `p`: all match edges, then the
/// unknown fallback edge when no single-character match exists.
pub open spec fn populate_pos(m: ModelV, l: LatticeV, p: int) -> LatticeV {
    let l1 = insert_matches(m, l, p, matches_at(m, l.chars, p));
    if vocab_has(m.vocab, l.chars.subrange(p, p + 1)) {
        l1
    } else {
        insert_edge(l1, p, 1, unk_score(m), m.unk)
    }
}

/// The lattice after processing positions `0 .. p`.
pub open spec fn populate_upto(m: ModelV, l0: LatticeV, p: int) -> LatticeV
    decreases p,
{
    if p <= 0 {
        l0
    } else {
        populate_pos(m, populate_upto(m, l0, p - 1), p - 1)
    }
}

/// The fully populated lattice for an input.
pub open spec fn populated(m: ModelV, chars: Seq<char>) -> LatticeV {
    populate_upto(m, empty_lattice(chars, m.bos, m.eos), chars.len() as int)
}

/// Fusing pass over the decoded path: maximal runs of unknown-id nodes
/// merge into one concatenated token; `acc` is the unknown run pending.
pub open spec fn fuse_from(l: LatticeV, path: Seq<int>, unk: int, acc: Seq<char>) -> Seq<Seq<char>>
    decreases path.len(),
{
    if path.len() == 0 {
        if acc.len() == 0 {
            Seq::empty()
        } else {
            seq![acc]
        }
    } else {
        let piece = node_piece(l, path[0]);
        if l.nodes[path[0]].vid == unk {
            fuse_from(l, path.drop_first(), unk, acc + piece)
        } else {
            (if acc.len() == 0 {
                Seq::<Seq<char>>::empty()
            } else {
                seq![acc]
            }) + seq![piece] + fuse_from(l, path.drop_first(), unk, Seq::empty())
        }
    }
}

/// What `encode` returns: the decoded tokens of the populated lattice,
/// optionally with unknown runs fused.
pub open spec fn spec_encode(m: ModelV, chars: Seq<char>, fuse: bool) -> Seq<Seq<char>> {
    let l = populated(m, chars);
    if fuse {
        fuse_from(l, viterbi_path(l), m.unk, Seq::empty())
    } else {
        spec_tokens(l)
    }
}

/// Node `j` is a vocabulary-backed edge: its id holds exactly the substring
/// it covers.
pub open spec fn is_match_edge(m: ModelV, l: LatticeV, j: int) -> bool {
    &&& 0 <= l.nodes[j].vid < m.vocab.len()
    &&& m.vocab[l.nodes[j].vid] == node_piece(l, j)
}

/// Effect of inserting the match edges at one position: well-formedness is
/// kept, other positions' outgoing lists are untouched, incoming lists only
/// grow, and every new edge is a vocabulary match edge.
pub proof fn lemma_insert_matches_props(m: ModelV, l: LatticeV, p: int, ms: Seq<int>)
    requires
        m.wf(),
        l.wf(),
        0 <= p < l.chars.len(),
        forall|j: int|
            0 <= j < ms.len() ==> 1 <= (#[trigger] ms[j]) && p + ms[j] <= l.chars.len()
                && vocab_has(m.vocab, l.chars.subrange(p, p + ms[j])),
    ensures
        ({
            let r = insert_matches(m, l, p, ms);
            &&& r.wf()
            &&& r.chars == l.chars
            &&& r.nodes.len() >= l.nodes.len()
            &&& (forall|j: int| 0 <= j < l.nodes.len() ==> r.nodes[j] == l.nodes[j])
            &&& (forall|j: int|
                l.nodes.len() <= j < r.nodes.len() ==> is_match_edge(m, r, j) && (
                #[trigger] r.nodes[j]).begin == p)
            &&& r.begins.len() == l.begins.len()
            &&& r.ends.len() == l.ends.len()
            &&& (forall|q: int| 0 <= q < r.begins.len() && q != p ==> r.begins[q] == l.begins[q])
            &&& r.begins[p].len() == l.begins[p].len() + ms.len()
            &&& (forall|q: int|
                0 <= q < r.ends.len() ==> (#[trigger] r.ends[q]).len() >= l.ends[q].len())
            &&& (forall|k: int|
                l.begins[p].len() <= k < r.begins[p].len() ==> (#[trigger] r.begins[p][k])
                    >= l.nodes.len())
            &&& (ms.contains(1) ==> r.ends[p + 1].len() > 0)
        }),
    decreases ms.len(),
{
    if ms.len() > 0 {
        lemma_insert_matches_props(m, l, p, ms.drop_last());
        let pre = insert_matches(m, l, p, ms.drop_last());
        let len = ms.last();
        assert(1 <= len && p + len <= l.chars.len() && vocab_has(
            m.vocab,
            l.chars.subrange(p, p + len),
        ));
        let tok = l.chars.subrange(p, p + len);
        lemma_token_id(m.vocab, tok);
        let id = token_id(m.vocab, tok);
        assert(-(MAX_SCORE as int) <= m.scores[id] <= (MAX_SCORE as int));
        lemma_insert_edge_wf(pre, p, len, m.scores[id], id);
        let r = insert_matches(m, l, p, ms);
        let jn = pre.nodes.len() as int;
        assert(r.nodes[jn].vid == id && r.nodes[jn].begin == p && r.nodes[jn].len == len);
        assert(node_piece(r, jn) =~= tok);
        assert(r.begins[p] == pre.begins[p].push(jn));
        assert forall|j: int|
            l.nodes.len() <= j < r.nodes.len() implies is_match_edge(m, r, j) && (
        #[trigger] r.nodes[j]).begin == p by {
            if j < jn {
                assert(is_match_edge(m, pre, j));
                assert(r.nodes[j] == pre.nodes[j]);
                assert(node_piece(r, j) == node_piece(pre, j));
            }
        }
        if ms.contains(1) {
            let kx = choose|kx: int| 0 <= kx < ms.len() && ms[kx] == 1;
            if kx < ms.len() - 1 {
                assert(ms.drop_last()[kx] == 1);
                assert(ms.drop_last().contains(1));
                assert(r.ends[p + 1].len() >= pre.ends[p + 1].len());
            } else {
                assert(r.ends[p + 1].len() == pre.ends[p + 1].len() + 1);
            }
        }
    }
}

/// Effect of processing one position: well-formedness is kept, the position
/// gains an outgoing edge and `p + 1` an incoming one, and other positions
/// are untouched (outgoing) or only grow (incoming).
pub proof fn lemma_populate_pos_props(m: ModelV, l: LatticeV, p: int)
    requires
        m.wf(),
        l.wf(),
        0 <= p < l.chars.len(),
    ensures
        ({
            let r = populate_pos(m, l, p);
            &&& r.wf()
            &&& r.chars == l.chars
            &&& r.nodes.len() >= l.nodes.len()
            &&& (forall|j: int| 0 <= j < l.nodes.len() ==> (#[trigger] r.nodes[j]) == l.nodes[j])
            &&& (forall|q: int| 0 <= q < r.begins.len() && q != p ==> r.begins[q] == l.begins[q])
            &&& r.begins[p].len() > 0
            &&& r.begins.len() == l.begins.len()
            &&& r.ends.len() == l.ends.len()
            &&& (forall|q: int|
                0 <= q < r.ends.len() ==> (#[trigger] r.ends[q]).len() >= l.ends[q].len())
            &&& r.ends[p + 1].len() > 0
            &&& (vocab_has(m.vocab, l.chars.subrange(p, p + 1)) ==> forall|k: int|
                l.begins[p].len() <= k < r.begins[p].len() ==> is_match_edge(
                    m,
                    r,
                    #[trigger] r.begins[p][k],
                ))
        }),
{
    let ms = matches_at(m, l.chars, p);
    lemma_vocab_match_lens_props(m.vocab, l.chars, p, l.chars.len() - p + 1);
    assert forall|j: int|
        0 <= j < ms.len() implies 1 <= (#[trigger] ms[j]) && p + ms[j] <= l.chars.len()
            && vocab_has(m.vocab, l.chars.subrange(p, p + ms[j])) by {
        assert(ms.contains(ms[j]));
        if ms[j] == 0 {
            let i = choose|i: int|
                0 <= i < m.vocab.len() && m.vocab[i] == l.chars.subrange(p, p);
            assert(m.vocab[i].len() >= 1);
            assert(l.chars.subrange(p, p).len() == 0);
        }
    }
    lemma_insert_matches_props(m, l, p, ms);
    let l1 = insert_matches(m, l, p, ms);
    let r = populate_pos(m, l, p);
    if vocab_has(m.vocab, l.chars.subrange(p, p + 1)) {
        assert(0 <= 1 < l.chars.len() - p + 1);
        assert(ms.contains(1));
        assert(ms.len() > 0);
        assert(r == l1);
        assert forall|k: int|
            l.begins[p].len() <= k < r.begins[p].len() implies is_match_edge(
                m,
                r,
                #[trigger] r.begins[p][k],
            ) by {
            let j = r.begins[p][k];
            assert(j >= l.nodes.len());
        }
    } else {
        assert(unk_score(m) <= (MAX_SCORE as int) + (K_UNK_PENALTY as int));
        lemma_insert_edge_wf(l1, p, 1, unk_score(m), m.unk);
        assert(r.ends[p + 1].len() > 0) by {
            assert(r.ends[p + 1] == l1.ends[p + 1].push(l1.nodes.len() as int));
        }
    }
}

/// After processing positions `0 .. p`: still well-formed, later positions
/// untouched, processed positions have outgoing edges, reached positions
/// incoming ones.
pub proof fn lemma_populate_upto_props(m: ModelV, chars: Seq<char>, p: int)
    requires
        m.wf(),
        0 <= p <= chars.len(),
    ensures
        ({
            let e = empty_lattice(chars, m.bos, m.eos);
            let r = populate_upto(m, e, p);
            &&& r.wf()
            &&& r.chars == chars
            &&& r.begins.len() == chars.len() + 1
            &&& (forall|q: int| p <= q <= chars.len() ==> (#[trigger] r.begins[q]) == e.begins[q])
            &&& (forall|q: int| 0 <= q < p ==> (#[trigger] r.begins[q]).len() > 0)
            &&& (forall|q: int|
                0 <= q <= chars.len() ==> (#[trigger] r.ends[q]).len() >= e.ends[q].len())
            &&& (forall|q: int| 1 <= q <= p ==> (#[trigger] r.ends[q]).len() > 0)
        }),
    decreases p,
{
    let e = empty_lattice(chars, m.bos, m.eos);
    crate::lattice::lemma_empty_lattice_wf(chars, m.bos, m.eos);
    if p > 0 {
        lemma_populate_upto_props(m, chars, p - 1);
        let pre = populate_upto(m, e, p - 1);
        lemma_populate_pos_props(m, pre, p - 1);
    }
}

/// The fully populated lattice is well-formed and connected: every position
/// has at least one outgoing edge.
pub proof fn lemma_populated_props(m: ModelV, chars: Seq<char>)
    requires
        m.wf(),
    ensures
        populated(m, chars).wf(),
        populated(m, chars).chars == chars,
        populated(m, chars).connected(),
{
    lemma_populate_upto_props(m, chars, chars.len() as int);
    let e = empty_lattice(chars, m.bos, m.eos);
    let r = populated(m, chars);
    assert forall|q: int| 0 <= q <= chars.len() implies (#[trigger] r.begins[q]).len() > 0
        && r.ends[q].len() > 0 by {
        if q == chars.len() as int {
            assert(r.begins[q] == e.begins[q]);
            assert(e.begins[q].len() == 1);
        }
        if q == 0 {
            assert(r.ends[0].len() >= e.ends[0].len());
            assert(e.ends[0].len() == 1);
        }
    }
}

/// Concatenation of a sequence of token strings.
pub open spec fn concat_all(ss: Seq<Seq<char>>) -> Seq<char>
    decreases ss.len(),
{
    if ss.len() == 0 {
        Seq::empty()
    } else {
        concat_all(ss.drop_last()) + ss.last()
    }
}

/// Concatenation distributes over appending token lists.
pub proof fn lemma_concat_all_app(a: Seq<Seq<char>>, b: Seq<Seq<char>>)
    ensures
        concat_all(a + b) == concat_all(a) + concat_all(b),
    decreases b.len(),
{
    if b.len() == 0 {
        assert(a + b =~= a);
        assert(concat_all(a) + concat_all(b) =~= concat_all(a));
    } else {
        lemma_concat_all_app(a, b.drop_last());
        assert((a + b).drop_last() =~= a + b.drop_last());
        assert((a + b).last() == b.last());
        assert(concat_all(a) + (concat_all(b.drop_last()) + b.last()) =~= (concat_all(a)
            + concat_all(b.drop_last())) + b.last());
    }
}

/// Concatenating a single token list gives that token.
proof fn lemma_concat_all_single(x: Seq<char>)
    ensures
        concat_all(seq![x]) == x,
{
    assert(seq![x].drop_last() =~= Seq::<Seq<char>>::empty());
    assert(seq![x].last() == x);
    assert(concat_all(Seq::<Seq<char>>::empty()) =~= Seq::<char>::empty());
    assert(Seq::<char>::empty() + x =~= x);
}

/// Front-to-back concatenation of the substrings covered by a path.
pub open spec fn pieces_cat(l: LatticeV, path: Seq<int>) -> Seq<char>
    decreases path.len(),
{
    if path.len() == 0 {
        Seq::empty()
    } else {
        node_piece(l, path[0]) + pieces_cat(l, path.drop_first())
    }
}

/// Front-to-back and back-to-front concatenation agree.
pub proof fn lemma_pieces_cat_eq(l: LatticeV, path: Seq<int>)
    ensures
        pieces_cat(l, path) == crate::lattice::concat_pieces(l, path),
    decreases path.len(),
{
    if path.len() > 0 {
        lemma_pieces_cat_push(l, path.drop_last(), path.last());
        lemma_pieces_cat_eq(l, path.drop_last());
        assert(path.drop_last().push(path.last()) =~= path);
    }
}

proof fn lemma_pieces_cat_push(l: LatticeV, a: Seq<int>, x: int)
    ensures
        pieces_cat(l, a.push(x)) == pieces_cat(l, a) + node_piece(l, x),
    decreases a.len(),
{
    if a.len() == 0 {
        assert(a.push(x)[0] == x);
        assert(a.push(x).drop_first() =~= Seq::<int>::empty());
        assert(pieces_cat(l, Seq::<int>::empty()) =~= Seq::<char>::empty());
        assert(node_piece(l, x) + Seq::<char>::empty() =~= node_piece(l, x));
        assert(pieces_cat(l, a.push(x)) =~= node_piece(l, x));
        assert(pieces_cat(l, a) + node_piece(l, x) =~= node_piece(l, x));
    } else {
        assert(a.push(x)[0] == a[0]);
        assert(a.push(x).drop_first() =~= a.drop_first().push(x));
        lemma_pieces_cat_push(l, a.drop_first(), x);
        assert(node_piece(l, a[0]) + (pieces_cat(l, a.drop_first()) + node_piece(l, x)) =~= (
        node_piece(l, a[0]) + pieces_cat(l, a.drop_first())) + node_piece(l, x));
    }
}

/// The decoded token list of a lattice concatenates to the path's covered
/// characters.
proof fn lemma_tokens_concat(l: LatticeV)
    requires
        l.wf(),
        l.connected(),
    ensures
        concat_all(spec_tokens(l)) == l.chars,
{
    lemma_dp_prev_valid(l, 1);
    let p0 = dp_prev(l, 1);
    lemma_path_covers(l, p0);
    let vp = viterbi_path(l);
    lemma_map_pieces(l, vp);
    if p0 == 0 {
        assert(l.chars.subrange(0, 0) =~= l.chars);
    } else {
        assert(l.chars.subrange(0, l.chars.len() as int) =~= l.chars);
    }
}

/// Mapping a path to its pieces and concatenating equals the direct
/// concatenation over the path.
proof fn lemma_map_pieces(l: LatticeV, path: Seq<int>)
    ensures
        concat_all(path.map_values(|i: int| node_piece(l, i))) == crate::lattice::concat_pieces(
            l,
            path,
        ),
    decreases path.len(),
{
    if path.len() == 0 {
    } else {
        lemma_map_pieces(l, path.drop_last());
        let mapped = path.map_values(|i: int| node_piece(l, i));
        assert(mapped.drop_last() =~= path.drop_last().map_values(|i: int| node_piece(l, i)));
        assert(mapped.last() == node_piece(l, path.last()));
    }
}

/// Tokenizing without fusing yields at most one token per input character.
pub proof fn lemma_encode_len(m: ModelV, chars: Seq<char>)
    requires
        m.wf(),
    ensures
        spec_encode(m, chars, false).len() <= chars.len(),
{
    lemma_populated_props(m, chars);
    let l = populated(m, chars);
    lemma_dp_prev_valid(l, 1);
    lemma_path_covers(l, dp_prev(l, 1));
    assert(spec_tokens(l).len() == viterbi_path(l).len());
}

/// Tokenizing without fusing covers the input exactly: the concatenation of
/// the returned tokens is the input string, with no gaps and no overlaps.
pub proof fn lemma_encode_concat(m: ModelV, chars: Seq<char>)
    requires
        m.wf(),
    ensures
        concat_all(spec_encode(m, chars, false)) == chars,
{
    lemma_populated_props(m, chars);
    lemma_tokens_concat(populated(m, chars));
}

/// Counting and concatenation facts of the fusing pass.
proof fn lemma_fuse_from_props(l: LatticeV, path: Seq<int>, unk: int, acc: Seq<char>)
    ensures
        fuse_from(l, path, unk, acc).len() <= path.len() + (if acc.len() == 0 {
            0int
        } else {
            1int
        }),
        concat_all(fuse_from(l, path, unk, acc)) == acc + pieces_cat(l, path),
    decreases path.len(),
{
    if path.len() == 0 {
        if acc.len() == 0 {
            assert(acc + pieces_cat(l, path) =~= Seq::<char>::empty());
        } else {
            lemma_concat_all_single(acc);
            assert(acc + pieces_cat(l, path) =~= acc);
        }
    } else {
        let piece = node_piece(l, path[0]);
        if l.nodes[path[0]].vid == unk {
            lemma_fuse_from_props(l, path.drop_first(), unk, acc + piece);
            assert((acc + piece) + pieces_cat(l, path.drop_first()) =~= acc + pieces_cat(l, path));
        } else {
            lemma_fuse_from_props(l, path.drop_first(), unk, Seq::empty());
            let head: Seq<Seq<char>> = if acc.len() == 0 {
                Seq::empty()
            } else {
                seq![acc]
            };
            let tail = fuse_from(l, path.drop_first(), unk, Seq::empty());
            lemma_concat_all_app(head + seq![piece], tail);
            assert(concat_all(head + seq![piece]) == acc + piece) by {
                if acc.len() == 0 {
                    assert(head + seq![piece] =~= seq![piece]);
                    lemma_concat_all_single(piece);
                    assert(acc + piece =~= piece);
                } else {
                    assert((head + seq![piece]).drop_last() =~= seq![acc]);
                    assert((head + seq![piece]).last() == piece);
                    lemma_concat_all_single(acc);
                }
            }
            assert(Seq::<char>::empty() + pieces_cat(l, path.drop_first()) =~= pieces_cat(
                l,
                path.drop_first(),
            ));
            assert((acc + piece) + pieces_cat(l, path.drop_first()) =~= acc + pieces_cat(l, path));
            assert((head + seq![piece]) + tail =~= fuse_from(l, path, unk, acc));
        }
    }
}

/// Fusing unknown runs never increases the number of output tokens, and
/// both modes concatenate to the same string.
pub proof fn lemma_fuse_relation(m: ModelV, chars: Seq<char>)
    requires
        m.wf(),
    ensures
        spec_encode(m, chars, true).len() <= spec_encode(m, chars, false).len(),
        concat_all(spec_encode(m, chars, true)) == concat_all(spec_encode(m, chars, false)),
{
    lemma_populated_props(m, chars);
    let l = populated(m, chars);
    let vp = viterbi_path(l);
    lemma_fuse_from_props(l, vp, m.unk, Seq::empty());
    lemma_pieces_cat_eq(l, vp);
    lemma_map_pieces(l, vp);
    assert(Seq::<char>::empty() + pieces_cat(l, vp) =~= pieces_cat(l, vp));
}

/// Once position `p` is processed, later processing leaves its outgoing
/// list and all existing nodes untouched.
proof fn lemma_populate_frame(m: ModelV, chars: Seq<char>, p: int, q: int)
    requires
        m.wf(),
        0 <= p < q <= chars.len(),
    ensures
        ({
            let e = empty_lattice(chars, m.bos, m.eos);
            let a = populate_upto(m, e, p + 1);
            let b = populate_upto(m, e, q);
            &&& b.begins[p] == a.begins[p]
            &&& b.nodes.len() >= a.nodes.len()
            &&& (forall|j: int| 0 <= j < a.nodes.len() ==> (#[trigger] b.nodes[j]) == a.nodes[j])
            &&& b.chars == a.chars
        }),
    decreases q,
{
    let e = empty_lattice(chars, m.bos, m.eos);
    if q == p + 1 {
    } else {
        lemma_populate_frame(m, chars, p, q - 1);
        lemma_populate_upto_props(m, chars, q - 1);
        lemma_populate_pos_props(m, populate_upto(m, e, q - 1), q - 1);
    }
}

/// Where a single-character vocabulary match exists at a position, no
/// unknown fallback edge is inserted there: every edge leaving it is backed
/// by the vocabulary entry that spells exactly its covered substring.
pub proof fn lemma_no_unknown_when_single(m: ModelV, chars: Seq<char>, p: int)
    requires
        m.wf(),
        0 <= p < chars.len(),
        vocab_has(m.vocab, chars.subrange(p, p + 1)),
    ensures
        forall|k: int|
            0 <= k < populated(m, chars).begins[p].len() ==> is_match_edge(
                m,
                populated(m, chars),
                #[trigger] populated(m, chars).begins[p][k],
            ),
{
    let e = empty_lattice(chars, m.bos, m.eos);
    lemma_populate_upto_props(m, chars, p);
    let lp = populate_upto(m, e, p);
    lemma_populate_pos_props(m, lp, p);
    let a = populate_upto(m, e, p + 1);
    assert(a == populate_pos(m, lp, p));
    assert(lp.begins[p] == e.begins[p]);
    assert(e.begins[p].len() == 0);
    let fl = populated(m, chars);
    if p + 1 < chars.len() as int {
        lemma_populate_frame(m, chars, p, chars.len() as int);
    }
    assert(fl.begins[p] == a.begins[p]);
    assert forall|k: int| 0 <= k < fl.begins[p].len() implies is_match_edge(
        m,
        fl,
        #[trigger] fl.begins[p][k],
    ) by {
        let j = fl.begins[p][k];
        assert(is_match_edge(m, a, j));
        assert(0 <= j < a.nodes.len());
        assert(fl.nodes[j] == a.nodes[j]);
        assert(node_piece(fl, j) == node_piece(a, j));
    }
}

/// Compares a stored string with a character vector.
fn str_eq_chars(s: &String, t: &Vec<char>) -> (r: bool)
    ensures
        r == (s@ == t@),
{
    let n = s.as_str().unicode_len();
    if n != t.len() {
        return false;
    }
    let mut i: usize = 0;
    while i < n
        invariant
            n == s@.len(),
            n == t@.len(),
            i <= n,
            forall|j: int| 0 <= j < i ==> s@[j] == t@[j],
        decreases n - i,
    {
        if s.as_str().get_char(i) != t[i] {
            return false;
        }
        i += 1;
    }
    proof {
        assert(s@ =~= t@);
    }
    true
}

/// Decomposes a string slice into its characters.
pub fn chars_of_str(s: &str) -> (r: Vec<char>)
    ensures
        r@ == s@,
{
    let n = s.unicode_len();
    let mut r: Vec<char> = Vec::new();
    let mut i: usize = 0;
    while i < n
        invariant
            n == s@.len(),
            i <= n,
            r@ == s@.take(i as int),
        decreases n - i,
    {
        r.push(s.get_char(i));
        proof {
            assert(s@.take(i as int).push(s@[i as int]) =~= s@.take(i as int + 1));
        }
        i += 1;
    }
    proof {
        assert(s@.take(n as int) =~= s@);
    }
    r
}

impl Unigram {
    /// Ties the executable model to its image: parallel tables, and a prefix
    /// index storing exactly the vocabulary.
    pub open spec fn wf(self) -> bool {
        &&& self@.wf()
        &&& self.trie.wf()
        &&& (forall|s: Seq<char>|
            #[trigger] self.trie.contains_seq(s) <==> vocab_has(self@.vocab, s))
    }

    /// Number of vocabulary entries.
    pub fn len(&self) -> (r: usize)
        ensures
            r == self@.vocab.len(),
    {
        self.vocab.len()
    }

    /// Builds a ready model from `(token, score)` pairs; entry order gives
    /// the ids. The boundary ids must be valid, at least three entries are
    /// required, tokens are non-empty, and scores are within `MAX_SCORE`.
    #[verifier::loop_isolation(false)]
    pub fn from(vocabulary: &Vec<(String, i64)>, bos_id: usize, eos_id: usize, unk_id: usize) -> (r:
        Unigram)
        requires
            vocabulary@.len() >= 3,
            vocabulary@.len() <= u32::MAX as int,
            bos_id < vocabulary@.len(),
            eos_id < vocabulary@.len(),
            unk_id < vocabulary@.len(),
            forall|i: int|
                0 <= i < vocabulary@.len() ==> -MAX_SCORE <= (#[trigger] vocabulary@[i]).1
                    <= MAX_SCORE && vocabulary@[i].0@.len() >= 1,
        ensures
            r.wf(),
            r@.vocab == vocabulary@.map_values(|p: (String, i64)| p.0@),
            r@.scores == vocabulary@.map_values(|p: (String, i64)| p.1 as int),
            r@.bos == bos_id as int,
            r@.eos == eos_id as int,
            r@.unk == unk_id as int,
            r.bos_id == bos_id,
            r.eos_id == eos_id,
            r.unk_id == unk_id,
    {
        let n = vocabulary.len();
        let mut vocab: Vec<String> = Vec::new();
        let mut scores: Vec<i64> = Vec::new();
        let mut builder = TrieBuilder::default();
        let mut i: usize = 0;
        while i < n
            invariant
                n == vocabulary@.len(),
                i <= n,
                vocab@.len() == i,
                scores@.len() == i,
                forall|j: int| 0 <= j < i ==> (#[trigger] vocab@[j])@ == vocabulary@[j].0@,
                forall|j: int| 0 <= j < i ==> (#[trigger] scores@[j]) == vocabulary@[j].1,
                builder.trie.wf(),
                forall|s: Seq<char>|
                    #[trigger] builder.trie.contains_seq(s) <==> (exists|j: int|
                        0 <= j < i && vocabulary@[j].0@ == s),
                forall|j: int|
                    0 <= j < n ==> -MAX_SCORE <= (#[trigger] vocabulary@[j]).1 <= MAX_SCORE
                        && vocabulary@[j].0@.len() >= 1,
            decreases n - i,
        {
            let pair = &vocabulary[i];
            let token = String::from_str(pair.0.as_str());
            let chars = chars_of_str(token.as_str());
            vocab.push(token);
            scores.push(pair.1);
            builder.push(&chars);
            proof {
                assert forall|s: Seq<char>| #[trigger] builder.trie.contains_seq(s) <==> (exists|
                    j: int,
                |
                    0 <= j < i + 1 && vocabulary@[j].0@ == s) by {
                    if builder.trie.contains_seq(s) {
                        if s == chars@ {
                            assert(vocabulary@[i as int].0@ == s);
                        } else {
                            let j = choose|j: int| 0 <= j < i && vocabulary@[j].0@ == s;
                        }
                    }
                    if exists|j: int| 0 <= j < i + 1 && vocabulary@[j].0@ == s {
                        let j = choose|j: int| 0 <= j < i + 1 && vocabulary@[j].0@ == s;
                        if j == i as int {
                            assert(s == chars@);
                        }
                    }
                }
            }
            i += 1;
        }
        // minimum score over all entries
        let mut min_score: i64 = scores[0];
        proof {
            assert(scores@[0] == vocabulary@[0].1);
            assert(-MAX_SCORE <= vocabulary@[0].1 <= MAX_SCORE);
            assert(scores@.map_values(|x: i64| x as int)[0] == scores@[0] as int);
        }
        let mut k: usize = 1;
        while k < n
            invariant
                1 <= k <= n,
                min_score as int == min_upto(scores@.map_values(|x: i64| x as int), k as int),
                -MAX_SCORE <= min_score <= MAX_SCORE,
            decreases n - k,
        {
            let s = scores[k];
            proof {
                assert(scores@[k as int] == vocabulary@[k as int].1);
                assert(scores@.map_values(|x: i64| x as int)[k as int] == scores@[k as int] as int);
            }
            if s < min_score {
                min_score = s;
            }
            k += 1;
        }
        let trie = builder.build();
        let r = Unigram { vocab, scores, trie, min_score, bos_id, eos_id, unk_id };
        proof {
            assert(r@.vocab =~= vocabulary@.map_values(|p: (String, i64)| p.0@));
            assert(r@.scores =~= vocabulary@.map_values(|p: (String, i64)| p.1 as int));
            assert forall|s: Seq<char>| #[trigger] r.trie.contains_seq(s) <==> vocab_has(
                r@.vocab,
                s,
            ) by {
                if r.trie.contains_seq(s) {
                    let j = choose|j: int| 0 <= j < n && vocabulary@[j].0@ == s;
                    assert(r@.vocab[j] == s);
                }
                if vocab_has(r@.vocab, s) {
                    let j = choose|j: int| 0 <= j < r@.vocab.len() && r@.vocab[j] == s;
                    assert(vocabulary@[j].0@ == s);
                }
            }
            assert forall|i2: int| 0 <= i2 < r@.vocab.len() implies (
            #[trigger] r@.vocab[i2]).len() >= 1 by {
                assert(vocabulary@[i2].0@.len() >= 1);
            }
        }
        r
    }

    /// The id under which `t` is stored, scanning from the most recent
    /// entry; `None` when absent.
    pub(crate) fn lookup_id(&self, t: &Vec<char>) -> (r: Option<usize>)
        requires
            self.wf(),
        ensures
            match r {
                Some(id) => token_id(self@.vocab, t@) == id as int,
                None => token_id(self@.vocab, t@) == -1,
            },
    {
        let ghost v = self@.vocab;
        let mut i = self.vocab.len();
        proof {
            assert(v.take(v.len() as int) =~= v);
        }
        while i > 0
            invariant
                i <= self.vocab@.len(),
                v == self@.vocab,
                token_id(v, t@) == token_id(v.take(i as int), t@),
            decreases i,
        {
            i -= 1;
            if str_eq_chars(&self.vocab[i], t) {
                proof {
                    assert(v.take(i as int + 1).last() == v[i as int]);
                    assert(v[i as int] == t@);
                }
                return Some(i);
            }
            proof {
                assert(v.take(i as int + 1).last() == v[i as int]);
                assert(v.take(i as int + 1).drop_last() =~= v.take(i as int));
            }
        }
        proof {
            assert(v.take(0) =~= Seq::<Seq<char>>::empty());
        }
        None
    }

    /// Fills the freshly built lattice: at every position all vocabulary
    /// matches become edges, and where no single-character match exists a
    /// single-character unknown edge with score `min_score - K_UNK_PENALTY`
    /// is added, so every position keeps an outgoing edge.
    #[verifier::loop_isolation(false)]
    pub fn populate_nodes(&self, lattice: &mut Lattice)
        requires
            self.wf(),
            old(lattice).wf(),
            old(lattice)@ == empty_lattice(
                old(lattice).chars@,
                old(lattice).bos_id as int,
                old(lattice).eos_id as int,
            ),
            old(lattice).unk_id == self.unk_id,
        ensures
            final(lattice).wf(),
            final(lattice)@ == populate_upto(
                self@,
                old(lattice)@,
                old(lattice)@.chars.len() as int,
            ),
            final(lattice).sentence == old(lattice).sentence,
            final(lattice).bos_id == old(lattice).bos_id,
            final(lattice).eos_id == old(lattice).eos_id,
            final(lattice).unk_id == old(lattice).unk_id,
    {
        let ghost m = self@;
        let ghost l0 = old(lattice)@;
        let unk = self.min_score - K_UNK_PENALTY;
        let len = lattice.chars.len();
        let mut begin_pos: usize = 0;
        while begin_pos < len
            invariant
                self.wf(),
                m == self@,
                lattice.wf(),
                len == lattice.chars@.len(),
                begin_pos <= len,
                lattice@ == populate_upto(m, l0, begin_pos as int),
                lattice@.chars == l0.chars,
                lattice.sentence == old(lattice).sentence,
                lattice.bos_id == old(lattice).bos_id,
                lattice.eos_id == old(lattice).eos_id,
                lattice.unk_id == old(lattice).unk_id,
                unk as int == unk_score(m),
                -MAX_EDGE_SCORE <= unk <= MAX_EDGE_SCORE,
            decreases len - begin_pos,
        {
            let ghost lp = lattice@;
            let ghost q = lattice.chars@;
            let ghost ms = matches_at(m, q, begin_pos as int);
            let results = self.trie.common_prefix_search(&lattice.chars, begin_pos);
            proof {
                lemma_match_lens_agree(
                    self.trie,
                    m.vocab,
                    q,
                    begin_pos as int,
                    q.len() - begin_pos + 1,
                );
                lemma_vocab_match_lens_props(m.vocab, q, begin_pos as int, q.len() - begin_pos + 1);
                lemma_match_lens_props(self.trie, q, begin_pos as int, q.len() - begin_pos + 1);
            }
            let mut has_single = false;
            let mut k: usize = 0;
            while k < results.len()
                invariant
                    k <= results@.len(),
                    results@.len() == ms.len(),
                    lattice.wf(),
                    lattice@ == insert_matches(m, lp, begin_pos as int, ms.take(k as int)),
                    lattice@.chars == q,
                    lattice.sentence == old(lattice).sentence,
                    lattice.bos_id == old(lattice).bos_id,
                    lattice.eos_id == old(lattice).eos_id,
                    lattice.unk_id == old(lattice).unk_id,
                    has_single == (exists|kk: int| 0 <= kk < k && #[trigger] ms[kk] == 1),
                decreases results@.len() - k,
            {
                let n_len = results[k].len();
                proof {
                    assert(results@[k as int]@ == q.subrange(
                        begin_pos as int,
                        begin_pos + ms[k as int],
                    ));
                    assert(n_len as int == ms[k as int]);
                    assert(0 <= ms[k as int] < q.len() - begin_pos + 1);
                    assert(ms.contains(ms[k as int]));
                    assert(vocab_has(m.vocab, q.subrange(begin_pos as int, begin_pos + n_len)));
                    if n_len == 0 {
                        let j = choose|j: int|
                            0 <= j < m.vocab.len() && m.vocab[j] == q.subrange(
                                begin_pos as int,
                                begin_pos as int,
                            );
                        assert(m.vocab[j].len() >= 1);
                        assert(q.subrange(begin_pos as int, begin_pos as int).len() == 0);
                        assert(false);
                    }
                    lemma_token_id(m.vocab, q.subrange(begin_pos as int, begin_pos + n_len));
                }
                let id = match self.lookup_id(&results[k]) {
                    Some(id) => id,
                    None => {
                        proof {
                            assert(false);
                        }
                        0
                    },
                };
                let score = self.scores[id];
                proof {
                    assert(m.scores[id as int] == score as int);
                    assert(-(MAX_SCORE as int) <= m.scores[id as int] <= MAX_SCORE as int);
                }
                lattice.insert(begin_pos, n_len, score, id);
                proof {
                    assert(ms.take(k as int + 1).drop_last() =~= ms.take(k as int));
                    assert(ms.take(k as int + 1).last() == ms[k as int]);
                    assert(lattice@ == insert_matches(m, lp, begin_pos as int, ms.take(k as int + 1)));
                }
                if n_len == 1 {
                    has_single = true;
                }
                proof {
                    if n_len == 1 {
                        assert(ms[k as int] == 1);
                    }
                }
                k += 1;
            }
            proof {
                assert(ms.take(ms.len() as int) =~= ms);
                assert(has_single == vocab_has(
                    m.vocab,
                    q.subrange(begin_pos as int, begin_pos + 1),
                )) by {
                    if has_single {
                        let kk = choose|kk: int| 0 <= kk < ms.len() && ms[kk] == 1;
                        assert(ms.contains(1));
                    }
                    if vocab_has(m.vocab, q.subrange(begin_pos as int, begin_pos + 1)) {
                        assert(0 <= 1 < q.len() - begin_pos + 1);
                        assert(ms.contains(1));
                        let kk = choose|kk: int| 0 <= kk < ms.len() && ms[kk] == 1;
                    }
                }
            }
            if !has_single {
                lattice.insert(begin_pos, 1, unk, self.unk_id);
            }
            proof {
                assert(lattice@ == populate_pos(m, populate_upto(m, l0, begin_pos as int), begin_pos as int));
            }
            begin_pos += 1;
        }
    }
    /// Tokenizes `sentence` into the best-scoring segmentation. With
    /// `fuse_unk` set, maximal runs of unknown-id tokens are merged into one
    /// token each.
    #[verifier::loop_isolation(false)]
    pub fn encode(&self, sentence: &str, fuse_unk: bool) -> (r: Vec<String>)
        requires
            self.wf(),
            sentence@.len() <= MAX_TEXT_LEN as int,
        ensures
            r@.map_values(|s: String| s@) == spec_encode(self@, sentence@, fuse_unk),
    {
        let ghost m = self@;
        let mut lattice = Lattice::from(sentence, self.bos_id, self.eos_id, self.unk_id);
        self.populate_nodes(&mut lattice);
        proof {
            lemma_populated_props(m, sentence@);
            assert(lattice@ == populated(m, sentence@));
        }
        if fuse_unk {
            let ghost lv = lattice@;
            let ghost vp = viterbi_path(lv);
            let path = lattice.viterbi();
            proof {
                lemma_dp_prev_valid(lv, 1);
                lemma_path_covers(lv, dp_prev(lv, 1));
            }
            let mut results: Vec<String> = Vec::new();
            let mut token = String::new();
            let mut i: usize = 0;
            proof {
                assert(vp.skip(0) =~= vp);
                assert(token@ =~= Seq::<char>::empty());
                assert(results@.map_values(|s: String| s@) =~= Seq::<Seq<char>>::empty());
                assert(Seq::<Seq<char>>::empty() + fuse_from(lv, vp, m.unk, Seq::empty())
                    =~= fuse_from(lv, vp, m.unk, Seq::empty()));
            }
            while i < path.len()
                invariant
                    i <= path@.len(),
                    path@.map_values(|x: usize| x as int) == vp,
                    results@.map_values(|s: String| s@) + fuse_from(
                        lv,
                        vp.skip(i as int),
                        m.unk,
                        token@,
                    ) == fuse_from(lv, vp, m.unk, Seq::empty()),
                decreases path@.len() - i,
            {
                let ghost tok_old = token@;
                let ghost res_old = results@;
                proof {
                    assert(path@.map_values(|x: usize| x as int)[i as int] == vp[i as int]);
                    assert(2 <= vp[i as int] < lv.nodes.len());
                    assert(vp.skip(i as int)[0] == vp[i as int]);
                    assert(vp.skip(i as int).drop_first() =~= vp.skip(i as int + 1));
                }
                let node_id = path[i];
                let item = lattice.piece(node_id);
                proof {
                    assert(item@ == node_piece(lv, vp[i as int]));
                }
                if self.unk_id == lattice.nodes[node_id].id {
                    proof {
                        assert(lv.nodes[vp[i as int]].vid == m.unk);
                        assert(fuse_from(lv, vp.skip(i as int), m.unk, tok_old) == fuse_from(
                            lv,
                            vp.skip(i as int + 1),
                            m.unk,
                            tok_old + node_piece(lv, vp[i as int]),
                        ));
                    }
                    token.append(item.as_str());
                } else {
                    proof {
                        assert(lv.nodes[vp[i as int]].vid != m.unk);
                        assert(fuse_from(lv, vp.skip(i as int), m.unk, tok_old) == (if tok_old.len()
                            == 0 {
                            Seq::<Seq<char>>::empty()
                        } else {
                            seq![tok_old]
                        }) + seq![node_piece(lv, vp[i as int])] + fuse_from(
                            lv,
                            vp.skip(i as int + 1),
                            m.unk,
                            Seq::empty(),
                        ));
                    }
                    if !token.as_str().is_empty() {
                        let done = token;
                        token = String::new();
                        results.push(done);
                        results.push(item);
                        proof {
                            assert(token@ =~= Seq::<char>::empty());
                            assert(results@.map_values(|s: String| s@) =~= res_old.map_values(
                                |s: String| s@,
                            ) + seq![tok_old] + seq![node_piece(lv, vp[i as int])]);
                            assert(results@.map_values(|s: String| s@) + fuse_from(
                                lv,
                                vp.skip(i as int + 1),
                                m.unk,
                                token@,
                            ) =~= fuse_from(lv, vp, m.unk, Seq::empty()));
                        }
                    } else {
                        results.push(item);
                        proof {
                            assert(tok_old.len() == 0);
                            assert(token@ =~= Seq::<char>::empty());
                            assert(results@.map_values(|s: String| s@) =~= res_old.map_values(
                                |s: String| s@,
                            ) + seq![node_piece(lv, vp[i as int])]);
                            assert(results@.map_values(|s: String| s@) + fuse_from(
                                lv,
                                vp.skip(i as int + 1),
                                m.unk,
                                token@,
                            ) =~= fuse_from(lv, vp, m.unk, Seq::empty()));
                        }
                    }
                }
                i += 1;
            }
            let ghost res_end = results@;
            let ghost tok_end = token@;
            if !token.as_str().is_empty() {
                results.push(token);
            }
            proof {
                assert(vp.skip(vp.len() as int) =~= Seq::<int>::empty());
                if tok_end.len() == 0 {
                    assert(res_end.map_values(|s: String| s@) + Seq::<Seq<char>>::empty()
                        =~= res_end.map_values(|s: String| s@));
                } else {
                    assert(results@.map_values(|s: String| s@) =~= res_end.map_values(
                        |s: String| s@,
                    ) + seq![tok_end]);
                }
                assert(results@.map_values(|s: String| s@) =~= spec_encode(m, sentence@, true));
            }
            results
        } else {
            lattice.tokens()
        }
    }
}

} // verus!
