//! Prefix index over the vocabulary's character sequences.
//!
//! The index is an arena of nodes addressed by index; node 0 is the root.
//! Each node records the edges to its children, whether a stored sequence
//! terminates there, and (as ghost state) the character sequence spelled
//! by the unique path from the root to it.

use vstd::prelude::*;

verus! {

/// One arena node: labelled edges to children (child indices are strictly
/// larger than the parent's, so the arena is acyclic), a terminal mark, and
/// the ghost path from the root.
pub struct TrieNode {
    pub children: Vec<(char, usize)>,
    pub terminal: bool,
    pub path: Ghost<Seq<char>>,
}

/// The prefix index. Built once by [`TrieBuilder`], then read-only.
pub struct Trie {
    pub nodes: Vec<TrieNode>,
}

/// First edge of `children` labelled `c`, if any.
pub open spec fn find_child_spec(children: Seq<(char, usize)>, c: char) -> Option<usize>
    decreases children.len(),
{
    if children.len() == 0 {
        None
    } else if children[0].0 == c {
        Some(children[0].1)
    } else {
        find_child_spec(children.drop_first(), c)
    }
}

impl Trie {
    /// Structural well-formedness: edges go strictly forward in the arena,
    /// ghost paths cohere along edges, and the root reaches every node by
    /// its recorded path.
    pub open spec fn wf(self) -> bool {
        &&& self.nodes@.len() >= 1
        &&& (forall|n: int, k: int|
            0 <= n < self.nodes@.len() && 0 <= k < self.nodes@[n].children@.len() ==> n < (
            #[trigger] self.nodes@[n].children@[k]).1 < self.nodes@.len())
        &&& self.nodes@[0].path@ == Seq::<char>::empty()
        &&& (forall|n: int, k: int|
            0 <= n < self.nodes@.len() && 0 <= k < self.nodes@[n].children@.len()
                ==> self.nodes@[(#[trigger] self.nodes@[n].children@[k]).1 as int].path@
                == self.nodes@[n].path@.push(self.nodes@[n].children@[k].0))
        &&& (forall|m: int|
            0 <= m < self.nodes@.len() ==> self.descend(0, #[trigger] self.nodes@[m].path@)
                == Some(m))
    }

    /// Node reached from `n` by following the characters of `s`, if the
    /// walk does not fall off the index.
    pub open spec fn descend(self, n: int, s: Seq<char>) -> Option<int>
        decreases s.len(),
    {
        if s.len() == 0 {
            Some(n)
        } else {
            match find_child_spec(self.nodes@[n].children@, s[0]) {
                None => None,
                Some(m) => self.descend(m as int, s.drop_first()),
            }
        }
    }

    /// Whether `s` was stored in the index.
    pub open spec fn contains_seq(self, s: Seq<char>) -> bool {
        match self.descend(0, s) {
            Some(m) => self.nodes@[m].terminal,
            None => false,
        }
    }
}

/// A found edge really is in the list, first among those labelled `c`.
proof fn lemma_find_child_valid(children: Seq<(char, usize)>, c: char)
    requires
        find_child_spec(children, c) is Some,
    ensures
        exists|k: int|
            0 <= k < children.len() && (#[trigger] children[k]).0 == c && children[k].1
                == find_child_spec(children, c)->Some_0,
    decreases children.len(),
{
    if children.len() > 0 && children[0].0 != c {
        lemma_find_child_valid(children.drop_first(), c);
        let k0 = choose|k: int|
            0 <= k < children.drop_first().len() && (#[trigger] children.drop_first()[k]).0 == c
                && children.drop_first()[k].1 == find_child_spec(children.drop_first(), c)->Some_0;
        assert(children[k0 + 1] == children.drop_first()[k0]);
    }
}

/// Appending an edge changes a lookup only when the lookup used to fail
/// and the new edge's label matches.
proof fn lemma_find_child_push(children: Seq<(char, usize)>, c: char, x: (char, usize))
    ensures
        find_child_spec(children.push(x), c) == (if find_child_spec(children, c) is Some {
            find_child_spec(children, c)
        } else if x.0 == c {
            Some(x.1)
        } else {
            None
        }),
    decreases children.len(),
{
    if children.len() == 0 {
        assert(children.push(x)[0] == x);
        assert(children.push(x).drop_first() =~= Seq::<(char, usize)>::empty());
        assert(find_child_spec(Seq::<(char, usize)>::empty(), c) is None);
    } else {
        assert(children.push(x)[0] == children[0]);
        assert(children.push(x).drop_first() =~= children.drop_first().push(x));
        lemma_find_child_push(children.drop_first(), c, x);
    }
}

/// Walking `s1 + s2` is walking `s1`, then walking `s2` from where that ended.
proof fn lemma_descend_append(t: Trie, n: int, s1: Seq<char>, s2: Seq<char>)
    ensures
        t.descend(n, s1 + s2) == (match t.descend(n, s1) {
            Some(m) => t.descend(m, s2),
            None => None,
        }),
    decreases s1.len(),
{
    if s1.len() == 0 {
        assert(s1 + s2 =~= s2);
    } else {
        assert((s1 + s2)[0] == s1[0]);
        assert((s1 + s2).drop_first() =~= s1.drop_first() + s2);
        match find_child_spec(t.nodes@[n].children@, s1[0]) {
            None => {}
            Some(m) => {
                lemma_descend_append(t, m as int, s1.drop_first(), s2);
            },
        }
    }
}

/// In a well-formed index a successful walk lands forward of its start and
/// on a node whose recorded path extends the start's by `s`.
proof fn lemma_descend_path(t: Trie, n: int, s: Seq<char>)
    requires
        t.wf(),
        0 <= n < t.nodes@.len(),
        t.descend(n, s) is Some,
    ensures
        n <= t.descend(n, s)->Some_0 < t.nodes@.len(),
        t.nodes@[t.descend(n, s)->Some_0].path@ == t.nodes@[n].path@ + s,
    decreases s.len(),
{
    if s.len() == 0 {
        assert(t.nodes@[n].path@ + s =~= t.nodes@[n].path@);
    } else {
        let fc = find_child_spec(t.nodes@[n].children@, s[0]);
        lemma_find_child_valid(t.nodes@[n].children@, s[0]);
        let m = fc->Some_0;
        lemma_descend_path(t, m as int, s.drop_first());
        assert(t.nodes@[m as int].path@ + s.drop_first() =~= t.nodes@[n].path@ + s);
    }
}

/// Describes `t2` as `t1` with one fresh node `idx` hung off `cur` under a
/// label `c` that `cur` did not use before.
spec fn grown_by(t1: Trie, t2: Trie, cur: int, c: char, idx: int) -> bool {
    &&& 0 <= cur < t1.nodes@.len()
    &&& idx == t1.nodes@.len()
    &&& find_child_spec(t1.nodes@[cur].children@, c) is None
    &&& t2.nodes@.len() == t1.nodes@.len() + 1
    &&& t2.nodes@[idx].children@ =~= Seq::<(char, usize)>::empty()
    &&& !t2.nodes@[idx].terminal
    &&& t2.nodes@[idx].path@ == t1.nodes@[cur].path@.push(c)
    &&& t2.nodes@[cur].children@ == t1.nodes@[cur].children@.push((c, idx as usize))
    &&& t2.nodes@[cur].terminal == t1.nodes@[cur].terminal
    &&& t2.nodes@[cur].path@ == t1.nodes@[cur].path@
    &&& (forall|n: int|
        0 <= n < t1.nodes@.len() && n != cur ==> #[trigger] t2.nodes@[n].children@
            == t1.nodes@[n].children@ && t2.nodes@[n].terminal == t1.nodes@[n].terminal
            && t2.nodes@[n].path@ == t1.nodes@[n].path@)
}

/// Walks that succeeded before the growth step still succeed, unchanged.
proof fn lemma_descend_preserved(t1: Trie, t2: Trie, cur: int, c: char, idx: int, n: int, s: Seq<
    char,
>)
    requires
        t1.wf(),
        grown_by(t1, t2, cur, c, idx),
        0 <= n < t1.nodes@.len(),
        t1.descend(n, s) is Some,
    ensures
        t2.descend(n, s) == t1.descend(n, s),
    decreases s.len(),
{
    if s.len() > 0 {
        let fc = find_child_spec(t1.nodes@[n].children@, s[0]);
        lemma_find_child_valid(t1.nodes@[n].children@, s[0]);
        let m = fc->Some_0;
        if n == cur {
            lemma_find_child_push(t1.nodes@[cur].children@, s[0], (c, idx as usize));
        }
        assert(find_child_spec(t2.nodes@[n].children@, s[0]) == fc);
        lemma_descend_preserved(t1, t2, cur, c, idx, m as int, s.drop_first());
    }
}

/// After the growth step, a successful walk either existed before or ends
/// exactly on the fresh node.
proof fn lemma_descend_grown(t1: Trie, t2: Trie, cur: int, c: char, idx: int, n: int, s: Seq<char>)
    requires
        t1.wf(),
        grown_by(t1, t2, cur, c, idx),
        0 <= n < t1.nodes@.len(),
        t2.descend(n, s) is Some,
    ensures
        t2.descend(n, s) == t1.descend(n, s) || t2.descend(n, s) == Some(idx),
    decreases s.len(),
{
    if s.len() > 0 {
        let fc2 = find_child_spec(t2.nodes@[n].children@, s[0]);
        let m = fc2->Some_0;
        if n == cur {
            lemma_find_child_push(t1.nodes@[cur].children@, s[0], (c, idx as usize));
            assert(t1.nodes.len() == t1.nodes@.len());
            assert(idx as usize as int == idx);
            if find_child_spec(t1.nodes@[cur].children@, s[0]) is None {
                // the walk took the fresh edge; the fresh node has no children
                assert(m == idx);
                assert(t2.descend(idx, s.drop_first()) is Some);
                if s.drop_first().len() > 0 {
                    assert(find_child_spec(t2.nodes@[idx].children@, s.drop_first()[0]) is None);
                }
                assert(t2.descend(n, s) == Some(idx));
            } else {
                lemma_find_child_valid(t1.nodes@[n].children@, s[0]);
                lemma_descend_grown(t1, t2, cur, c, idx, m as int, s.drop_first());
            }
        } else {
            assert(fc2 == find_child_spec(t1.nodes@[n].children@, s[0]));
            lemma_find_child_valid(t1.nodes@[n].children@, s[0]);
            lemma_descend_grown(t1, t2, cur, c, idx, m as int, s.drop_first());
        }
    }
}

/// Walks only read the edge lists, so two indexes with the same edges walk
/// identically.
proof fn lemma_descend_same_children(t1: Trie, t2: Trie, n: int, s: Seq<char>)
    requires
        t1.nodes@.len() == t2.nodes@.len(),
        forall|m: int|
            0 <= m < t1.nodes@.len() ==> #[trigger] t2.nodes@[m].children@
                == t1.nodes@[m].children@,
        0 <= n < t1.nodes@.len(),
        forall|m: int, k: int|
            0 <= m < t1.nodes@.len() && 0 <= k < t1.nodes@[m].children@.len() ==> m < (
            #[trigger] t1.nodes@[m].children@[k]).1 < t1.nodes@.len(),
    ensures
        t2.descend(n, s) == t1.descend(n, s),
    decreases s.len(),
{
    if s.len() > 0 {
        match find_child_spec(t1.nodes@[n].children@, s[0]) {
            None => {}
            Some(m) => {
                lemma_find_child_valid(t1.nodes@[n].children@, s[0]);
                lemma_descend_same_children(t1, t2, m as int, s.drop_first());
            },
        }
    }
}

impl Trie {
    /// First child of node `n` labelled `c`.
    fn find_child(&self, n: usize, c: char) -> (r: Option<usize>)
        requires
            self.wf(),
            n < self.nodes@.len(),
        ensures
            r == find_child_spec(self.nodes@[n as int].children@, c),
            r is Some ==> n < r->Some_0 < self.nodes@.len(),
    {
        let children = &self.nodes[n].children;
        let ghost cs = children@;
        let mut k: usize = 0;
        assert(cs.skip(0) =~= cs);
        while k < children.len()
            invariant
                self.wf(),
                n < self.nodes@.len(),
                children == &self.nodes@[n as int].children,
                cs == children@,
                k <= cs.len(),
                find_child_spec(cs.skip(k as int), c) == find_child_spec(cs, c),
            decreases cs.len() - k,
        {
            let pair = children[k];
            assert(cs.skip(k as int)[0] == cs[k as int]);
            if pair.0 == c {
                proof {
                    lemma_find_child_valid(cs.skip(k as int), c);
                }
                assert(find_child_spec(cs, c) == Some(pair.1));
                proof {
                    lemma_find_child_valid(cs, c);
                }
                return Some(pair.1);
            }
            assert(cs.skip(k as int).drop_first() =~= cs.skip(k as int + 1));
            k += 1;
        }
        assert(cs.skip(k as int) =~= Seq::<(char, usize)>::empty());
        None
    }

    /// Adds `token` to the index. Exactly the stored sequences gain `token`;
    /// everything else is unchanged.
    pub fn insert(&mut self, token: &Vec<char>)
        requires
            old(self).wf(),
        ensures
            final(self).wf(),
            forall|s: Seq<char>|
                final(self).contains_seq(s) <==> (old(self).contains_seq(s) || s == token@),
    {
        let ghost orig = *self;
        let n = token.len();
        let mut i: usize = 0;
        let mut cur: usize = 0;
        assert(token@.take(0) =~= Seq::<char>::empty());
        while i < n
            invariant
                self.wf(),
                n == token@.len(),
                i <= n,
                cur < self.nodes@.len(),
                self.descend(0, token@.take(i as int)) == Some(cur as int),
                self.nodes@[cur as int].path@ == token@.take(i as int),
                forall|s: Seq<char>| self.contains_seq(s) == orig.contains_seq(s),
            decreases n - i,
        {
            let c = token[i];
            assert(seq![c][0] == c && seq![c].drop_first() =~= Seq::<char>::empty());
            let ghost pre = *self;
            match self.find_child(cur, c) {
                Some(m) => {
                    proof {
                        assert(token@.take(i as int).push(c) =~= token@.take(i as int + 1));
                        assert(token@.take(i as int) + seq![c] =~= token@.take(i as int + 1));
                        lemma_descend_append(*self, 0, token@.take(i as int), seq![c]);
                        assert(self.descend(m as int, Seq::<char>::empty()) == Some(m as int));
                        assert(self.descend(cur as int, seq![c]) == Some(m as int));
                        lemma_descend_path(*self, cur as int, seq![c]);
                        assert(self.nodes@[m as int].path@ =~= token@.take(i as int + 1));
                    }
                    cur = m;
                },
                None => {
                    let idx = self.nodes.len();
                    let ghost newpath = self.nodes@[cur as int].path@.push(c);
                    self.nodes.push(
                        TrieNode { children: Vec::new(), terminal: false, path: Ghost(newpath) },
                    );
                    self.nodes[cur].children.push((c, idx));
                    proof {
                        lemma_after_grow(pre, *self, cur as int, c, idx as int);
                        assert(token@.take(i as int).push(c) =~= token@.take(i as int + 1));
                        assert(token@.take(i as int) + seq![c] =~= token@.take(i as int + 1));
                        lemma_descend_preserved(
                            pre,
                            *self,
                            cur as int,
                            c,
                            idx as int,
                            0,
                            token@.take(i as int),
                        );
                        lemma_descend_append(*self, 0, token@.take(i as int), seq![c]);
                        lemma_find_child_push(
                            pre.nodes@[cur as int].children@,
                            c,
                            (c, idx),
                        );
                        assert(self.descend(cur as int, seq![c]) == Some(idx as int));
                    }
                    cur = idx;
                },
            }
            i += 1;
        }
        assert(token@.take(n as int) =~= token@);
        let ghost pre = *self;
        self.nodes[cur].terminal = true;
        proof {
            lemma_after_terminal(pre, *self, cur as int, token@);
        }
    }
}

/// The lengths `l` in `[0, upto)`, in increasing order, such that the prefix
/// of length `l` of `q` starting at `from` is stored in the index.
pub open spec fn match_lens(t: Trie, q: Seq<char>, from: int, upto: int) -> Seq<int>
    decreases upto,
{
    if upto <= 0 {
        Seq::empty()
    } else {
        let pre = match_lens(t, q, from, upto - 1);
        if t.contains_seq(q.subrange(from, from + upto - 1)) {
            pre.push(upto - 1)
        } else {
            pre
        }
    }
}

/// The matched lengths are in range, strictly increasing, and are exactly
/// the lengths whose prefix is stored.
pub proof fn lemma_match_lens_props(t: Trie, q: Seq<char>, from: int, upto: int)
    ensures
        forall|j: int| 0 <= j < match_lens(t, q, from, upto).len() ==> 0 <= #[trigger] match_lens(
            t,
            q,
            from,
            upto,
        )[j] < upto,
        forall|j1: int, j2: int|
            0 <= j1 < j2 < match_lens(t, q, from, upto).len() ==> match_lens(t, q, from, upto)[j1]
                < match_lens(t, q, from, upto)[j2],
        forall|l: int|
            0 <= l < upto ==> (match_lens(t, q, from, upto).contains(l) <==> t.contains_seq(
                q.subrange(from, from + l),
            )),
    decreases upto,
{
    if upto > 0 {
        lemma_match_lens_props(t, q, from, upto - 1);
        let pre = match_lens(t, q, from, upto - 1);
        let ml = match_lens(t, q, from, upto);
        if t.contains_seq(q.subrange(from, from + upto - 1)) {
            assert(ml == pre.push(upto - 1));
            assert forall|l: int| 0 <= l < upto implies (ml.contains(l) <==> t.contains_seq(
                q.subrange(from, from + l),
            )) by {
                if l == upto - 1 {
                    assert(ml[ml.len() - 1] == l);
                    assert(ml.contains(l));
                } else {
                    assert(ml.contains(l) <==> pre.contains(l)) by {
                        if pre.contains(l) {
                            let j = choose|j: int| 0 <= j < pre.len() && pre[j] == l;
                            assert(ml[j] == l);
                        }
                        if ml.contains(l) {
                            let j = choose|j: int| 0 <= j < ml.len() && ml[j] == l;
                            assert(j < pre.len() && pre[j] == l);
                        }
                    }
                }
            }
        } else {
            assert forall|l: int| 0 <= l < upto implies (ml.contains(l) <==> t.contains_seq(
                q.subrange(from, from + l),
            )) by {
                if l == upto - 1 && ml.contains(l) {
                    let j = choose|j: int| 0 <= j < ml.len() && ml[j] == l;
                }
            }
        }
    }
}

/// Once the walk has died, no longer prefix matches, so the list is stable.
proof fn lemma_match_lens_stable(t: Trie, q: Seq<char>, from: int, lo: int, hi: int)
    requires
        0 <= lo <= hi,
        forall|l: int| lo <= l < hi ==> !t.contains_seq(#[trigger] q.subrange(from, from + l)),
    ensures
        match_lens(t, q, from, hi) == match_lens(t, q, from, lo),
    decreases hi - lo,
{
    if hi > lo {
        lemma_match_lens_stable(t, q, from, lo, hi - 1);
    }
}

/// Copies `chars[from..to]` into a fresh vector.
fn copy_range(chars: &Vec<char>, from: usize, to: usize) -> (r: Vec<char>)
    requires
        from <= to <= chars@.len(),
    ensures
        r@ == chars@.subrange(from as int, to as int),
{
    let mut r: Vec<char> = Vec::new();
    let mut i: usize = from;
    while i < to
        invariant
            from <= i <= to <= chars@.len(),
            r@ == chars@.subrange(from as int, i as int),
        decreases to - i,
    {
        r.push(chars[i]);
        proof {
            assert(chars@.subrange(from as int, i as int).push(chars@[i as int]) =~= chars@
                .subrange(from as int, i as int + 1));
        }
        i += 1;
    }
    assert(r@ =~= chars@.subrange(from as int, to as int));
    r
}

impl Trie {
    /// Every stored sequence that is a prefix of `chars[from..]`, ordered
    /// from shortest to longest match; empty if none match.
    pub fn common_prefix_search(&self, chars: &Vec<char>, from: usize) -> (res: Vec<Vec<char>>)
        requires
            self.wf(),
            from <= chars@.len(),
        ensures
            ({
                let ml = match_lens(*self, chars@, from as int, chars@.len() - from + 1);
                &&& res@.len() == ml.len()
                &&& (forall|j: int|
                    0 <= j < ml.len() ==> #[trigger] res@[j]@ == chars@.subrange(
                        from as int,
                        from + ml[j],
                    ))
            }),
            // matches come out in strictly increasing length
            forall|j1: int, j2: int|
                0 <= j1 < j2 < res@.len() ==> res@[j1]@.len() < res@[j2]@.len(),
    {
        let ghost q = chars@;
        let ghost total = chars@.len() - from + 1;
        let n = chars.len();
        let mut res: Vec<Vec<char>> = Vec::new();
        let mut cur: usize = 0;
        let mut l: usize = 0;
        let mut alive: bool = true;
        proof {
            assert(q.subrange(from as int, from as int) =~= Seq::<char>::empty());
        }
        while alive
            invariant
                self.wf(),
                n == q.len(),
                q == chars@,
                total == n - from + 1,
                from <= n,
                alive ==> from + l <= n,
                alive ==> cur < self.nodes@.len(),
                alive ==> self.descend(0, q.subrange(from as int, from + l)) == Some(cur as int),
                alive ==> res@.len() == match_lens(*self, q, from as int, l as int).len(),
                alive ==> (forall|j: int|
                    0 <= j < res@.len() ==> #[trigger] res@[j]@ == q.subrange(
                        from as int,
                        from + match_lens(*self, q, from as int, l as int)[j],
                    )),
                !alive ==> res@.len() == match_lens(*self, q, from as int, total).len(),
                !alive ==> (forall|j: int|
                    0 <= j < res@.len() ==> #[trigger] res@[j]@ == q.subrange(
                        from as int,
                        from + match_lens(*self, q, from as int, total)[j],
                    )),
            decreases (if alive {
                n - from - l + 1
            } else {
                0
            }),
        {
            let ghost pre_ml = match_lens(*self, q, from as int, l as int);
            if self.nodes[cur].terminal {
                let piece = copy_range(chars, from, from + l);
                res.push(piece);
            }
            proof {
                let ml1 = match_lens(*self, q, from as int, l as int + 1);
                assert(self.contains_seq(q.subrange(from as int, from + l)) == self.nodes@[
                    cur as int].terminal);
                if self.nodes@[cur as int].terminal {
                    assert(ml1 == pre_ml.push(l as int));
                } else {
                    assert(ml1 == pre_ml);
                }
                lemma_match_lens_props(*self, q, from as int, l as int + 1);
            }
            if from + l == n {
                proof {
                    assert(l as int + 1 == total);
                }
                alive = false;
            } else {
                match self.find_child(cur, chars[from + l]) {
                    Some(m) => {
                        proof {
                            let s1 = q.subrange(from as int, from + l);
                            let c = q[from + l];
                            assert(seq![c][0] == c && seq![c].drop_first() =~= Seq::<
                                char,
                            >::empty());
                            lemma_descend_append(*self, 0, s1, seq![c]);
                            assert(self.descend(m as int, Seq::<char>::empty()) == Some(
                                m as int,
                            ));
                            assert(self.descend(cur as int, seq![c]) == Some(m as int));
                            assert(s1 + seq![c] =~= q.subrange(from as int, from + l + 1));
                        }
                        cur = m;
                        l += 1;
                    },
                    None => {
                        proof {
                            let c = q[from + l];
                            assert forall|ll: int| l + 1 <= ll < total implies !self.contains_seq(
                                #[trigger] q.subrange(from as int, from as int + ll),
                            ) by {
                                let s1 = q.subrange(from as int, from + l);
                                let s2 = q.subrange(from + l, from as int + ll);
                                assert(s1 + s2 =~= q.subrange(from as int, from as int + ll));
                                lemma_descend_append(*self, 0, s1, s2);
                                assert(s2[0] == c);
                                assert(self.descend(cur as int, s2) is None);
                            }
                            lemma_match_lens_stable(*self, q, from as int, l as int + 1, total);
                        }
                        alive = false;
                    },
                }
            }
        }
        proof {
            lemma_match_lens_props(*self, q, from as int, total);
        }
        res
    }
}

/// Builds the prefix index by inserting the vocabulary's sequences one by
/// one, then freezing it.
pub struct TrieBuilder {
    pub trie: Trie,
}

impl Default for TrieBuilder {
    /// A builder holding an index with no stored sequences.
    fn default() -> (r: Self)
        ensures
            r.trie.wf(),
            forall|s: Seq<char>| !r.trie.contains_seq(s),
    {
        let mut nodes: Vec<TrieNode> = Vec::new();
        nodes.push(
            TrieNode { children: Vec::new(), terminal: false, path: Ghost(Seq::empty()) },
        );
        let trie = Trie { nodes };
        assert forall|s: Seq<char>| !trie.contains_seq(s) by {
            if s.len() > 0 {
                assert(find_child_spec(trie.nodes@[0].children@, s[0]) is None);
            }
        }
        TrieBuilder { trie }
    }
}

impl TrieBuilder {
    /// Adds one sequence to the index under construction.
    pub fn push(&mut self, token: &Vec<char>)
        requires
            old(self).trie.wf(),
        ensures
            final(self).trie.wf(),
            forall|s: Seq<char>|
                final(self).trie.contains_seq(s) <==> (old(self).trie.contains_seq(s) || s
                    == token@),
    {
        self.trie.insert(token);
    }

    /// Freezes the index.
    pub fn build(self) -> (r: Trie)
        ensures
            r == self.trie,
    {
        self.trie
    }
}

/// An index with nothing stored in it.
pub fn empty_trie() -> (r: Trie)
    ensures
        r.wf(),
        forall|s: Seq<char>| !r.contains_seq(s),
{
    TrieBuilder::default().build()
}

/// Re-establishes well-formedness and unchanged contents after one growth
/// step.
proof fn lemma_after_grow(t1: Trie, t2: Trie, cur: int, c: char, idx: int)
    requires
        t1.wf(),
        grown_by(t1, t2, cur, c, idx),
    ensures
        t2.wf(),
        forall|s: Seq<char>| t2.contains_seq(s) == t1.contains_seq(s),
        t2.descend(cur, seq![c]) == Some(idx),
{
    lemma_find_child_push(t1.nodes@[cur].children@, c, (c, idx as usize));
    assert(t1.nodes.len() == t1.nodes@.len());
    assert(idx as usize as int == idx);
    assert(seq![c][0] == c && seq![c].drop_first() =~= Seq::<char>::empty());
    assert(t2.descend(idx, Seq::<char>::empty()) == Some(idx));
    assert(t2.descend(cur, seq![c]) == Some(idx));
    // edges still go strictly forward
    assert forall|n: int, k: int|
        0 <= n < t2.nodes@.len() && 0 <= k < t2.nodes@[n].children@.len() implies n < (
    #[trigger] t2.nodes@[n].children@[k]).1 < t2.nodes@.len() by {
        if n == cur {
            if k < t1.nodes@[cur].children@.len() {
                assert(t2.nodes@[cur].children@[k] == t1.nodes@[cur].children@[k]);
            } else {
                assert(t2.nodes@[cur].children@[k] == (c, idx as usize));
            }
        } else if n < t1.nodes@.len() {
            assert(t2.nodes@[n].children@ == t1.nodes@[n].children@);
        }
    }
    // ghost paths still cohere along edges
    assert forall|n: int, k: int|
        0 <= n < t2.nodes@.len() && 0 <= k < t2.nodes@[n].children@.len() implies t2.nodes@[(
    #[trigger] t2.nodes@[n].children@[k]).1 as int].path@ == t2.nodes@[n].path@.push(
        t2.nodes@[n].children@[k].0,
    ) by {
        if n == cur {
            if k < t1.nodes@[cur].children@.len() {
                assert(t2.nodes@[cur].children@[k] == t1.nodes@[cur].children@[k]);
                let ch = t1.nodes@[cur].children@[k].1;
                assert(cur < ch < t1.nodes@.len());
                assert(t2.nodes@[ch as int].children@ == t1.nodes@[ch as int].children@);
                assert(t2.nodes@[ch as int].path@ == t1.nodes@[ch as int].path@);
            } else {
                assert(t2.nodes@[cur].children@[k] == (c, idx as usize));
            }
        } else if n < t1.nodes@.len() {
            assert(t2.nodes@[n].children@ == t1.nodes@[n].children@);
            let ch = t1.nodes@[n].children@[k].1;
            assert(n < ch < t1.nodes@.len());
            if ch != cur {
                assert(t2.nodes@[ch as int].children@ == t1.nodes@[ch as int].children@);
            }
            assert(t2.nodes@[ch as int].path@ == t1.nodes@[ch as int].path@);
        }
    }
    // root reaches every node by its path
    assert forall|m: int| 0 <= m < t2.nodes@.len() implies t2.descend(
        0,
        #[trigger] t2.nodes@[m].path@,
    ) == Some(m) by {
        if m == idx {
            lemma_descend_preserved(t1, t2, cur, c, idx, 0, t1.nodes@[cur].path@);
            lemma_descend_append(t2, 0, t1.nodes@[cur].path@, seq![c]);
            assert(t1.nodes@[cur].path@ + seq![c] =~= t2.nodes@[m].path@);
        } else if m == cur {
            lemma_descend_preserved(t1, t2, cur, c, idx, 0, t1.nodes@[cur].path@);
        } else {
            assert(t2.nodes@[m].children@ == t1.nodes@[m].children@);
            assert(t2.nodes@[m].path@ == t1.nodes@[m].path@);
            lemma_descend_preserved(t1, t2, cur, c, idx, 0, t1.nodes@[m].path@);
        }
    }
    assert(t2.nodes@[0].path@ == t1.nodes@[0].path@);
    assert(t2.wf());
    assert forall|s: Seq<char>| t2.contains_seq(s) == t1.contains_seq(s) by {
        match t2.descend(0, s) {
            Some(m) => {
                lemma_descend_grown(t1, t2, cur, c, idx, 0, s);
                if t1.descend(0, s) == Some(m) {
                    lemma_descend_path(t1, 0, s);
                    if m != cur {
                        assert(t2.nodes@[m].children@ == t1.nodes@[m].children@);
                        assert(t2.nodes@[m].terminal == t1.nodes@[m].terminal);
                    }
                } else {
                    assert(m == idx && !t2.nodes@[idx].terminal);
                    if t1.descend(0, s) is Some {
                        lemma_descend_preserved(t1, t2, cur, c, idx, 0, s);
                    }
                }
            },
            None => {
                if t1.descend(0, s) is Some {
                    lemma_descend_preserved(t1, t2, cur, c, idx, 0, s);
                }
            },
        }
    }
}

/// Marking one reached node terminal adds exactly its path to the contents.
proof fn lemma_after_terminal(t1: Trie, t2: Trie, cur: int, tok: Seq<char>)
    requires
        t1.wf(),
        0 <= cur < t1.nodes@.len(),
        t1.descend(0, tok) == Some(cur),
        t1.nodes@[cur].path@ == tok,
        t2.nodes@.len() == t1.nodes@.len(),
        t2.nodes@[cur].children@ == t1.nodes@[cur].children@,
        t2.nodes@[cur].path@ == t1.nodes@[cur].path@,
        t2.nodes@[cur].terminal,
        forall|n: int|
            0 <= n < t1.nodes@.len() && n != cur ==> #[trigger] t2.nodes@[n].children@
                == t1.nodes@[n].children@ && t2.nodes@[n].terminal == t1.nodes@[n].terminal
                && t2.nodes@[n].path@ == t1.nodes@[n].path@,
    ensures
        t2.wf(),
        forall|s: Seq<char>| t2.contains_seq(s) <==> (t1.contains_seq(s) || s == tok),
{
    assert forall|n: int|
        0 <= n < t2.nodes@.len() implies #[trigger] t2.nodes@[n].children@
        == t1.nodes@[n].children@ by {
        if n != cur {
            assert(t2.nodes@[n].children@ == t1.nodes@[n].children@);
        }
    }
    assert forall|n: int|
        0 <= n < t2.nodes@.len() implies #[trigger] t2.nodes@[n].path@ == t1.nodes@[n].path@ by {
        if n != cur {
            assert(t2.nodes@[n].children@ == t1.nodes@[n].children@);
            assert(t2.nodes@[n].path@ == t1.nodes@[n].path@);
        }
    }
    assert forall|n: int, s: Seq<char>| 0 <= n < t1.nodes@.len() implies #[trigger] t2.descend(n, s)
        == t1.descend(n, s) by {
        lemma_descend_same_children(t1, t2, n, s);
    }
    assert(t2.nodes@[0].path@ == t1.nodes@[0].path@);
    assert forall|m: int| 0 <= m < t2.nodes@.len() implies t2.descend(
        0,
        #[trigger] t2.nodes@[m].path@,
    ) == Some(m) by {
        assert(t1.descend(0, t1.nodes@[m].path@) == Some(m));
    }
    assert(t2.wf());
    assert forall|s: Seq<char>| t2.contains_seq(s) <==> (t1.contains_seq(s) || s == tok) by {
        match t2.descend(0, s) {
            Some(m) => {
                lemma_descend_path(t1, 0, s);
                assert(Seq::<char>::empty() + s =~= s);
                if m != cur {
                    assert(t2.nodes@[m].children@ == t1.nodes@[m].children@);
                    assert(t2.nodes@[m].terminal == t1.nodes@[m].terminal);
                }
                if m == cur {
                    assert(t1.nodes@[m].path@ =~= s);
                    assert(s == tok);
                }
            },
            None => {},
        }
    }
}

} // verus!

