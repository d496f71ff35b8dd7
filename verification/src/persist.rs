//! The persisted shape of a ready model, and the text conventions of the
//! tab-separated vocabulary export format.
//!
//! The record excludes the prefix index: it is rebuilt deterministically
//! from the vocabulary on load. Reading and writing files, and the byte
//! format itself, live outside the library; it hands out and takes back
//! this record.

use vstd::prelude::*;
use vstd::string::StrSliceExecFns;
use vstd::string::StringExecFns;
use crate::model::ModelV;
use crate::model::Unigram;
use crate::model::spec_encode;
use crate::MAX_SCORE;

verus! {

/// Errors found while loading a vocabulary export.
#[derive(Debug, Clone)]
pub enum LoadError {
    /// A line of the tab-separated format did not split into exactly two
    /// fields; carries a description with the line number and raw content.
    InvalidLine(String),
}

impl LoadError {
    /// The carried description.
    pub fn message(&self) -> (r: String)
        ensures
            self matches LoadError::InvalidLine(s) && r == s,
    {
        match self {
            LoadError::InvalidLine(s) => s.clone(),
        }
    }
}

/// The persisted image of a ready model.
pub struct ModelRecord {
    pub token_to_ids: Vec<(String, u32)>,
    pub vocab: Vec<String>,
    pub scores: Vec<i64>,
    pub min_score: i64,
    pub bos_id: usize,
    pub eos_id: usize,
    pub unk_id: usize,
}

impl Unigram {
    /// The record that persists this model.
    pub fn to_record(&self) -> (r: ModelRecord)
        requires
            self.wf(),
        ensures
            r.vocab@.map_values(|s: String| s@) == self@.vocab,
            r.scores@.map_values(|x: i64| x as int) == self@.scores,
            r.min_score as int == self@.min_score,
            r.bos_id as int == self@.bos,
            r.eos_id as int == self@.eos,
            r.unk_id as int == self@.unk,
            r.token_to_ids@.len() == self@.vocab.len(),
            forall|i: int|
                0 <= i < r.token_to_ids@.len() ==> (#[trigger] r.token_to_ids@[i]).0@
                    == self@.vocab[i] && r.token_to_ids@[i].1 == i as u32,
    {
        let token_to_ids = self.get_vocab();
        let n = self.vocab.len();
        let mut vocab: Vec<String> = Vec::new();
        let mut scores: Vec<i64> = Vec::new();
        let mut i: usize = 0;
        while i < n
            invariant
                n == self.vocab@.len(),
                n == self.scores@.len(),
                i <= n,
                vocab@.len() == i,
                scores@.len() == i,
                forall|j: int| 0 <= j < i ==> (#[trigger] vocab@[j])@ == self@.vocab[j],
                forall|j: int| 0 <= j < i ==> (#[trigger] scores@[j]) == self.scores@[j],
            decreases n - i,
        {
            vocab.push(self.vocab[i].clone());
            scores.push(self.scores[i]);
            i += 1;
        }
        proof {
            assert(vocab@.map_values(|s: String| s@) =~= self@.vocab);
            assert(scores@.map_values(|x: i64| x as int) =~= self@.scores);
        }
        ModelRecord {
            token_to_ids,
            vocab,
            scores,
            min_score: self.min_score,
            bos_id: self.bos_id,
            eos_id: self.eos_id,
            unk_id: self.unk_id,
        }
    }

    /// Rebuilds a ready model from a persisted record; the prefix index is
    /// reconstructed from the vocabulary.
    pub fn from_record(rec: &ModelRecord) -> (r: Unigram)
        requires
            rec.vocab@.len() == rec.scores@.len(),
            rec.vocab@.len() >= 3,
            rec.vocab@.len() <= u32::MAX as int,
            rec.bos_id < rec.vocab@.len(),
            rec.eos_id < rec.vocab@.len(),
            rec.unk_id < rec.vocab@.len(),
            forall|i: int|
                0 <= i < rec.scores@.len() ==> -MAX_SCORE <= (#[trigger] rec.scores@[i])
                    <= MAX_SCORE,
            forall|i: int| 0 <= i < rec.vocab@.len() ==> (#[trigger] rec.vocab@[i])@.len() >= 1,
        ensures
            r.wf(),
            r@.vocab == rec.vocab@.map_values(|s: String| s@),
            r@.scores == rec.scores@.map_values(|x: i64| x as int),
            r@.bos == rec.bos_id as int,
            r@.eos == rec.eos_id as int,
            r@.unk == rec.unk_id as int,
    {
        let n = rec.vocab.len();
        let mut pieces: Vec<(String, i64)> = Vec::new();
        let mut i: usize = 0;
        while i < n
            invariant
                n == rec.vocab@.len(),
                n == rec.scores@.len(),
                i <= n,
                pieces@.len() == i,
                forall|j: int|
                    0 <= j < i ==> (#[trigger] pieces@[j]).0@ == rec.vocab@[j]@ && pieces@[j].1
                        == rec.scores@[j],
                forall|j: int|
                    0 <= j < n ==> -MAX_SCORE <= (#[trigger] rec.scores@[j]) <= MAX_SCORE,
                forall|j: int| 0 <= j < n ==> (#[trigger] rec.vocab@[j])@.len() >= 1,
            decreases n - i,
        {
            pieces.push((rec.vocab[i].clone(), rec.scores[i]));
            i += 1;
        }
        let r = Unigram::from(&pieces, rec.bos_id, rec.eos_id, rec.unk_id);
        proof {
            assert(r@.vocab =~= rec.vocab@.map_values(|s: String| s@));
            assert(r@.scores =~= rec.scores@.map_values(|x: i64| x as int));
        }
        r
    }
}

/// Rebuilding a model whose vocabulary, scores and boundary ids match the
/// original restores the identical model image — the minimum score is
/// determined by the scores — and therefore identical tokenization for
/// every input, in both fusing modes.
pub proof fn lemma_record_round_trip(m1: ModelV, m2: ModelV, chars: Seq<char>, fuse: bool)
    requires
        m1.wf(),
        m2.wf(),
        m2.vocab == m1.vocab,
        m2.scores == m1.scores,
        m2.bos == m1.bos,
        m2.eos == m1.eos,
        m2.unk == m1.unk,
    ensures
        m2 == m1,
        spec_encode(m2, chars, fuse) == spec_encode(m1, chars, fuse),
{
}

/// The space marker of the tab-separated export format, mapped back to an
/// ordinary space on load.
pub open spec fn unmark(c: char) -> char {
    if c == '\u{2581}' {
        ' '
    } else {
        c
    }
}

/// Replaces every space marker of a line with an ordinary space.
pub fn replace_markers(line: &str) -> (r: String)
    ensures
        r@ == line@.map_values(|c: char| unmark(c)),
{
    let n = line.unicode_len();
    let mut r = String::new();
    let mut i: usize = 0;
    proof {
        reveal_strlit(" ");
        assert(" "@ =~= seq![' ']);
        assert(r@ =~= line@.take(0).map_values(|c: char| unmark(c)));
    }
    while i < n
        invariant
            n == line@.len(),
            i <= n,
            r@ == line@.take(i as int).map_values(|c: char| unmark(c)),
            " "@ == seq![' '],
        decreases n - i,
    {
        let c = line.get_char(i);
        if c == '\u{2581}' {
            r.append(" ");
        } else {
            let piece = line.substring_char(i, i + 1);
            proof {
                assert(piece@ =~= seq![line@[i as int]]);
            }
            r.append(piece);
        }
        proof {
            assert(line@.take(i as int + 1).map_values(|c: char| unmark(c)) =~= line@.take(
                i as int,
            ).map_values(|c: char| unmark(c)).push(unmark(line@[i as int])));
            assert(r@ =~= line@.take(i as int + 1).map_values(|c: char| unmark(c)));
        }
        i += 1;
    }
    proof {
        assert(line@.take(n as int) =~= line@);
    }
    r
}

/// Number of tab characters in `s`.
pub open spec fn tab_count(s: Seq<char>) -> int
    decreases s.len(),
{
    if s.len() == 0 {
        0
    } else {
        tab_count(s.drop_last()) + (if s.last() == '\t' {
            1int
        } else {
            0int
        })
    }
}

/// Splits one line of the export format, after marker replacement, into its
/// `token` and `score` fields. A line splits exactly when it holds exactly
/// one tab; otherwise it is invalid.
pub fn split_fields(line: &str) -> (r: Option<(String, String)>)
    ensures
        match r {
            Some(fields) => exists|k: int|
                {
                    &&& 0 <= k < line@.len()
                    &&& line@[k] == '\t'
                    &&& #[trigger] fields.0@ == line@.take(k)
                    &&& fields.1@ == line@.skip(k + 1)
                    &&& tab_count(line@) == 1
                },
            None => tab_count(line@) != 1,
        },
{
    let n = line.unicode_len();
    let mut tab_at: Option<usize> = None;
    let mut seen: usize = 0;
    let mut i: usize = 0;
    proof {
        assert(tab_count(line@.take(0)) == 0);
    }
    while i < n
        invariant
            n == line@.len(),
            i <= n,
            seen as int == tab_count(line@.take(i as int)),
            seen <= i,
            match tab_at {
                Some(k) => k < i && line@[k as int] == '\t' && seen >= 1,
                None => seen == 0,
            },
            seen >= 1 ==> (tab_at matches Some(k) && line@[k as int] == '\t' && k < i),
        decreases n - i,
    {
        let c = line.get_char(i);
        proof {
            assert(line@.take(i as int + 1).drop_last() =~= line@.take(i as int));
            assert(line@.take(i as int + 1).last() == line@[i as int]);
        }
        if c == '\t' {
            if tab_at.is_none() {
                tab_at = Some(i);
            }
            seen += 1;
        }
        i += 1;
    }
    proof {
        assert(line@.take(n as int) =~= line@);
    }
    if seen == 1 {
        match tab_at {
            Some(k) => {
                let left = line.substring_char(0, k);
                let right = line.substring_char(k + 1, n);
                proof {
                    assert(left@ =~= line@.take(k as int));
                    assert(right@ =~= line@.skip(k as int + 1));
                }
                Some((String::from_str(left), String::from_str(right)))
            },
            None => None,
        }
    } else {
        None
    }
}

/// The file name that persisting under a base name produces: with a name,
/// `<name>-unigram.json`; without one, `unigram.json`.
pub fn save_filename(name: Option<&str>) -> (r: String)
    ensures
        match name {
            Some(n) => r@ == n@ + "-unigram.json"@,
            None => r@ == "unigram.json"@,
        },
{
    match name {
        Some(n) => {
            let mut s = String::from_str(n);
            s.append("-unigram.json");
            s
        },
        None => String::from_str("unigram.json"),
    }
}

} // verus!
