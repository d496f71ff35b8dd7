//! Lookup surface and the tokenizer-pipeline entry point: id and token
//! lookups, vocabulary iteration, and batch tokenization into positioned
//! tokens.

use vstd::prelude::*;
use vstd::string::StringExecFns;
use crate::model::ModelV;
use crate::model::Unigram;
use crate::model::chars_of_str;
use crate::model::spec_encode;
use crate::model::token_id;
use crate::model::vocab_has;
use crate::model::lemma_token_id;
use crate::MAX_TEXT_LEN;

verus! {

/// Character offsets of a token within its original text; this layer leaves
/// them unpopulated.
pub type Offsets = (usize, usize);

/// One positioned token produced by the pipeline.
pub struct Token {
    pub id: u32,
    pub value: String,
    pub offsets: Offsets,
    pub word: u32,
}

impl Token {
    /// Builds a token record.
    pub fn new(id: u32, value: String, offsets: Offsets, word: u32) -> (r: Token)
        ensures
            r.id == id,
            r.value == value,
            r.offsets == offsets,
            r.word == word,
    {
        Token { id, value, offsets, word }
    }
}

/// The id the pipeline attaches to a token string: its vocabulary id, or the
/// sentinel 0 on a lookup miss.
pub open spec fn id_or_zero(m: ModelV, t: Seq<char>) -> int {
    if token_id(m.vocab, t) == -1 {
        0
    } else {
        token_id(m.vocab, t)
    }
}

/// The pipeline's output for one text: each decoded token with its id (or
/// the 0 sentinel) and its position index.
pub open spec fn spec_tokenize_one(m: ModelV, chars: Seq<char>) -> Seq<(int, Seq<char>, int)> {
    let toks = spec_encode(m, chars, false);
    Seq::new(toks.len(), |k: int| (id_or_zero(m, toks[k]), toks[k], k))
}

/// The pipeline's output for a batch, element outputs in order.
pub open spec fn spec_tokenize(m: ModelV, texts: Seq<Seq<char>>) -> Seq<(int, Seq<char>, int)>
    decreases texts.len(),
{
    if texts.len() == 0 {
        Seq::empty()
    } else {
        spec_tokenize(m, texts.drop_last()) + spec_tokenize_one(m, texts.last())
    }
}

impl Unigram {
    /// The id of `token`, or `None` if it is not in the vocabulary.
    pub fn token_to_id(&self, token: &str) -> (r: Option<u32>)
        requires
            self.wf(),
        ensures
            match r {
                Some(id) => token_id(self@.vocab, token@) == id as int,
                None => !vocab_has(self@.vocab, token@),
            },
    {
        let chars = chars_of_str(token);
        proof {
            lemma_token_id(self@.vocab, token@);
        }
        match self.lookup_id(&chars) {
            Some(id) => Some(id as u32),
            None => None,
        }
    }

    /// The token stored under `id`, or `None` when `id` is out of range.
    pub fn id_to_token(&self, id: u32) -> (r: Option<String>)
        requires
            self.wf(),
        ensures
            match r {
                Some(s) => id < self@.vocab.len() && s@ == self@.vocab[id as int],
                None => id >= self@.vocab.len(),
            },
    {
        if (id as usize) < self.vocab.len() {
            Some(self.vocab[id as usize].clone())
        } else {
            None
        }
    }

    /// The vocabulary as `(token, id)` pairs, in id order.
    pub fn get_vocab(&self) -> (r: Vec<(String, u32)>)
        requires
            self.wf(),
        ensures
            r@.len() == self@.vocab.len(),
            forall|i: int|
                0 <= i < r@.len() ==> (#[trigger] r@[i]).0@ == self@.vocab[i] && r@[i].1 == i as u32,
    {
        let n = self.vocab.len();
        let mut r: Vec<(String, u32)> = Vec::new();
        let mut i: usize = 0;
        while i < n
            invariant
                n == self.vocab@.len(),
                n <= u32::MAX,
                i <= n,
                r@.len() == i,
                forall|j: int|
                    0 <= j < i ==> (#[trigger] r@[j]).0@ == self@.vocab[j] && r@[j].1 == j as u32,
            decreases n - i,
        {
            r.push((self.vocab[i].clone(), i as u32));
            i += 1;
        }
        r
    }

    /// Number of vocabulary entries.
    pub fn get_vocab_size(&self) -> (r: usize)
        ensures
            r == self@.vocab.len(),
    {
        self.vocab.len()
    }

    /// Tokenizes a batch of texts. Every token carries its vocabulary id (0
    /// on a lookup miss), its surface string, unpopulated offsets, and its
    /// position within its text.
    #[verifier::loop_isolation(false)]
    pub fn tokenize(&self, sentence: Vec<(String, Offsets)>) -> (r: Vec<Token>)
        requires
            self.wf(),
            forall|i: int|
                0 <= i < sentence@.len() ==> (#[trigger] sentence@[i]).0@.len()
                    <= MAX_TEXT_LEN as int,
        ensures
            r@.map_values(|t: Token| (t.id as int, t.value@, t.word as int)) == spec_tokenize(
                self@,
                sentence@.map_values(|p: (String, Offsets)| p.0@),
            ),
            forall|k: int| 0 <= k < r@.len() ==> (#[trigger] r@[k]).offsets == (0usize, 0usize),
    {
        let ghost m = self@;
        let ghost texts = sentence@.map_values(|p: (String, Offsets)| p.0@);
        let mut results: Vec<Token> = Vec::new();
        let mut i: usize = 0;
        proof {
            assert(texts.take(0) =~= Seq::<Seq<char>>::empty());
        }
        while i < sentence.len()
            invariant
                i <= sentence@.len(),
                results@.map_values(|t: Token| (t.id as int, t.value@, t.word as int))
                    == spec_tokenize(m, texts.take(i as int)),
                forall|k: int|
                    0 <= k < results@.len() ==> (#[trigger] results@[k]).offsets == (0usize, 0usize),
            decreases sentence@.len() - i,
        {
            let element = &sentence[i];
            proof {
                assert(sentence@[i as int].0@.len() <= MAX_TEXT_LEN as int);
                assert(texts[i as int] == sentence@[i as int].0@);
            }
            let tokens = self.encode(element.0.as_str(), false);
            let ghost enc = spec_encode(m, texts[i as int], false);
            let ghost pre = results@;
            let mut word: usize = 0;
            while word < tokens.len()
                invariant
                    word <= tokens@.len(),
                    tokens@.map_values(|s: String| s@) == enc,
                    word <= u32::MAX,
                    results@.len() == pre.len() + word,
                    forall|k: int| 0 <= k < pre.len() ==> results@[k] == pre[k],
                    forall|k: int|
                        pre.len() <= k < results@.len() ==> ((#[trigger] results@[k]).id as int,
                        results@[k].value@, results@[k].word as int) == spec_tokenize_one(
                            m,
                            texts[i as int],
                        )[k - pre.len()] && results@[k].offsets == (0usize, 0usize),
                decreases tokens@.len() - word,
            {
                proof {
                    assert(tokens@.map_values(|s: String| s@).len() == tokens@.len());
                    assert(tokens@.map_values(|s: String| s@)[word as int] == tokens@[
                        word as int]@);
                    lemma_token_id(m.vocab, enc[word as int]);
                    assert(enc.len() <= texts[i as int].len() + 1) by {
                        crate::model::lemma_encode_len(m, texts[i as int]);
                    }
                }
                let string = &tokens[word];
                let id: u32 = match self.token_to_id(string.as_str()) {
                    Some(id) => id,
                    None => 0,
                };
                let offsets = (0, 0);
                results.push(Token::new(id, string.clone(), offsets, word as u32));
                word += 1;
            }
            proof {
                assert forall|k: int| 0 <= k < results@.len() implies (
                #[trigger] results@[k]).offsets == (0usize, 0usize) by {
                    if k < pre.len() {
                        assert(results@[k] == pre[k]);
                    }
                }
                assert(texts.take(i as int + 1).drop_last() =~= texts.take(i as int));
                assert(texts.take(i as int + 1).last() == texts[i as int]);
                assert(results@.map_values(|t: Token| (t.id as int, t.value@, t.word as int))
                    =~= spec_tokenize(m, texts.take(i as int + 1)));
            }
            i += 1;
        }
        proof {
            assert(texts.take(texts.len() as int) =~= texts);
        }
        results
    }

    /// A restartable, order-preserving iterator over `(token, score)` pairs.
    pub fn iter<'a>(&'a self) -> (r: UnigramIterator<'a>)
        ensures
            r.model == self,
            r.i == 0,
    {
        UnigramIterator { model: self, i: 0 }
    }
}

/// Walks the vocabulary of a model in id order, yielding each token with
/// its score.
pub struct UnigramIterator<'a> {
    pub model: &'a Unigram,
    pub i: usize,
}

impl<'a> UnigramIterator<'a> {
    /// The next `(token, score)` pair, or `None` once the vocabulary is
    /// exhausted.
    pub fn next(&mut self) -> (r: Option<(String, i64)>)
        requires
            old(self).model.wf(),
        ensures
            final(self).model == old(self).model,
            match r {
                Some(p) => old(self).i < old(self).model@.vocab.len() && p.0@ == old(
                    self,
                ).model@.vocab[old(self).i as int] && p.1 as int == old(self).model@.scores[old(
                    self,
                ).i as int] && final(self).i == old(self).i + 1,
                None => old(self).i >= old(self).model@.vocab.len() && final(self).i == old(
                    self,
                ).i,
            },
    {
        let i = self.i;
        if i < self.model.vocab.len() {
            proof {
                assert(self.model@.vocab[i as int] == self.model.vocab@[i as int]@);
                assert(self.model@.scores[i as int] == self.model.scores@[i as int] as int);
            }
            let r = Some((self.model.vocab[i].clone(), self.model.scores[i]));
            self.i = i + 1;
            r
        } else {
            None
        }
    }
}

impl Default for Unigram {
    /// A minimal ready model: the three boundary tokens with score 0.
    fn default() -> (r: Self)
        ensures
            r.wf(),
            r@.vocab == seq!["<bos>"@, "<eos>"@, "<unk>"@],
            r@.scores == seq![0int, 0int, 0int],
            r@.bos == 0,
            r@.eos == 1,
            r@.unk == 2,
    {
        proof {
            reveal_strlit("<bos>");
            reveal_strlit("<eos>");
            reveal_strlit("<unk>");
        }
        let mut pieces: Vec<(String, i64)> = Vec::new();
        pieces.push((String::from_str("<bos>"), 0));
        pieces.push((String::from_str("<eos>"), 0));
        pieces.push((String::from_str("<unk>"), 0));
        let r = Unigram::from(&pieces, 0, 1, 2);
        proof {
            assert(r@.vocab =~= seq!["<bos>"@, "<eos>"@, "<unk>"@]);
            assert(r@.scores =~= seq![0int, 0int, 0int]);
        }
        r
    }
}

} // verus!
