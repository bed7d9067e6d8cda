//! The mathematical model of a tokenizer: its merge rules and vocabulary,
//! and what training, encoding and decoding mean over them.

use crate::table::distinct_keys;
use crate::utils::{lemma_merged_len, merged, occurs, pair_count, pair_le};
use vstd::prelude::*;
use vstd::utf8::{decode_utf8, valid_utf8};

verus! {

/// Why a vocabulary size was refused.
#[derive(Clone, Copy, Debug, PartialEq, Eq)]
pub struct ConfigError {
    /// The size that was asked for; below the 256 base symbols.
    pub vocab_size: usize,
}

/// Why a sequence of ids could not be decoded.
#[derive(Clone, Copy, Debug, PartialEq, Eq)]
pub enum DecodeError {
    /// No ids were given.
    EmptyInput,
    /// Some id has no entry in the vocabulary.
    UnknownId,
    /// The expanded bytes are not well-formed UTF-8.
    InvalidEncoding,
}

/// The number of base symbols, one for each byte value.
pub const BASE_SYMBOLS: usize = 256;

/// A tokenizer's tables: the merge rules in the order of their creation,
/// each a pair with the id it produces, and the byte expansion of every id.
pub struct Model {
    pub rules: Seq<((usize, usize), usize)>,
    pub vocab: Seq<Seq<u8>>,
}

/// Each byte as a symbol id.
pub open spec fn widen(bytes: Seq<u8>) -> Seq<usize> {
    Seq::new(bytes.len(), |i: int| bytes[i] as usize)
}

/// The concatenated expansions of `ids`.
pub open spec fn expand(vocab: Seq<Seq<u8>>, ids: Seq<usize>) -> Seq<u8>
    decreases ids.len(),
{
    if ids.len() == 0 {
        Seq::empty()
    } else {
        vocab[ids[0] as int] + expand(vocab, ids.skip(1))
    }
}

/// Every id of `ids` is below `bound`.
pub open spec fn all_below(ids: Seq<usize>, bound: int) -> bool {
    forall|i: int| 0 <= i < ids.len() ==> #[trigger] ids[i] < bound
}

/// `p` occurs in `s` at least as often as any other pair, and is the lowest
/// pair among those that occur as often.
pub open spec fn is_top_pair(s: Seq<usize>, p: (usize, usize)) -> bool {
    &&& pair_count(s, p) > 0
    &&& forall|q: (usize, usize)|
        #[trigger] pair_count(s, q) < pair_count(s, p) || (pair_count(s, q) == pair_count(s, p)
            && pair_le(p, q))
}

/// The token sequence after the first `k` rules were applied to `start`, one
/// after the other.
pub open spec fn tokens_after(start: Seq<usize>, rules: Seq<((usize, usize), usize)>, k: nat) -> Seq<
    usize,
>
    decreases k,
{
    if k == 0 {
        start
    } else {
        merged(tokens_after(start, rules, (k - 1) as nat), rules[k - 1].0, rules[k - 1].1)
    }
}

/// `rules` is what training on `start` up to `vocab_size` symbols mints:
/// rule `k` produces id `256 + k` from the top pair of the sequence that the
/// rules before it left, and minting stops at the size limit or as soon as
/// fewer than two symbols are left.
pub open spec fn is_training_run(
    start: Seq<usize>,
    vocab_size: int,
    rules: Seq<((usize, usize), usize)>,
) -> bool {
    &&& BASE_SYMBOLS + rules.len() <= vocab_size
    &&& forall|k: int|
        0 <= k < rules.len() ==> (#[trigger] rules[k]).1 == BASE_SYMBOLS + k && is_top_pair(
            tokens_after(start, rules, k as nat),
            rules[k].0,
        )
    &&& BASE_SYMBOLS + rules.len() < vocab_size ==> tokens_after(start, rules, rules.len()).len()
        < 2
}

/// Rule `k` is the earliest rule whose pair occurs in `tokens`.
pub open spec fn is_first_rule(rules: Seq<((usize, usize), usize)>, tokens: Seq<usize>, k: int) -> bool {
    &&& 0 <= k < rules.len()
    &&& occurs(tokens, rules[k].0)
    &&& forall|j: int| 0 <= j < k ==> !occurs(tokens, (#[trigger] rules[j]).0)
}

/// `tokens` after applying, again and again, the earliest rule whose pair
/// occurs, until none does.
pub open spec fn encode_from(rules: Seq<((usize, usize), usize)>, tokens: Seq<usize>) -> Seq<usize>
    decreases tokens.len(),
{
    if exists|k: int| is_first_rule(rules, tokens, k) {
        let k = choose|k: int| is_first_rule(rules, tokens, k);
        let next = merged(tokens, rules[k].0, rules[k].1);
        if next.len() < tokens.len() {
            encode_from(rules, next)
        } else {
            tokens
        }
    } else {
        tokens
    }
}

impl Model {
    /// The tables are consistent: either both are empty (nothing was
    /// trained), or the vocabulary holds the 256 bytes followed by one entry
    /// per rule; rule `k` produces id `256 + k` from two earlier ids, and its
    /// expansion is the two expansions joined; no pair has two rules.
    pub open spec fn wf(self) -> bool {
        &&& self.vocab.len() == 0 ==> self.rules.len() == 0
        &&& self.vocab.len() > 0 ==> self.vocab.len() == BASE_SYMBOLS + self.rules.len()
        &&& forall|b: int|
            0 <= b < BASE_SYMBOLS && b < self.vocab.len() ==> #[trigger] self.vocab[b] == seq![
                b as u8,
            ]
        &&& forall|k: int|
            0 <= k < self.rules.len() ==> {
                &&& (#[trigger] self.rules[k]).1 == BASE_SYMBOLS + k
                &&& self.rules[k].0.0 < BASE_SYMBOLS + k
                &&& self.rules[k].0.1 < BASE_SYMBOLS + k
                &&& self.vocab[BASE_SYMBOLS + k] == self.vocab[self.rules[k].0.0 as int]
                    + self.vocab[self.rules[k].0.1 as int]
            }
        &&& distinct_keys(self.rules)
    }

    /// The base symbols are in the vocabulary.
    pub open spec fn is_trained(self) -> bool {
        self.vocab.len() >= BASE_SYMBOLS
    }

    /// The tables are those that training on `corpus` with `vocab_size`
    /// yields.
    pub open spec fn is_trained_on(self, corpus: Seq<u8>, vocab_size: int) -> bool {
        &&& self.wf()
        &&& self.is_trained()
        &&& is_training_run(widen(corpus), vocab_size, self.rules)
    }

    /// The token ids of `text`.
    pub open spec fn encoded(self, text: Seq<u8>) -> Seq<usize> {
        encode_from(self.rules, widen(text))
    }

    /// What decoding `ids` yields: the text, or the first reason that
    /// applies for having none.
    pub open spec fn decoded(self, ids: Seq<usize>) -> Result<Seq<char>, DecodeError> {
        if ids.len() == 0 {
            Err(DecodeError::EmptyInput)
        } else if !all_below(ids, self.vocab.len() as int) {
            Err(DecodeError::UnknownId)
        } else if !valid_utf8(expand(self.vocab, ids)) {
            Err(DecodeError::InvalidEncoding)
        } else {
            Ok(decode_utf8(expand(self.vocab, ids)))
        }
    }
}

/// Expanding a sequence that ends in `id` appends the expansion of `id`.
pub proof fn lemma_expand_push(vocab: Seq<Seq<u8>>, ids: Seq<usize>, id: usize)
    ensures
        expand(vocab, ids.push(id)) == expand(vocab, ids) + vocab[id as int],
    decreases ids.len(),
{
    if ids.len() == 0 {
        assert(ids.push(id).skip(1) =~= Seq::<usize>::empty());
        assert(expand(vocab, ids.push(id).skip(1)) =~= Seq::<u8>::empty());
        assert(expand(vocab, ids.push(id)) =~= vocab[id as int]);
    } else {
        lemma_expand_push(vocab, ids.skip(1), id);
        assert(ids.push(id).skip(1) =~= ids.skip(1).push(id));
        assert(expand(vocab, ids.push(id)) =~= expand(vocab, ids) + vocab[id as int]);
    }
}


/// The token sequence after `k` rules depends on the first `k` rules only.
pub proof fn lemma_tokens_after_prefix(
    start: Seq<usize>,
    r1: Seq<((usize, usize), usize)>,
    r2: Seq<((usize, usize), usize)>,
    k: nat,
)
    requires
        k <= r1.len(),
        k <= r2.len(),
        forall|j: int| 0 <= j < k ==> r1[j] == r2[j],
    ensures
        tokens_after(start, r1, k) == tokens_after(start, r2, k),
    decreases k,
{
    if k > 0 {
        lemma_tokens_after_prefix(start, r1, r2, (k - 1) as nat);
    }
}

/// Applying the earliest rule that fits shortens the sequence and leaves its
/// final encoding unchanged.
pub proof fn lemma_first_rule_step(rules: Seq<((usize, usize), usize)>, tokens: Seq<usize>, k: int)
    requires
        is_first_rule(rules, tokens, k),
    ensures
        merged(tokens, rules[k].0, rules[k].1).len() < tokens.len(),
        encode_from(rules, tokens) == encode_from(rules, merged(tokens, rules[k].0, rules[k].1)),
{
    let c = choose|c: int| is_first_rule(rules, tokens, c);
    assert(c == k) by {
        if c < k {
            assert(!occurs(tokens, rules[c].0));
        }
        if k < c {
            assert(!occurs(tokens, rules[k].0));
        }
    }
    lemma_merged_len(tokens, rules[k].0, rules[k].1);
}

} // verus!
