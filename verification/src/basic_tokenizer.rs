//! The byte-level tokenizer: training, encoding and decoding.

use crate::model::{
    all_below, encode_from, expand, is_first_rule, is_top_pair, lemma_expand_push,
    lemma_first_rule_step, lemma_tokens_after_prefix, tokens_after, widen, ConfigError,
    DecodeError, Model, BASE_SYMBOLS,
};
use crate::table::{
    has_key, key_index, lemma_put_distinct, table_entries, table_get, table_get_index,
    table_insert, table_len, table_new,
};
use crate::utils::{
    count_common_encoded_tuples, lemma_merged_pairs, lemma_merged_symbols,
    lemma_pair_count_occurs, merge, merged, most_frequent_pair, occurs, pair_count, pair_le,
};
use indexmap::IndexMap;
use vstd::prelude::*;
use vstd::utf8::{decode_utf8, encode_utf8, valid_utf8};

verus! {

/// A byte-pair-encoding tokenizer over raw bytes.
pub struct BasicTokenizer {
    mints: IndexMap<(usize, usize), usize>,
    vocab: Vec<Vec<u8>>,
}

/// The expansions held in `vocab`, as sequences.
pub open spec fn vocab_view(vocab: Seq<Vec<u8>>) -> Seq<Seq<u8>> {
    Seq::new(vocab.len(), |i: int| vocab[i]@)
}

impl View for BasicTokenizer {
    type V = Model;

    closed spec fn view(&self) -> Model {
        Model { rules: table_entries(self.mints), vocab: vocab_view(self.vocab@) }
    }
}

/// `std::string::FromUtf8Error`, opaque to the verifier.
#[verifier::external_type_specification]
#[verifier::external_body]
pub struct ExFromUtf8Error(std::string::FromUtf8Error);

/// `String::from_utf8`: the text that `bytes` encode, or an error where they
/// are not well-formed UTF-8.
#[verifier::external_body]
fn text_from_utf8(bytes: Vec<u8>) -> (r: Result<String, std::string::FromUtf8Error>)
    ensures
        match r {
            Ok(s) => valid_utf8(bytes@) && s@ == decode_utf8(bytes@),
            Err(_) => !valid_utf8(bytes@),
        },
{
    String::from_utf8(bytes)
}

/// Appends a copy of `src` to `out`.
fn append_bytes(out: &mut Vec<u8>, src: &Vec<u8>)
    ensures
        final(out)@ == old(out)@ + src@,
{
    let mut i: usize = 0;
    while i < src.len()
        invariant
            i <= src.len(),
            out@ == old(out)@ + src@.take(i as int),
        decreases src.len() - i,
    {
        out.push(src[i]);
        proof {
            assert(src@.take(i + 1) =~= src@.take(i as int).push(src@[i as int]));
        }
        i += 1;
    }
    proof {
        assert(src@.take(src.len() as int) =~= src@);
    }
}

/// Each byte of `bytes` as a symbol id.
fn widen_bytes(bytes: &[u8]) -> (ids: Vec<usize>)
    ensures
        ids@ == widen(bytes@),
{
    let mut ids: Vec<usize> = Vec::new();
    let mut i: usize = 0;
    while i < bytes.len()
        invariant
            i <= bytes.len(),
            ids@ == widen(bytes@.take(i as int)),
        decreases bytes.len() - i,
    {
        ids.push(bytes[i] as usize);
        proof {
            assert(ids@ =~= widen(bytes@.take(i + 1)));
        }
        i += 1;
    }
    proof {
        assert(bytes@.take(bytes.len() as int) =~= bytes@);
    }
    ids
}

/// The expansions of the 256 base symbols: each byte by itself.
fn base_vocab() -> (vocab: Vec<Vec<u8>>)
    ensures
        vocab.len() == BASE_SYMBOLS,
        forall|b: int| 0 <= b < BASE_SYMBOLS ==> (#[trigger] vocab[b])@ == seq![b as u8],
{
    let mut vocab: Vec<Vec<u8>> = Vec::new();
    let mut b: usize = 0;
    while b < BASE_SYMBOLS
        invariant
            b <= BASE_SYMBOLS,
            vocab.len() == b,
            forall|j: int| 0 <= j < b ==> (#[trigger] vocab[j])@ == seq![j as u8],
        decreases BASE_SYMBOLS - b,
    {
        let mut one: Vec<u8> = Vec::new();
        one.push(b as u8);
        vocab.push(one);
        b += 1;
    }
    vocab
}

/// Mints `idx` for `pair`: records the rule after those already there,
/// stores the joined expansion of the pair as the expansion of `idx`, and
/// merges the pair throughout `ids`.
fn mint_token(
    mints: &mut IndexMap<(usize, usize), usize>,
    vocab: &mut Vec<Vec<u8>>,
    pair: (usize, usize),
    ids: Vec<usize>,
    idx: usize,
) -> (merged_ids: Vec<usize>)
    requires
        (Model { rules: table_entries(*old(mints)), vocab: vocab_view(old(vocab)@) }).wf(),
        old(vocab).len() == idx,
        idx >= BASE_SYMBOLS,
        pair.0 < idx,
        pair.1 < idx,
        !has_key(table_entries(*old(mints)), pair),
    ensures
        table_entries(*final(mints)) == table_entries(*old(mints)).push((pair, idx)),
        vocab_view(final(vocab)@) == vocab_view(old(vocab)@).push(
            vocab_view(old(vocab)@)[pair.0 as int] + vocab_view(old(vocab)@)[pair.1 as int],
        ),
        merged_ids@ == merged(ids@, pair, idx),
        (Model { rules: table_entries(*final(mints)), vocab: vocab_view(final(vocab)@) }).wf(),
{
    let ghost rules = table_entries(*mints);
    let ghost old_vocab = vocab_view(vocab@);
    let mut expansion: Vec<u8> = Vec::new();
    append_bytes(&mut expansion, &vocab[pair.0]);
    append_bytes(&mut expansion, &vocab[pair.1]);
    table_insert(mints, pair, idx);
    vocab.push(expansion);
    proof {
        let new_rules = table_entries(*mints);
        let new_vocab = vocab_view(vocab@);
        lemma_put_distinct(rules, pair, idx);
        assert(new_vocab =~= old_vocab.push(old_vocab[pair.0 as int] + old_vocab[pair.1 as int]));
        assert forall|k: int| 0 <= k < new_rules.len() implies {
            &&& (#[trigger] new_rules[k]).1 == BASE_SYMBOLS + k
            &&& new_rules[k].0.0 < BASE_SYMBOLS + k
            &&& new_rules[k].0.1 < BASE_SYMBOLS + k
            &&& new_vocab[BASE_SYMBOLS + k] == new_vocab[new_rules[k].0.0 as int]
                + new_vocab[new_rules[k].0.1 as int]
        } by {
            if k < rules.len() {
                assert(new_rules[k] == rules[k]);
            }
        }
    }
    merge(pair, ids, idx)
}

/// The earliest rule whose pair stands in `tokens`, if there is one.
fn next_rule(mints: &IndexMap<(usize, usize), usize>, tokens: &Vec<usize>) -> (r: Option<
    ((usize, usize), usize),
>)
    ensures
        match r {
            Some(rule) => exists|k: int|
                is_first_rule(table_entries(*mints), tokens@, k) && table_entries(*mints)[k]
                    == rule,
            None => forall|k: int| !is_first_rule(table_entries(*mints), tokens@, k),
        },
{
    let counts = count_common_encoded_tuples(tokens.clone());
    let ghost e = table_entries(*mints);
    let n = table_len(mints);
    let mut k: usize = 0;
    while k < n
        invariant
            e == table_entries(*mints),
            n == e.len(),
            k <= n,
            forall|j: int| 0 <= j < k ==> !occurs(tokens@, (#[trigger] e[j]).0),
            forall|p: (usize, usize)|
                has_key(table_entries(counts), p) <==> pair_count(tokens@, p) > 0,
        decreases n - k,
    {
        match table_get_index(mints, k) {
            Some((p, id)) => {
                proof {
                    lemma_pair_count_occurs(tokens@, p);
                }
                if table_get(&counts, p).is_some() {
                    proof {
                        assert(is_first_rule(e, tokens@, k as int));
                    }
                    return Some((p, id));
                }
            },
            None => {},
        }
        k += 1;
    }
    proof {
        assert forall|c: int| !is_first_rule(e, tokens@, c) by {
            if 0 <= c < e.len() {
                assert(!occurs(tokens@, e[c].0));
            }
        }
    }
    None
}

impl BasicTokenizer {
    #[verifier::type_invariant]
    spec fn inv(self) -> bool {
        self@.wf()
    }

    /// A tokenizer that has learned nothing yet: no rules, no vocabulary.
    pub fn new() -> (t: BasicTokenizer)
        ensures
            t@.wf(),
            t@.rules.len() == 0,
            t@.vocab.len() == 0,
    {
        let mints = table_new();
        let vocab: Vec<Vec<u8>> = Vec::new();
        BasicTokenizer { mints, vocab }
    }

    /// The merge rules in the order of their creation, each a pair with the
    /// id it produces.
    pub fn merges(&self) -> (rules: Vec<((usize, usize), usize)>)
        ensures
            self@.wf(),
            rules@ == self@.rules,
    {
        proof {
            use_type_invariant(self);
        }
        let n = table_len(&self.mints);
        let mut rules: Vec<((usize, usize), usize)> = Vec::new();
        let mut k: usize = 0;
        while k < n
            invariant
                n == table_entries(self.mints).len(),
                k <= n,
                rules@ == table_entries(self.mints).take(k as int),
            decreases n - k,
        {
            match table_get_index(&self.mints, k) {
                Some(rule) => {
                    rules.push(rule);
                    proof {
                        assert(rules@ =~= table_entries(self.mints).take(k + 1));
                    }
                },
                None => {},
            }
            k += 1;
        }
        proof {
            assert(table_entries(self.mints).take(n as int) =~= table_entries(self.mints));
        }
        rules
    }

    /// The bytes that `id` expands to, or `None` for an id without a
    /// vocabulary entry.
    pub fn expansion(&self, id: usize) -> (r: Option<Vec<u8>>)
        ensures
            self@.wf(),
            match r {
                Some(bytes) => id < self@.vocab.len() && bytes@ == self@.vocab[id as int],
                None => id >= self@.vocab.len(),
            },
    {
        proof {
            use_type_invariant(self);
        }
        if id < self.vocab.len() {
            let mut bytes: Vec<u8> = Vec::new();
            append_bytes(&mut bytes, &self.vocab[id]);
            Some(bytes)
        } else {
            None
        }
    }

    /// Learns merge rules from `text`, replacing what was learned before.
    /// Each round mints the next id for the most frequent adjacent pair (the
    /// lowest pair among equally frequent ones) and merges it everywhere;
    /// rounds end at `vocab_size` symbols or when fewer than two symbols are
    /// left. A `vocab_size` below 256 is refused and changes nothing.
    pub fn train(&mut self, text: &str, vocab_size: usize) -> (r: Result<(), ConfigError>)
        ensures
            final(self)@.wf(),
            vocab_size < BASE_SYMBOLS ==> r == Err::<(), ConfigError>(ConfigError { vocab_size })
                && final(self)@ == old(self)@,
            vocab_size >= BASE_SYMBOLS ==> r is Ok && final(self)@.is_trained_on(
                encode_utf8(text@),
                vocab_size as int,
            ),
    {
        proof {
            use_type_invariant(&*self);
        }
        if vocab_size < BASE_SYMBOLS {
            return Err(ConfigError { vocab_size });
        }
        let mut tokens = widen_bytes(text.as_bytes());
        let ghost start = tokens@;
        let mut vocab = base_vocab();
        let mut mints = table_new();
        let mut next_id: usize = BASE_SYMBOLS;
        let mut collapsed = false;
        while next_id < vocab_size && !collapsed
            invariant
                BASE_SYMBOLS <= next_id <= vocab_size,
                vocab.len() == next_id,
                (Model { rules: table_entries(mints), vocab: vocab_view(vocab@) }).wf(),
                tokens@ == tokens_after(
                    start,
                    table_entries(mints),
                    table_entries(mints).len(),
                ),
                all_below(tokens@, next_id as int),
                forall|k: int|
                    0 <= k < table_entries(mints).len() ==> !occurs(
                        tokens@,
                        (#[trigger] table_entries(mints)[k]).0,
                    ),
                forall|k: int|
                    0 <= k < table_entries(mints).len() ==> is_top_pair(
                        tokens_after(start, table_entries(mints), k as nat),
                        (#[trigger] table_entries(mints)[k]).0,
                    ),
                collapsed ==> tokens@.len() < 2,
            decreases (vocab_size - next_id) + (if collapsed { 0int } else { 1int }),
        {
            let counts = count_common_encoded_tuples(tokens.clone());
            let ghost e = table_entries(counts);
            let ghost rules = table_entries(mints);
            let ghost before = tokens@;
            match most_frequent_pair(&counts) {
                None => {
                    proof {
                        if before.len() >= 2 {
                            assert(has_key(e, (before[0], before[1])));
                        }
                    }
                    collapsed = true;
                },
                Some((pair, c)) => {
                    proof {
                        let j = choose|j: int| 0 <= j < e.len() && #[trigger] e[j] == (pair, c);
                        assert(e[j].1 == pair_count(before, e[j].0));
                        assert forall|q: (usize, usize)| #[trigger]
                            pair_count(before, q) < pair_count(before, pair) || (pair_count(
                                before,
                                q,
                            ) == pair_count(before, pair) && pair_le(
                                pair,
                                q,
                            )) by {
                            if pair_count(before, q) > 0 {
                                assert(has_key(e, q));
                                let i = key_index(e, q);
                                assert(e[i].1 == pair_count(before, e[i].0));
                            }
                        }
                        assert(is_top_pair(before, pair));
                        lemma_pair_count_occurs(before, pair);
                        let at = choose|i: int|
                            0 <= i < before.len() - 1 && #[trigger] before[i] == pair.0 && before[i
                                + 1] == pair.1;
                        assert(before[at] < next_id && before[at + 1] < next_id);
                        if has_key(rules, pair) {
                            let n = key_index(rules, pair);
                            assert(!occurs(before, rules[n].0));
                        }
                    }
                    tokens = mint_token(&mut mints, &mut vocab, pair, tokens, next_id);
                    next_id += 1;
                    proof {
                        let new_rules = table_entries(mints);
                        lemma_tokens_after_prefix(start, new_rules, rules, rules.len());
                        assert(tokens_after(start, new_rules, rules.len()) == before);
                        assert(new_rules[rules.len() as int] == (pair, (next_id - 1) as usize));
                        assert(tokens@ == tokens_after(start, new_rules, new_rules.len()));
                        lemma_merged_symbols(before, pair, (next_id - 1) as usize);
                        assert forall|k: int| 0 <= k < new_rules.len() implies !occurs(
                            tokens@,
                            (#[trigger] new_rules[k]).0,
                        ) by {
                            if occurs(tokens@, new_rules[k].0) {
                                if k < rules.len() {
                                    assert(new_rules[k] == rules[k]);
                                }
                                lemma_merged_pairs(
                                    before,
                                    pair,
                                    (next_id - 1) as usize,
                                    new_rules[k].0,
                                );
                                if k < rules.len() {
                                    assert(!occurs(before, rules[k].0));
                                }
                            }
                        }
                        assert forall|k: int| 0 <= k < new_rules.len() implies is_top_pair(
                            tokens_after(start, new_rules, k as nat),
                            (#[trigger] new_rules[k]).0,
                        ) by {
                            lemma_tokens_after_prefix(start, new_rules, rules, k as nat);
                            if k < rules.len() {
                                assert(new_rules[k] == rules[k]);
                            }
                        }
                    }
                },
            }
        }
        *self = BasicTokenizer { mints, vocab };
        Ok(())
    }

    /// Encodes `text`: starting from its bytes, applies the earliest rule
    /// whose pair occurs, over the whole sequence, until no rule fits.
    pub fn encoder(&self, text: &str) -> (tokens: Vec<usize>)
        ensures
            self@.wf(),
            tokens@ == self@.encoded(encode_utf8(text@)),
    {
        proof {
            use_type_invariant(self);
        }
        let mut tokens = widen_bytes(text.as_bytes());
        let ghost start = tokens@;
        let ghost rules = table_entries(self.mints);
        let mut fixed = false;
        while !fixed
            invariant
                rules == table_entries(self.mints),
                encode_from(rules, tokens@) == encode_from(rules, start),
                fixed ==> encode_from(rules, tokens@) == tokens@,
            decreases tokens.len() + (if fixed { 0int } else { 1int }),
        {
            match next_rule(&self.mints, &tokens) {
                Some((p, id)) => {
                    proof {
                        let k = choose|k: int|
                            is_first_rule(rules, tokens@, k) && rules[k] == (p, id);
                        lemma_first_rule_step(rules, tokens@, k);
                    }
                    tokens = merge(p, tokens, id);
                },
                None => {
                    fixed = true;
                },
            }
        }
        tokens
    }

    /// Expands `ids` to bytes and reads them as UTF-8 text. Fails on an
    /// empty `ids`, on an id without a vocabulary entry, and on bytes that
    /// are not well-formed UTF-8, in this order.
    pub fn decoder(&self, ids: Vec<usize>) -> (r: Result<String, DecodeError>)
        ensures
            self@.wf(),
            match r {
                Ok(s) => self@.decoded(ids@) == Ok::<Seq<char>, DecodeError>(s@),
                Err(e) => self@.decoded(ids@) == Err::<Seq<char>, DecodeError>(e),
            },
    {
        proof {
            use_type_invariant(self);
        }
        if ids.len() == 0 {
            return Err(DecodeError::EmptyInput);
        }
        let ghost vocab = vocab_view(self.vocab@);
        let mut bytes: Vec<u8> = Vec::new();
        let mut i: usize = 0;
        while i < ids.len()
            invariant
                i <= ids.len(),
                self@.wf(),
                vocab == vocab_view(self.vocab@),
                all_below(ids@.take(i as int), vocab.len() as int),
                bytes@ == expand(vocab, ids@.take(i as int)),
            decreases ids.len() - i,
        {
            let id = ids[i];
            if id >= self.vocab.len() {
                proof {
                    assert(ids@[i as int] >= vocab.len());
                }
                return Err(DecodeError::UnknownId);
            }
            proof {
                lemma_expand_push(vocab, ids@.take(i as int), id);
                assert(ids@.take(i + 1) =~= ids@.take(i as int).push(id));
            }
            append_bytes(&mut bytes, &self.vocab[id]);
            i += 1;
        }
        proof {
            assert(ids@.take(ids.len() as int) =~= ids@);
        }
        match text_from_utf8(bytes) {
            Ok(s) => Ok(s),
            Err(_) => Err(DecodeError::InvalidEncoding),
        }
    }
}

} // verus!
