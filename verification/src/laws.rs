//! What holds of every well-formed model: round trips, the order of rule
//! ids, and that training has one outcome.

use crate::model::{
    all_below, encode_from, expand, is_first_rule, is_top_pair, is_training_run, tokens_after,
    widen, Model, BASE_SYMBOLS,
};
use crate::utils::{lemma_merged_len, lemma_merged_symbols, merged, pair_count};
use vstd::prelude::*;
use vstd::utf8::{decode_utf8, encode_utf8, encode_utf8_decode_utf8, encode_utf8_valid_utf8};

verus! {

/// Expanding a sequence expands its first symbol, then the rest.
pub proof fn lemma_expand_cons(vocab: Seq<Seq<u8>>, x: usize, rest: Seq<usize>)
    ensures
        expand(vocab, seq![x] + rest) == vocab[x as int] + expand(vocab, rest),
{
    assert((seq![x] + rest).skip(1) =~= rest);
}

/// Replacing a pair by an id that expands to the pair's joined expansions
/// leaves the expansion of the whole sequence unchanged.
pub proof fn lemma_expand_merged(vocab: Seq<Seq<u8>>, s: Seq<usize>, p: (usize, usize), id: usize)
    requires
        vocab[id as int] == vocab[p.0 as int] + vocab[p.1 as int],
    ensures
        expand(vocab, merged(s, p, id)) == expand(vocab, s),
    decreases s.len(),
{
    if s.len() == 0 {
    } else if s.len() >= 2 && s[0] == p.0 && s[1] == p.1 {
        let t = s.skip(2);
        lemma_expand_merged(vocab, t, p, id);
        lemma_expand_cons(vocab, id, merged(t, p, id));
        assert(s.skip(1).skip(1) =~= t);
        assert(expand(vocab, s.skip(1)) == vocab[p.1 as int] + expand(vocab, t));
        assert(expand(vocab, s) =~= vocab[id as int] + expand(vocab, t));
    } else {
        let t = s.skip(1);
        lemma_expand_merged(vocab, t, p, id);
        lemma_expand_cons(vocab, s[0], merged(t, p, id));
    }
}

/// Over the base symbols, a byte sequence expands to itself.
pub proof fn lemma_expand_widen(m: Model, bytes: Seq<u8>)
    requires
        m.wf(),
        m.is_trained(),
    ensures
        expand(m.vocab, widen(bytes)) == bytes,
        all_below(widen(bytes), m.vocab.len() as int),
    decreases bytes.len(),
{
    if bytes.len() > 0 {
        lemma_expand_widen(m, bytes.skip(1));
        assert(widen(bytes).skip(1) =~= widen(bytes.skip(1)));
        let b = bytes[0] as int;
        assert(m.vocab[b] == seq![b as u8]);
        assert(expand(m.vocab, widen(bytes)) =~= bytes);
    } else {
        assert(expand(m.vocab, widen(bytes)) =~= bytes);
    }
}

/// Encoding keeps the ids known, the expansion unchanged, and a non-empty
/// sequence non-empty.
pub proof fn lemma_encode_from_sound(m: Model, tokens: Seq<usize>)
    requires
        m.wf(),
        all_below(tokens, m.vocab.len() as int),
    ensures
        all_below(encode_from(m.rules, tokens), m.vocab.len() as int),
        expand(m.vocab, encode_from(m.rules, tokens)) == expand(m.vocab, tokens),
        tokens.len() > 0 ==> encode_from(m.rules, tokens).len() > 0,
    decreases tokens.len(),
{
    if exists|k: int| is_first_rule(m.rules, tokens, k) {
        let k = choose|k: int| is_first_rule(m.rules, tokens, k);
        let rule = m.rules[k];
        let next = merged(tokens, rule.0, rule.1);
        if next.len() < tokens.len() {
            lemma_merged_symbols(tokens, rule.0, rule.1);
            lemma_merged_len(tokens, rule.0, rule.1);
            assert forall|i: int| 0 <= i < next.len() implies #[trigger] next[i]
                < m.vocab.len() by {
                if next[i] != rule.1 {
                    let j = choose|j: int| 0 <= j < tokens.len() && tokens[j] == next[i];
                    assert(tokens[j] < m.vocab.len());
                }
            }
            lemma_expand_merged(m.vocab, tokens, rule.0, rule.1);
            lemma_encode_from_sound(m, next);
        }
    }
}

/// Round trip: on a trained model, decoding the encoding of a non-empty text
/// gives the text back.
pub proof fn law_round_trip(m: Model, text: Seq<char>)
    requires
        m.wf(),
        m.is_trained(),
        text.len() > 0,
    ensures
        m.decoded(m.encoded(encode_utf8(text))) == Ok::<Seq<char>, crate::model::DecodeError>(text),
{
    let bytes = encode_utf8(text);
    encode_utf8_valid_utf8(text);
    encode_utf8_decode_utf8(text);
    assert(bytes.len() > 0) by {
        if bytes.len() == 0 {
            assert(decode_utf8(bytes) =~= Seq::<char>::empty());
        }
    }
    lemma_expand_widen(m, bytes);
    lemma_encode_from_sound(m, widen(bytes));
}

/// Round trip on the training data: a model trained on a non-empty text
/// encodes that text to ids that decode to it again.
pub proof fn law_round_trip_on_corpus(m: Model, corpus: Seq<char>, vocab_size: int)
    requires
        m.is_trained_on(encode_utf8(corpus), vocab_size),
        corpus.len() > 0,
    ensures
        m.decoded(m.encoded(encode_utf8(corpus))) == Ok::<Seq<char>, crate::model::DecodeError>(
            corpus,
        ),
{
    law_round_trip(m, corpus);
}

/// Rule ids grow strictly with the order of creation, and each rule's id is
/// above both ids of its pair.
pub proof fn law_rule_ids_increase(m: Model)
    requires
        m.wf(),
    ensures
        forall|j: int, k: int|
            0 <= j < k < m.rules.len() ==> (#[trigger] m.rules[j]).1 < (#[trigger] m.rules[k]).1,
        forall|k: int|
            0 <= k < m.rules.len() ==> (#[trigger] m.rules[k]).0.0 < m.rules[k].1
                && m.rules[k].0.1 < m.rules[k].1,
{
}

/// Training mints at most `vocab_size - 256` rules, and the vocabulary holds
/// the base symbols and one entry per rule.
pub proof fn law_rule_count_bounded(m: Model, corpus: Seq<u8>, vocab_size: int)
    requires
        m.is_trained_on(corpus, vocab_size),
    ensures
        m.rules.len() <= vocab_size - BASE_SYMBOLS,
        m.vocab.len() == BASE_SYMBOLS + m.rules.len(),
{
}

/// Training on a corpus of fewer than two bytes, or with room for the base
/// symbols only, mints no rule.
pub proof fn law_nothing_to_mint(m: Model, corpus: Seq<u8>, vocab_size: int)
    requires
        m.is_trained_on(corpus, vocab_size),
        corpus.len() < 2 || vocab_size == BASE_SYMBOLS,
    ensures
        m.rules.len() == 0,
        m.vocab.len() == BASE_SYMBOLS,
{
    if m.rules.len() > 0 {
        assert(is_top_pair(tokens_after(widen(corpus), m.rules, 0), m.rules[0].0));
        assert(pair_count(widen(corpus), m.rules[0].0) > 0);
    }
}

/// At most one pair is the top pair of a sequence.
pub proof fn lemma_top_pair_unique(s: Seq<usize>, p: (usize, usize), q: (usize, usize))
    requires
        is_top_pair(s, p),
        is_top_pair(s, q),
    ensures
        p == q,
{
}

/// Two training runs from one start agree on their first `k` rules.
pub proof fn lemma_runs_agree(
    start: Seq<usize>,
    vocab_size: int,
    r1: Seq<((usize, usize), usize)>,
    r2: Seq<((usize, usize), usize)>,
    k: nat,
)
    requires
        is_training_run(start, vocab_size, r1),
        is_training_run(start, vocab_size, r2),
        k <= r1.len(),
        k <= r2.len(),
    ensures
        forall|j: int| 0 <= j < k ==> r1[j] == r2[j],
        tokens_after(start, r1, k) == tokens_after(start, r2, k),
    decreases k,
{
    if k > 0 {
        lemma_runs_agree(start, vocab_size, r1, r2, (k - 1) as nat);
        let t = tokens_after(start, r1, (k - 1) as nat);
        assert(is_top_pair(t, r1[k - 1].0));
        assert(is_top_pair(t, r2[k - 1].0));
        lemma_top_pair_unique(t, r1[k - 1].0, r2[k - 1].0);
        assert(r1[k - 1].1 == r2[k - 1].1);
    }
}

/// Training has one outcome: two models trained on the same corpus with the
/// same vocabulary size have the same rules and the same vocabulary.
pub proof fn law_training_deterministic(m1: Model, m2: Model, corpus: Seq<u8>, vocab_size: int)
    requires
        m1.is_trained_on(corpus, vocab_size),
        m2.is_trained_on(corpus, vocab_size),
    ensures
        m1 == m2,
{
    let start = widen(corpus);
    let n1 = m1.rules.len();
    let n2 = m2.rules.len();
    let n = if n1 <= n2 { n1 } else { n2 };
    lemma_runs_agree(start, vocab_size, m1.rules, m2.rules, n);
    if n1 < n2 {
        assert(is_top_pair(tokens_after(start, m2.rules, n1), m2.rules[n1 as int].0));
        lemma_top_pair_len(tokens_after(start, m2.rules, n1), m2.rules[n1 as int].0);
    }
    if n2 < n1 {
        assert(is_top_pair(tokens_after(start, m1.rules, n2), m1.rules[n2 as int].0));
        lemma_top_pair_len(tokens_after(start, m1.rules, n2), m1.rules[n2 as int].0);
    }
    assert(m1.rules =~= m2.rules);
    lemma_vocab_determined(m1, m2, m1.vocab.len());
    assert(m1.vocab =~= m2.vocab);
}

/// A sequence with a top pair has at least two symbols.
pub proof fn lemma_top_pair_len(s: Seq<usize>, p: (usize, usize))
    requires
        is_top_pair(s, p),
    ensures
        s.len() >= 2,
{
}

/// Two trained models with the same rules agree on the first `n` vocabulary
/// entries.
pub proof fn lemma_vocab_determined(m1: Model, m2: Model, n: nat)
    requires
        m1.wf(),
        m2.wf(),
        m1.is_trained(),
        m2.is_trained(),
        m1.rules == m2.rules,
        n <= m1.vocab.len(),
    ensures
        forall|i: int| 0 <= i < n ==> m1.vocab[i] == m2.vocab[i],
    decreases n,
{
    if n > 0 {
        lemma_vocab_determined(m1, m2, (n - 1) as nat);
        let i = n - 1;
        if i < BASE_SYMBOLS {
            assert(m1.vocab[i] == seq![i as u8]);
            assert(m2.vocab[i] == seq![i as u8]);
        } else {
            let k = i - BASE_SYMBOLS;
            let rule = m1.rules[k];
            assert(m1.vocab[BASE_SYMBOLS + k] == m1.vocab[rule.0.0 as int] + m1.vocab[rule.0.1 as int]);
            assert(m2.rules[k] == rule);
            assert(m2.vocab[BASE_SYMBOLS + k] == m2.vocab[rule.0.0 as int] + m2.vocab[rule.0.1 as int]);
        }
    }
}

} // verus!
