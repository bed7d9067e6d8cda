//! Pair counting, merging and token rendering.

use crate::table::{
    distinct_keys, has_key, key_index, lemma_put_distinct, put, table_entries, table_get,
    table_get_index, table_insert, table_len, table_new, value_of,
};
use indexmap::IndexMap;
use vstd::prelude::*;
use vstd::string::StrSliceExecFns;
use vstd::utf8::{decode_utf8, valid_utf8};

verus! {

/// The number of positions at which the adjacent pair `p` stands in `s`.
pub open spec fn pair_count(s: Seq<usize>, p: (usize, usize)) -> nat
    decreases s.len(),
{
    if s.len() < 2 {
        0
    } else {
        pair_count(s.skip(1), p) + if s[0] == p.0 && s[1] == p.1 {
            1nat
        } else {
            0nat
        }
    }
}

/// The pair `p` stands somewhere in `s`.
pub open spec fn occurs(s: Seq<usize>, p: (usize, usize)) -> bool {
    exists|i: int| 0 <= i < s.len() - 1 && #[trigger] s[i] == p.0 && s[i + 1] == p.1
}

/// `s` with every occurrence of `p` replaced by `id`, found greedily from the
/// left and never overlapping.
pub open spec fn merged(s: Seq<usize>, p: (usize, usize), id: usize) -> Seq<usize>
    decreases s.len(),
{
    if s.len() == 0 {
        s
    } else if s.len() >= 2 && s[0] == p.0 && s[1] == p.1 {
        seq![id] + merged(s.skip(2), p, id)
    } else {
        seq![s[0]] + merged(s.skip(1), p, id)
    }
}

/// Lexicographic order on pairs.
pub open spec fn pair_le(p: (usize, usize), q: (usize, usize)) -> bool {
    p.0 < q.0 || (p.0 == q.0 && p.1 <= q.1)
}

/// A pair is counted at most once per position.
pub proof fn lemma_pair_count_bound(s: Seq<usize>, p: (usize, usize))
    ensures
        pair_count(s, p) <= s.len(),
        s.len() > 0 ==> pair_count(s, p) < s.len(),
    decreases s.len(),
{
    if s.len() >= 2 {
        lemma_pair_count_bound(s.skip(1), p);
    }
}

/// A pair has a positive count exactly when it occurs.
pub proof fn lemma_pair_count_occurs(s: Seq<usize>, p: (usize, usize))
    ensures
        pair_count(s, p) > 0 <==> occurs(s, p),
    decreases s.len(),
{
    if s.len() >= 2 {
        let t = s.skip(1);
        lemma_pair_count_occurs(t, p);
        if occurs(t, p) {
            let i = choose|i: int| 0 <= i < t.len() - 1 && #[trigger] t[i] == p.0 && t[i + 1] == p.1;
            assert(s[i + 1] == p.0 && s[i + 2] == p.1);
        }
        if occurs(s, p) {
            let i = choose|i: int| 0 <= i < s.len() - 1 && #[trigger] s[i] == p.0 && s[i + 1] == p.1;
            if i > 0 {
                assert(t[i - 1] == p.0 && t[i] == p.1);
            }
        }
    }
}

/// Merging never lengthens a sequence, shortens it where the pair occurs,
/// and starts the result with the new id or with the old first symbol.
pub proof fn lemma_merged_len(s: Seq<usize>, p: (usize, usize), id: usize)
    ensures
        merged(s, p, id).len() <= s.len(),
        occurs(s, p) ==> merged(s, p, id).len() < s.len(),
        s.len() > 0 ==> merged(s, p, id).len() > 0 && (merged(s, p, id)[0] == id || merged(
            s,
            p,
            id,
        )[0] == s[0]),
    decreases s.len(),
{
    if s.len() == 0 {
    } else if s.len() >= 2 && s[0] == p.0 && s[1] == p.1 {
        lemma_merged_len(s.skip(2), p, id);
    } else {
        let t = s.skip(1);
        lemma_merged_len(t, p, id);
        if occurs(s, p) {
            let i = choose|i: int| 0 <= i < s.len() - 1 && #[trigger] s[i] == p.0 && s[i + 1] == p.1;
            assert(t[i - 1] == p.0 && t[i] == p.1);
        }
    }
}

/// Every symbol of a merged sequence is the new id or a symbol of the source.
pub proof fn lemma_merged_symbols(s: Seq<usize>, p: (usize, usize), id: usize)
    ensures
        forall|i: int|
            0 <= i < merged(s, p, id).len() ==> #[trigger] merged(s, p, id)[i] == id || s.contains(
                merged(s, p, id)[i],
            ),
    decreases s.len(),
{
    let m = merged(s, p, id);
    if s.len() == 0 {
    } else if s.len() >= 2 && s[0] == p.0 && s[1] == p.1 {
        let t = s.skip(2);
        lemma_merged_symbols(t, p, id);
        assert forall|i: int| 0 <= i < m.len() implies #[trigger] m[i] == id || s.contains(
            m[i],
        ) by {
            if i > 0 {
                let x = merged(t, p, id)[i - 1];
                assert(m[i] == x);
                if x != id {
                    let j = choose|j: int| 0 <= j < t.len() && t[j] == x;
                    assert(s[j + 2] == x);
                }
            }
        }
    } else {
        let t = s.skip(1);
        lemma_merged_symbols(t, p, id);
        assert forall|i: int| 0 <= i < m.len() implies #[trigger] m[i] == id || s.contains(
            m[i],
        ) by {
            if i > 0 {
                let x = merged(t, p, id)[i - 1];
                assert(m[i] == x);
                if x != id {
                    let j = choose|j: int| 0 <= j < t.len() && t[j] == x;
                    assert(s[j + 1] == x);
                }
            } else {
                assert(s[0] == m[0]);
            }
        }
    }
}

/// A pair of old symbols that stands in the merged sequence stood in the
/// source, and is not the pair that was merged.
pub proof fn lemma_merged_pairs(s: Seq<usize>, p: (usize, usize), id: usize, q: (usize, usize))
    requires
        q.0 != id,
        q.1 != id,
        occurs(merged(s, p, id), q),
    ensures
        occurs(s, q),
        q != p,
    decreases s.len(),
{
    let m = merged(s, p, id);
    let i = choose|i: int| 0 <= i < m.len() - 1 && #[trigger] m[i] == q.0 && m[i + 1] == q.1;
    if s.len() == 0 {
    } else if s.len() >= 2 && s[0] == p.0 && s[1] == p.1 {
        let t = s.skip(2);
        let mt = merged(t, p, id);
        assert(m[0] == id);
        assert(i > 0);
        assert(mt[i - 1] == q.0 && mt[i] == q.1);
        lemma_merged_pairs(t, p, id, q);
        let j = choose|j: int| 0 <= j < t.len() - 1 && #[trigger] t[j] == q.0 && t[j + 1] == q.1;
        assert(s[j + 2] == q.0 && s[j + 3] == q.1);
    } else {
        let t = s.skip(1);
        let mt = merged(t, p, id);
        if i > 0 {
            assert(mt[i - 1] == q.0 && mt[i] == q.1);
            lemma_merged_pairs(t, p, id, q);
            let j = choose|j: int|
                0 <= j < t.len() - 1 && #[trigger] t[j] == q.0 && t[j + 1] == q.1;
            assert(s[j + 1] == q.0 && s[j + 2] == q.1);
        } else {
            lemma_merged_len(t, p, id);
            assert(m[1] == mt[0]);
            assert(mt[0] == t[0]);
            let z: int = 0;
            assert(s[z] == q.0 && s[z + 1] == q.1);
        }
    }
}

/// One entry of `e` is `(p, c)`, and no entry has a higher count, nor the
/// same count with a lower pair.
pub open spec fn is_top_entry(e: Seq<((usize, usize), usize)>, p: (usize, usize), c: usize) -> bool {
    &&& exists|j: int| 0 <= j < e.len() && #[trigger] e[j] == (p, c)
    &&& forall|i: int|
        0 <= i < e.len() ==> (#[trigger] e[i]).1 < c || (e[i].1 == c && pair_le(p, e[i].0))
}

/// The entry with the highest count; among entries of equal count, the one
/// with the lowest pair. `None` for an empty table.
pub fn most_frequent_pair(counts: &IndexMap<(usize, usize), usize>) -> (r: Option<
    ((usize, usize), usize),
>)
    ensures
        r is None <==> table_entries(*counts).len() == 0,
        match r {
            Some((p, c)) => is_top_entry(table_entries(*counts), p, c),
            None => true,
        },
{
    let n = table_len(counts);
    let ghost e = table_entries(*counts);
    let mut best: Option<((usize, usize), usize)> = None;
    let mut i: usize = 0;
    while i < n
        invariant
            e == table_entries(*counts),
            n == e.len(),
            i <= n,
            best is None <==> i == 0,
            match best {
                Some((p, c)) => is_top_entry(e.take(i as int), p, c),
                None => true,
            },
        decreases n - i,
    {
        let entry = table_get_index(counts, i);
        match entry {
            Some((k, v)) => {
                let ghost seen = e.take(i as int);
                let ghost next = e.take(i + 1);
                proof {
                    assert(next[i as int] == (k, v));
                    assert(forall|j: int| 0 <= j < i ==> next[j] == seen[j]);
                }
                match best {
                    Some((p, c)) => {
                        if v > c || (v == c && (k.0 < p.0 || (k.0 == p.0 && k.1 < p.1))) {
                            best = Some((k, v));
                            proof {
                                assert forall|j: int| 0 <= j < next.len() implies (
                                #[trigger] next[j]).1 < v || (next[j].1 == v && pair_le(
                                    k,
                                    next[j].0,
                                )) by {
                                    if j < i {
                                        assert(seen[j] == next[j]);
                                    }
                                }
                            }
                        } else {
                            proof {
                                let w = choose|j: int| 0 <= j < seen.len() && #[trigger] seen[j] == (
                                    p,
                                    c,
                                );
                                assert(next[w] == (p, c));
                                assert forall|j: int| 0 <= j < next.len() implies (
                                #[trigger] next[j]).1 < c || (next[j].1 == c && pair_le(
                                    p,
                                    next[j].0,
                                )) by {
                                    if j < i {
                                        assert(seen[j] == next[j]);
                                    }
                                }
                            }
                        }
                    },
                    None => {
                        best = Some((k, v));
                    },
                }
            },
            None => {},
        }
        i += 1;
    }
    proof {
        assert(e.take(n as int) =~= e);
    }
    best
}

/// The entries `e` after counting one more occurrence of `k`.
pub open spec fn bumped(e: Seq<((usize, usize), usize)>, k: (usize, usize)) -> Seq<
    ((usize, usize), usize),
> {
    match value_of(e, k) {
        Some(c) => put(e, k, (c + 1) as usize),
        None => put(e, k, 1),
    }
}

/// The pairs of `s` with their counts, each pair where it first occurred.
pub open spec fn tally(s: Seq<usize>) -> Seq<((usize, usize), usize)>
    decreases s.len(),
{
    if s.len() < 2 {
        Seq::empty()
    } else {
        bumped(tally(s.drop_last()), (s[s.len() - 2], s[s.len() - 1]))
    }
}

/// Counts every adjacent pair of `encoded_ints`. The table holds one entry
/// for each pair that occurs, with the number of its occurrences, in the
/// order in which the pairs first occur.
pub fn count_common_encoded_tuples(encoded_ints: Vec<usize>) -> (freq_map: IndexMap<
    (usize, usize),
    usize,
>)
    ensures
        table_entries(freq_map) == tally(encoded_ints@),
        distinct_keys(table_entries(freq_map)),
        forall|j: int|
            0 <= j < table_entries(freq_map).len() ==> {
                &&& (#[trigger] table_entries(freq_map)[j]).1 > 0
                &&& table_entries(freq_map)[j].1 == pair_count(
                    encoded_ints@,
                    table_entries(freq_map)[j].0,
                )
            },
        forall|p: (usize, usize)|
            has_key(table_entries(freq_map), p) <==> pair_count(encoded_ints@, p) > 0,
{
    let mut freq_map = table_new();
    let ghost s = encoded_ints@;
    if encoded_ints.len() < 2 {
        return freq_map;
    }
    let mut i: usize = 0;
    proof {
        assert(s.skip(0) =~= s);
    }
    while i + 1 < encoded_ints.len()
        invariant
            s == encoded_ints@,
            s.len() >= 2,
            i < encoded_ints.len(),
            table_entries(freq_map) == tally(s.take(i + 1)),
            distinct_keys(table_entries(freq_map)),
            forall|j: int|
                0 <= j < table_entries(freq_map).len() ==> {
                    &&& (#[trigger] table_entries(freq_map)[j]).1 > 0
                    &&& table_entries(freq_map)[j].1 + pair_count(
                        s.skip(i as int),
                        table_entries(freq_map)[j].0,
                    ) == pair_count(s, table_entries(freq_map)[j].0)
                },
            forall|p: (usize, usize)|
                !has_key(table_entries(freq_map), p) ==> pair_count(s.skip(i as int), p)
                    == pair_count(s, p),
        decreases s.len() - i,
    {
        let key = (encoded_ints[i], encoded_ints[i + 1]);
        let ghost before = table_entries(freq_map);
        let ghost rest = s.skip(i as int);
        proof {
            assert(rest.skip(1) =~= s.skip(i + 1));
            assert(rest[0] == key.0 && rest[1] == key.1);
            assert(s.take(i + 2).drop_last() =~= s.take(i + 1));
            lemma_pair_count_bound(s, key);
            lemma_pair_count_bound(s.skip(i + 1), key);
            lemma_put_distinct(before, key, 1);
        }
        match table_get(&freq_map, key) {
            Some(c) => {
                proof {
                    assert(before[key_index(before, key)].1 == c);
                    lemma_put_distinct(before, key, (c + 1) as usize);
                }
                table_insert(&mut freq_map, key, c + 1);
            },
            None => {
                table_insert(&mut freq_map, key, 1);
            },
        }
        proof {
            let after = table_entries(freq_map);
            assert forall|j: int| 0 <= j < after.len() implies {
                &&& (#[trigger] after[j]).1 > 0
                &&& after[j].1 + pair_count(s.skip(i + 1), after[j].0) == pair_count(s, after[j].0)
            } by {
                if has_key(before, key) {
                    let n = key_index(before, key);
                    if j != n {
                        assert(before[j] == after[j]);
                        assert(before[j].0 != before[n].0);
                    }
                } else {
                    if j < before.len() {
                        assert(before[j] == after[j]);
                    }
                }
            }
            assert forall|p: (usize, usize)| !has_key(after, p) implies pair_count(
                s.skip(i + 1),
                p,
            ) == pair_count(s, p) by {
                assert(p != key);
                assert(!has_key(before, p));
            }
        }
        i += 1;
    }
    proof {
        let after = table_entries(freq_map);
        assert(s.take(i + 1) =~= s);
        assert(s.skip(i as int).len() < 2);
        assert forall|p: (usize, usize)| has_key(after, p) <==> pair_count(s, p) > 0 by {
            if has_key(after, p) {
                let n = key_index(after, p);
                assert(after[n].1 > 0);
            }
        }
    }
    freq_map
}

/// Replaces every occurrence of `pair` in `ids` by `idx`, in one pass from
/// the left; occurrences that overlap an earlier one are left alone.
pub fn merge(pair: (usize, usize), ids: Vec<usize>, idx: usize) -> (merged_ids: Vec<usize>)
    ensures
        merged_ids@ == merged(ids@, pair, idx),
{
    let mut merged_ids: Vec<usize> = Vec::new();
    let mut i: usize = 0;
    proof {
        assert(ids@.skip(0) =~= ids@);
    }
    while i < ids.len()
        invariant
            i <= ids.len(),
            merged_ids@ + merged(ids@.skip(i as int), pair, idx) == merged(ids@, pair, idx),
        decreases ids.len() - i,
    {
        let ghost rest = ids@.skip(i as int);
        let ghost done = merged_ids@;
        if i + 1 < ids.len() && ids[i] == pair.0 && ids[i + 1] == pair.1 {
            merged_ids.push(idx);
            proof {
                assert(rest.skip(2) =~= ids@.skip(i + 2));
                assert(merged_ids@ + merged(ids@.skip(i + 2), pair, idx) =~= done + merged(
                    rest,
                    pair,
                    idx,
                ));
            }
            i += 2;
        } else {
            merged_ids.push(ids[i]);
            proof {
                assert(rest.skip(1) =~= ids@.skip(i + 1));
                assert(merged_ids@ + merged(ids@.skip(i + 1), pair, idx) =~= done + merged(
                    rest,
                    pair,
                    idx,
                ));
            }
            i += 1;
        }
    }
    proof {
        assert(merged_ids@ + Seq::<usize>::empty() =~= merged_ids@);
    }
    merged_ids
}

/// `c` is a control code: U+0000 to U+001F, or U+007F to U+009F.
pub open spec fn is_control_char(c: char) -> bool {
    (c as u32) < 0x20 || (0x7f <= (c as u32) && (c as u32) < 0xa0)
}

/// The lower-case hexadecimal digit for `n`.
pub open spec fn hex_digit(n: u32) -> char {
    if n == 0 {
        '0'
    } else if n == 1 {
        '1'
    } else if n == 2 {
        '2'
    } else if n == 3 {
        '3'
    } else if n == 4 {
        '4'
    } else if n == 5 {
        '5'
    } else if n == 6 {
        '6'
    } else if n == 7 {
        '7'
    } else if n == 8 {
        '8'
    } else if n == 9 {
        '9'
    } else if n == 10 {
        'a'
    } else if n == 11 {
        'b'
    } else if n == 12 {
        'c'
    } else if n == 13 {
        'd'
    } else if n == 14 {
        'e'
    } else {
        'f'
    }
}

/// The escaped form of a control code: `\u{`, its number in four
/// hexadecimal digits, `}`.
pub open spec fn escape(c: char) -> Seq<char> {
    seq![
        '\\',
        'u',
        '{',
        hex_digit(((c as u32) / 4096) % 16),
        hex_digit(((c as u32) / 256) % 16),
        hex_digit(((c as u32) / 16) % 16),
        hex_digit((c as u32) % 16),
        '}',
    ]
}

/// `s` with every control code replaced by its escaped form.
pub open spec fn escaped(s: Seq<char>) -> Seq<char>
    decreases s.len(),
{
    if s.len() == 0 {
        s
    } else {
        escaped(s.drop_last()) + if is_control_char(s.last()) {
            escape(s.last())
        } else {
            seq![s.last()]
        }
    }
}

/// The text that `String::from_utf8_lossy` reads from `bytes`.
pub uninterp spec fn lossy_text(bytes: Seq<u8>) -> Seq<char>;

/// `String::from_utf8_lossy`: the text of `t`, with each ill-formed part
/// replaced by U+FFFD. Well-formed input is decoded as it stands.
#[verifier::external_body]
fn text_from_utf8_lossy(t: &[u8]) -> (r: String)
    ensures
        r@ == lossy_text(t@),
        valid_utf8(t@) ==> r@ == decode_utf8(t@),
{
    String::from_utf8_lossy(t).into_owned()
}

/// `String::push`: appends one character.
#[verifier::external_body]
fn push_char(s: &mut String, c: char)
    ensures
        final(s)@ == old(s)@.push(c),
{
    s.push(c)
}

/// The lower-case hexadecimal digit for `n`, computed.
fn hex_digit_of(n: u32) -> (r: char)
    requires
        n < 16,
    ensures
        r == hex_digit(n),
{
    if n == 0 {
        '0'
    } else if n == 1 {
        '1'
    } else if n == 2 {
        '2'
    } else if n == 3 {
        '3'
    } else if n == 4 {
        '4'
    } else if n == 5 {
        '5'
    } else if n == 6 {
        '6'
    } else if n == 7 {
        '7'
    } else if n == 8 {
        '8'
    } else if n == 9 {
        '9'
    } else if n == 10 {
        'a'
    } else if n == 11 {
        'b'
    } else if n == 12 {
        'c'
    } else if n == 13 {
        'd'
    } else if n == 14 {
        'e'
    } else {
        'f'
    }
}

/// Replaces every control code of `s` by its escaped form and keeps every
/// other character.
pub fn replace_control_characters(s: &str) -> (r: String)
    ensures
        r@ == escaped(s@),
{
    let mut out = String::new();
    let n = s.unicode_len();
    let mut i: usize = 0;
    while i < n
        invariant
            n == s@.len(),
            i <= n,
            out@ == escaped(s@.take(i as int)),
        decreases n - i,
    {
        let c = s.get_char(i);
        let code = c as u32;
        proof {
            assert(s@.take(i + 1).drop_last() =~= s@.take(i as int));
            assert(s@.take(i + 1).last() == c);
        }
        let ghost before = out@;
        if code < 0x20 || (0x7f <= code && code < 0xa0) {
            push_char(&mut out, '\\');
            push_char(&mut out, 'u');
            push_char(&mut out, '{');
            push_char(&mut out, hex_digit_of((code / 4096) % 16));
            push_char(&mut out, hex_digit_of((code / 256) % 16));
            push_char(&mut out, hex_digit_of((code / 16) % 16));
            push_char(&mut out, hex_digit_of(code % 16));
            push_char(&mut out, '}');
            proof {
                assert(out@ =~= before + escape(c));
            }
        } else {
            push_char(&mut out, c);
            proof {
                assert(out@ =~= before + seq![c]);
            }
        }
        i += 1;
    }
    proof {
        assert(s@.take(n as int) =~= s@);
    }
    out
}

/// A printable form of the token `t`: its bytes read as UTF-8, ill-formed
/// parts replaced by U+FFFD, and control codes escaped.
pub fn render_token(t: &[u8]) -> (r: String)
    ensures
        r@ == escaped(lossy_text(t@)),
        valid_utf8(t@) ==> r@ == escaped(decode_utf8(t@)),
{
    let decoded = text_from_utf8_lossy(t);
    replace_control_characters(decoded.as_str())
}

} // verus!
