//! Frequency analysis: counting how often each distinct character occurs in
//! the input text. No character is excluded or normalized; newlines and
//! control characters count like any other symbol.

use vstd::prelude::*;

verus! {

/// How many times the character `c` occurs in `text`.
pub open spec fn count_of(text: Seq<char>, c: char) -> nat
    decreases text.len(),
{
    if text.len() == 0 {
        0
    } else {
        count_of(text.drop_last(), c) + (if text.last() == c {
            1nat
        } else {
            0nat
        })
    }
}

/// The distinct characters of `text`, in order of first occurrence.
pub open spec fn distinct_chars(text: Seq<char>) -> Seq<char>
    decreases text.len(),
{
    if text.len() == 0 {
        Seq::empty()
    } else {
        let rest = distinct_chars(text.drop_last());
        if rest.contains(text.last()) {
            rest
        } else {
            rest.push(text.last())
        }
    }
}

/// The frequency table of `text`: one entry per distinct character, in
/// order of first occurrence, paired with its occurrence count.
pub open spec fn frequency_pairs(text: Seq<char>) -> Seq<(char, u32)> {
    Seq::new(
        distinct_chars(text).len(),
        |i: int| (distinct_chars(text)[i], count_of(text, distinct_chars(text)[i]) as u32),
    )
}

/// A character drawn from the text occurs in it at least once.
pub proof fn lemma_count_of_member(text: Seq<char>, i: int)
    requires
        0 <= i < text.len(),
    ensures
        count_of(text, text[i]) > 0,
    decreases text.len(),
{
    if i < text.len() - 1 {
        lemma_count_of_member(text.drop_last(), i);
        assert(text.drop_last()[i] == text[i]);
    }
}

/// A character occurs at most as many times as the text is long.
pub proof fn lemma_count_le_len(text: Seq<char>, c: char)
    ensures
        count_of(text, c) <= text.len(),
    decreases text.len(),
{
    if text.len() > 0 {
        lemma_count_le_len(text.drop_last(), c);
    }
}

/// Appending one character raises its count by one and leaves every other
/// count unchanged.
pub proof fn lemma_count_push(text: Seq<char>, x: char, c: char)
    ensures
        count_of(text.push(x), c) == count_of(text, c) + (if x == c {
            1nat
        } else {
            0nat
        }),
{
    assert(text.push(x).drop_last() =~= text);
}

/// A character is listed among the distinct characters exactly when it
/// occurs in the text.
pub proof fn lemma_distinct_contains(text: Seq<char>, c: char)
    ensures
        distinct_chars(text).contains(c) <==> count_of(text, c) > 0,
    decreases text.len(),
{
    if text.len() > 0 {
        lemma_distinct_contains(text.drop_last(), c);
        let rest = distinct_chars(text.drop_last());
        if rest.contains(text.last()) {
            assert(distinct_chars(text) == rest);
            if c == text.last() {
                assert(count_of(text, c) > 0);
                assert(distinct_chars(text).contains(c));
            }
        } else {
            assert(distinct_chars(text) == rest.push(text.last()));
            if c == text.last() {
                assert(distinct_chars(text)[distinct_chars(text).len() - 1] == c);
                assert(distinct_chars(text).contains(c));
                assert(count_of(text, c) > 0);
            } else {
                if distinct_chars(text).contains(c) {
                    let i = choose|i: int|
                        0 <= i < distinct_chars(text).len() && distinct_chars(text)[i] == c;
                    assert(i < rest.len());
                    assert(rest[i] == c);
                    assert(rest.contains(c));
                } else {
                    if rest.contains(c) {
                        let i = choose|i: int| 0 <= i < rest.len() && rest[i] == c;
                        assert(distinct_chars(text)[i] == c);
                        assert(distinct_chars(text).contains(c));
                    }
                }
            }
        }
    }
}

/// No character is listed twice among the distinct characters.
pub proof fn lemma_distinct_no_dup(text: Seq<char>)
    ensures
        forall|i: int, j: int|
            0 <= i < j < distinct_chars(text).len() ==> distinct_chars(text)[i]
                != distinct_chars(text)[j],
    decreases text.len(),
{
    if text.len() > 0 {
        lemma_distinct_no_dup(text.drop_last());
        let rest = distinct_chars(text.drop_last());
        if !rest.contains(text.last()) {
            assert forall|i: int, j: int|
                0 <= i < j < distinct_chars(text).len() implies distinct_chars(text)[i]
                != distinct_chars(text)[j] by {
                if j == distinct_chars(text).len() - 1 {
                    assert(rest[i] == distinct_chars(text)[i]);
                    if rest[i] == text.last() {
                        assert(rest.contains(text.last()));
                    }
                }
            }
        }
    }
}

/// The combined weight of a frequency table: the sum of all its counts.
pub open spec fn pairs_weight(ps: Seq<(char, u32)>) -> int
    decreases ps.len(),
{
    if ps.len() == 0 {
        0
    } else {
        pairs_weight(ps.drop_last()) + ps.last().1
    }
}

/// The sum, over a sequence of keys, of each key's occurrence count in the
/// text.
pub open spec fn sum_counts(keys: Seq<char>, text: Seq<char>) -> int
    decreases keys.len(),
{
    if keys.len() == 0 {
        0
    } else {
        sum_counts(keys.drop_last(), text) + count_of(text, keys.last())
    }
}

/// Appending one character to the text raises the summed counts of a
/// duplicate-free key sequence by one exactly when the character is a key.
pub proof fn lemma_sum_counts_push(keys: Seq<char>, text: Seq<char>, c: char)
    requires
        forall|i: int, j: int| 0 <= i < j < keys.len() ==> keys[i] != keys[j],
    ensures
        sum_counts(keys, text.push(c)) == sum_counts(keys, text) + (if keys.contains(c) {
            1int
        } else {
            0int
        }),
    decreases keys.len(),
{
    if keys.len() == 0 {
        assert(!keys.contains(c));
    } else {
        let rest = keys.drop_last();
        lemma_sum_counts_push(rest, text, c);
        lemma_count_push(text, c, keys.last());
        if keys.last() == c {
            if rest.contains(c) {
                let i = choose|i: int| 0 <= i < rest.len() && rest[i] == c;
                assert(keys[i] == keys[keys.len() - 1]);
                assert(false);
            }
            assert(keys.contains(c)) by {
                assert(keys[keys.len() - 1] == c);
            }
        } else {
            if rest.contains(c) {
                let i = choose|i: int| 0 <= i < rest.len() && rest[i] == c;
                assert(keys[i] == c);
                assert(keys.contains(c));
            } else {
                if keys.contains(c) {
                    let i = choose|i: int| 0 <= i < keys.len() && keys[i] == c;
                    assert(i < rest.len());
                    assert(rest[i] == c);
                    assert(rest.contains(c));
                    assert(false);
                }
            }
        }
    }
}

/// The counts of the distinct characters of a text sum to its length.
pub proof fn lemma_sum_counts_distinct(text: Seq<char>)
    ensures
        sum_counts(distinct_chars(text), text) == text.len(),
    decreases text.len(),
{
    if text.len() > 0 {
        let t = text.drop_last();
        let c = text.last();
        lemma_sum_counts_distinct(t);
        lemma_distinct_no_dup(t);
        assert(t.push(c) =~= text);
        lemma_sum_counts_push(distinct_chars(t), t, c);
        lemma_distinct_contains(t, c);
        if distinct_chars(t).contains(c) {
        } else {
            assert(distinct_chars(text) == distinct_chars(t).push(c));
            assert(distinct_chars(text).drop_last() =~= distinct_chars(t));
            lemma_count_push(t, c, c);
        }
    }
}

/// The weights of the frequency table of a text sum to the text's length.
pub proof fn lemma_pairs_weight_eq_len(text: Seq<char>)
    requires
        text.len() <= u32::MAX,
    ensures
        pairs_weight(frequency_pairs(text)) == text.len(),
{
    lemma_fp_weight_prefix(text, distinct_chars(text).len() as int);
    assert(frequency_pairs(text).take(distinct_chars(text).len() as int) =~= frequency_pairs(
        text,
    ));
    assert(distinct_chars(text).take(distinct_chars(text).len() as int) =~= distinct_chars(text));
    lemma_sum_counts_distinct(text);
}

proof fn lemma_fp_weight_prefix(text: Seq<char>, k: int)
    requires
        text.len() <= u32::MAX,
        0 <= k <= distinct_chars(text).len(),
    ensures
        pairs_weight(frequency_pairs(text).take(k)) == sum_counts(distinct_chars(text).take(k), text),
    decreases k,
{
    if k > 0 {
        lemma_fp_weight_prefix(text, k - 1);
        assert(frequency_pairs(text).take(k).drop_last() =~= frequency_pairs(text).take(k - 1));
        assert(distinct_chars(text).take(k).drop_last() =~= distinct_chars(text).take(k - 1));
        lemma_count_le_len(text, distinct_chars(text)[k - 1]);
    }
}

/// Scans the text and returns its frequency table: each distinct character,
/// in order of first occurrence, with the number of times it occurs.
pub fn count_frequencies(text: &Vec<char>) -> (pairs: Vec<(char, u32)>)
    requires
        text@.len() <= u32::MAX,
    ensures
        pairs@ == frequency_pairs(text@),
        pairs@.len() == distinct_chars(text@).len(),
        forall|j: int| #![trigger pairs@[j]]
            0 <= j < pairs@.len() ==> pairs@[j].0 == distinct_chars(text@)[j] && pairs@[j].1 as nat
                == count_of(text@, pairs@[j].0),
{
    let mut pairs: Vec<(char, u32)> = Vec::new();
    let mut i: usize = 0;
    while i < text.len()
        invariant
            i <= text@.len(),
            text@.len() <= u32::MAX,
            pairs@.len() == distinct_chars(text@.take(i as int)).len(),
            forall|j: int| #![trigger pairs@[j]]
                0 <= j < pairs@.len() ==> pairs@[j].0 == distinct_chars(text@.take(i as int))[j]
                    && pairs@[j].1 as nat == count_of(text@.take(i as int), pairs@[j].0),
        decreases text@.len() - i,
    {
        let ghost t1 = text@.take(i as int);
        let ghost t2 = text@.take(i as int + 1);
        let c = text[i];
        proof {
            assert(t2.drop_last() =~= t1);
            assert(t2.last() == c);
            assert(t2 =~= t1.push(c));
        }
        let found = find_key(&pairs, c);
        match found {
            Some(j) => {
                proof {
                    assert(distinct_chars(t1).contains(c)) by {
                        assert(distinct_chars(t1)[j as int] == c);
                    }
                    assert(distinct_chars(t2) == distinct_chars(t1));
                    lemma_count_le_len(t1, c);
                    lemma_distinct_no_dup(t1);
                }
                let cnt = pairs[j].1;
                proof {
                    assert(cnt as nat == count_of(t1, c));
                }
                pairs[j] = (c, cnt + 1);
                proof {
                    assert forall|k: int| 0 <= k < pairs@.len() implies pairs@[k].0
                        == distinct_chars(t2)[k] && pairs@[k].1 as nat == count_of(
                        t2,
                        pairs@[k].0,
                    ) by {
                        lemma_count_push(t1, c, pairs@[k].0);
                        if k != j {
                            assert(distinct_chars(t1)[k] != distinct_chars(t1)[j as int]);
                        }
                    }
                }
            },
            None => {
                proof {
                    if distinct_chars(t1).contains(c) {
                        let k = choose|k: int|
                            0 <= k < distinct_chars(t1).len() && distinct_chars(t1)[k] == c;
                        assert(pairs@[k].0 == c);
                    }
                    assert(!distinct_chars(t1).contains(c));
                    assert(distinct_chars(t2) == distinct_chars(t1).push(c));
                    lemma_distinct_contains(t1, c);
                }
                pairs.push((c, 1));
                proof {
                    assert forall|k: int| 0 <= k < pairs@.len() implies pairs@[k].0
                        == distinct_chars(t2)[k] && pairs@[k].1 as nat == count_of(
                        t2,
                        pairs@[k].0,
                    ) by {
                        lemma_count_push(t1, c, pairs@[k].0);
                        if k < pairs@.len() - 1 && pairs@[k].0 == c {
                            assert(distinct_chars(t1).contains(c)) by {
                                assert(distinct_chars(t1)[k] == c);
                            }
                        }
                    }
                }
            },
        }
        i = i + 1;
    }
    proof {
        assert(text@.take(i as int) =~= text@);
        assert forall|j: int| 0 <= j < pairs@.len() implies pairs@[j] == frequency_pairs(
            text@,
        )[j] by {
            lemma_count_le_len(text@, pairs@[j].0);
        }
        assert(pairs@ =~= frequency_pairs(text@));
    }
    pairs
}

/// Finds the entry of `pairs` whose key is `c`, if there is one.
fn find_key(pairs: &Vec<(char, u32)>, c: char) -> (r: Option<usize>)
    ensures
        match r {
            Some(j) => j < pairs@.len() && pairs@[j as int].0 == c,
            None => forall|k: int| 0 <= k < pairs@.len() ==> pairs@[k].0 != c,
        },
{
    let mut j: usize = 0;
    while j < pairs.len()
        invariant
            j <= pairs@.len(),
            forall|k: int| 0 <= k < j ==> pairs@[k].0 != c,
        decreases pairs@.len() - j,
    {
        if pairs[j].0 == c {
            return Some(j);
        }
        j = j + 1;
    }
    None
}

} // verus!
