//! The transition table and the chain engine: a mapping from a state
//! (an ordered sequence of exactly `order` lowercased words) to a
//! weighted distribution over the words observed to follow it, plus
//! the training algorithm that folds a token stream into the table.
//!
//! The table is stored as a vector of entries with unique states; each
//! entry holds a vector of `(word, count)` pairs with unique words and
//! positive counts. The spec-level model counts occurrences by summing
//! over the stored structure, so every contract below is exact.

use vstd::prelude::*;

use crate::errors::RyazonError;
use crate::errors::RyazonOutput;
use crate::options::GenerationOptions;
use crate::options::TrainingOptions;
use crate::options::TERMINATOR_RETRY_LIMIT;
use crate::rng::fresh_rng;
use crate::rng::rand_below;
use crate::text::build_corpus;
use crate::text::has_suffix;
use crate::text::join_with_spaces;
use crate::text::join_words;
use crate::text::lower_of;
use crate::text::lowercase;
use crate::text::spec_has_suffix;
use crate::text::check_ascii_punct;
use crate::text::corpus_concat;
use crate::text::is_ascii_punct;
use crate::text::split_lower;
use crate::text::tokens_of;

verus! {

/// One word of a distribution together with how often it was observed.
pub struct WordCount {
    pub word: String,
    pub count: usize,
}

/// One state of the table together with its next-word distribution.
pub struct StateEntry {
    pub state: Vec<String>,
    pub nexts: Vec<WordCount>,
}

impl StateEntry {
    /// The state as a mathematical sequence of character sequences.
    pub open spec fn state_v(self) -> Seq<Seq<char>> {
        self.state.deep_view()
    }
}

/// Total weight recorded for the word `w` in the distribution `d`.
pub open spec fn dist_count(d: Seq<WordCount>, w: Seq<char>) -> nat
    decreases d.len(),
{
    if d.len() == 0 {
        0
    } else {
        dist_count(d.drop_last(), w) + if d.last().word@ == w {
            d.last().count as nat
        } else {
            0
        }
    }
}

/// Total weight of the whole distribution `d`.
pub open spec fn dist_total(d: Seq<WordCount>) -> nat
    decreases d.len(),
{
    if d.len() == 0 {
        0
    } else {
        dist_total(d.drop_last()) + d.last().count as nat
    }
}

/// Total weight recorded under state `s` for the word `w` across the
/// whole table `t`.
pub open spec fn table_count(t: Seq<StateEntry>, s: Seq<Seq<char>>, w: Seq<char>) -> nat
    decreases t.len(),
{
    if t.len() == 0 {
        0
    } else {
        table_count(t.drop_last(), s, w) + if t.last().state_v() == s {
            dist_count(t.last().nexts@, w)
        } else {
            0
        }
    }
}

/// Total weight recorded under state `s`, over all words.
pub open spec fn table_total(t: Seq<StateEntry>, s: Seq<Seq<char>>) -> nat
    decreases t.len(),
{
    if t.len() == 0 {
        0
    } else {
        table_total(t.drop_last(), s) + if t.last().state_v() == s {
            dist_total(t.last().nexts@)
        } else {
            0
        }
    }
}

/// Total weight of the whole table: the number of state-word pairs
/// ever recorded.
pub open spec fn chain_sum(t: Seq<StateEntry>) -> nat
    decreases t.len(),
{
    if t.len() == 0 {
        0
    } else {
        chain_sum(t.drop_last()) + dist_total(t.last().nexts@)
    }
}

/// Whether the table has an entry for state `s`.
pub open spec fn has_state(t: Seq<StateEntry>, s: Seq<Seq<char>>) -> bool {
    exists|i: int| 0 <= i < t.len() && (#[trigger] t[i]).state_v() == s
}

/// A well-formed distribution: positive counts, no repeated word.
pub open spec fn dist_wf(d: Seq<WordCount>) -> bool {
    &&& forall|j: int| 0 <= j < d.len() ==> (#[trigger] d[j]).count >= 1
    &&& forall|j1: int, j2: int| 0 <= j1 < j2 < d.len() ==> d[j1].word@ != d[j2].word@
}

/// A well-formed table for a chain of the given order: every state has
/// exactly `order` words, states are unique, every distribution is
/// well-formed and non-empty, and the total weight fits in a `usize`.
pub open spec fn table_wf(t: Seq<StateEntry>, order: u8) -> bool {
    &&& order >= 1
    &&& forall|i: int| 0 <= i < t.len() ==> (#[trigger] t[i]).state_v().len() == order as int
    &&& forall|i: int| 0 <= i < t.len() ==> dist_wf((#[trigger] t[i]).nexts@)
    &&& forall|i: int| 0 <= i < t.len() ==> (#[trigger] t[i]).nexts@.len() >= 1
    &&& forall|i1: int, i2: int| 0 <= i1 < i2 < t.len() ==> t[i1].state_v() != t[i2].state_v()
    &&& chain_sum(t) <= usize::MAX as nat
}

proof fn lemma_dist_push(d: Seq<WordCount>, wc: WordCount)
    ensures
        forall|w: Seq<char>| #[trigger] dist_count(d.push(wc), w) == dist_count(d, w) + if wc.word@
            == w {
            wc.count as nat
        } else {
            0nat
        },
        dist_total(d.push(wc)) == dist_total(d) + wc.count as nat,
{
    assert(d.push(wc).drop_last() =~= d);
}

proof fn lemma_dist_update(d: Seq<WordCount>, j: int, wc: WordCount)
    requires
        0 <= j < d.len(),
        wc.word@ == d[j].word@,
    ensures
        forall|w: Seq<char>| #[trigger] dist_count(d.update(j, wc), w) == dist_count(d, w) + if d[j].word@
            == w {
            wc.count as nat - d[j].count as nat
        } else {
            0
        },
        dist_total(d.update(j, wc)) == dist_total(d) + wc.count as nat - d[j].count as nat,
    decreases d.len(),
{
    let d2 = d.update(j, wc);
    if j == d.len() - 1 {
        assert(d2.drop_last() =~= d.drop_last());
        assert(d2.last() == wc);
    } else {
        assert(d2.drop_last() =~= d.drop_last().update(j, wc));
        assert(d2.last() == d.last());
        lemma_dist_update(d.drop_last(), j, wc);
        assert forall|w: Seq<char>| #[trigger] dist_count(d2, w) == dist_count(d, w) + (if d[j].word@
            == w {
            wc.count as nat - d[j].count as nat
        } else {
            0
        }) by {
            assert(dist_count(d2, w) == dist_count(d2.drop_last(), w) + if d2.last().word@ == w {
                d2.last().count as nat
            } else {
                0nat
            });
            assert(dist_count(d2.drop_last(), w) == dist_count(d.drop_last().update(j, wc), w));
        }
    }
}

proof fn lemma_count_le_dist_total(d: Seq<WordCount>, j: int)
    requires
        0 <= j < d.len(),
    ensures
        d[j].count as nat <= dist_total(d),
    decreases d.len(),
{
    if j == d.len() - 1 {
    } else {
        lemma_count_le_dist_total(d.drop_last(), j);
    }
}

proof fn lemma_table_push(t: Seq<StateEntry>, e: StateEntry)
    ensures
        forall|s: Seq<Seq<char>>, w: Seq<char>| #[trigger] table_count(t.push(e), s, w)
            == table_count(t, s, w) + if e.state_v() == s {
            dist_count(e.nexts@, w)
        } else {
            0
        },
        forall|s: Seq<Seq<char>>| #[trigger] table_total(t.push(e), s) == table_total(t, s)
            + if e.state_v() == s {
            dist_total(e.nexts@)
        } else {
            0
        },
        chain_sum(t.push(e)) == chain_sum(t) + dist_total(e.nexts@),
{
    assert(t.push(e).drop_last() =~= t);
}

proof fn lemma_table_update(t: Seq<StateEntry>, i: int, e: StateEntry)
    requires
        0 <= i < t.len(),
        e.state_v() == t[i].state_v(),
    ensures
        forall|s: Seq<Seq<char>>, w: Seq<char>| #[trigger] table_count(t.update(i, e), s, w)
            == table_count(t, s, w) + if t[i].state_v() == s {
            dist_count(e.nexts@, w) - dist_count(t[i].nexts@, w)
        } else {
            0
        },
        forall|s: Seq<Seq<char>>| #[trigger] table_total(t.update(i, e), s) == table_total(t, s)
            + if t[i].state_v() == s {
            dist_total(e.nexts@) - dist_total(t[i].nexts@)
        } else {
            0
        },
        chain_sum(t.update(i, e)) == chain_sum(t) + dist_total(e.nexts@) - dist_total(
            t[i].nexts@,
        ),
    decreases t.len(),
{
    let t2 = t.update(i, e);
    if i == t.len() - 1 {
        assert(t2.drop_last() =~= t.drop_last());
        assert(t2.last() == e);
    } else {
        assert(t2.drop_last() =~= t.drop_last().update(i, e));
        assert(t2.last() == t.last());
        lemma_table_update(t.drop_last(), i, e);
        assert forall|s: Seq<Seq<char>>, w: Seq<char>| #[trigger] table_count(t2, s, w)
            == table_count(t, s, w) + (if t[i].state_v() == s {
            dist_count(e.nexts@, w) - dist_count(t[i].nexts@, w)
        } else {
            0
        }) by {
            assert(table_count(t2, s, w) == table_count(t2.drop_last(), s, w)
                + if t2.last().state_v() == s {
                dist_count(t2.last().nexts@, w)
            } else {
                0nat
            });
            assert(table_count(t2.drop_last(), s, w) == table_count(
                t.drop_last().update(i, e),
                s,
                w,
            ));
        }
        assert forall|s: Seq<Seq<char>>| #[trigger] table_total(t2, s) == table_total(t, s) + (
        if t[i].state_v() == s {
            dist_total(e.nexts@) - dist_total(t[i].nexts@)
        } else {
            0
        }) by {
            assert(table_total(t2, s) == table_total(t2.drop_last(), s) + if t2.last().state_v()
                == s {
                dist_total(t2.last().nexts@)
            } else {
                0nat
            });
            assert(table_total(t2.drop_last(), s) == table_total(t.drop_last().update(i, e), s));
        }
    }
}

proof fn lemma_dist_total_le_chain_sum(t: Seq<StateEntry>, i: int)
    requires
        0 <= i < t.len(),
    ensures
        dist_total(t[i].nexts@) <= chain_sum(t),
    decreases t.len(),
{
    if i == t.len() - 1 {
    } else {
        lemma_dist_total_le_chain_sum(t.drop_last(), i);
    }
}

/// In a table with unique states, the whole-table count under state
/// `s` is the count of the one entry that holds `s` (and every word
/// count under a state the table does not hold is zero).
proof fn lemma_table_count_at(t: Seq<StateEntry>, i: int)
    requires
        0 <= i < t.len(),
        forall|i1: int, i2: int| 0 <= i1 < i2 < t.len() ==> t[i1].state_v() != t[i2].state_v(),
    ensures
        forall|w: Seq<char>| #[trigger] table_count(t, t[i].state_v(), w) == dist_count(
            t[i].nexts@,
            w,
        ),
        table_total(t, t[i].state_v()) == dist_total(t[i].nexts@),
    decreases t.len(),
{
    let s = t[i].state_v();
    if i == t.len() - 1 {
        assert(forall|i0: int| 0 <= i0 < t.len() - 1 ==> #[trigger] t.drop_last()[i0] == t[i0]);
        assert(!has_state(t.drop_last(), s));
        lemma_table_no_state(t.drop_last(), s);
        assert forall|w: Seq<char>| #[trigger] table_count(t, s, w) == dist_count(
            t[i].nexts@,
            w,
        ) by {
            assert(table_count(t, s, w) == table_count(t.drop_last(), s, w) + dist_count(
                t.last().nexts@,
                w,
            ));
        }
    } else {
        lemma_table_count_at(t.drop_last(), i);
        assert(t.drop_last()[i] == t[i]);
        assert(t.last().state_v() != s);
        assert forall|w: Seq<char>| #[trigger] table_count(t, s, w) == dist_count(
            t[i].nexts@,
            w,
        ) by {
            assert(table_count(t, s, w) == table_count(t.drop_last(), s, w));
        }
    }
}

/// A state no entry holds has count zero for every word.
proof fn lemma_table_no_state(t: Seq<StateEntry>, s: Seq<Seq<char>>)
    requires
        !has_state(t, s),
    ensures
        forall|w: Seq<char>| #[trigger] table_count(t, s, w) == 0,
        table_total(t, s) == 0,
    decreases t.len(),
{
    if t.len() > 0 {
        assert(forall|i: int| 0 <= i < t.len() - 1 ==> #[trigger] t.drop_last()[i] == t[i]);
        assert(!has_state(t.drop_last(), s));
        lemma_table_no_state(t.drop_last(), s);
        assert(t[t.len() - 1].state_v() != s);
        assert forall|w: Seq<char>| #[trigger] table_count(t, s, w) == 0 by {
            assert(table_count(t, s, w) == table_count(t.drop_last(), s, w));
        }
    }
}

/// The index the cumulative weighted draw `r` resolves to: counts are
/// laid out one after the other and `r` falls in exactly one slot.
pub open spec fn pick_index(d: Seq<WordCount>, r: int) -> int
    decreases d.len(),
{
    if d.len() == 0 {
        0
    } else if r < d[0].count {
        0
    } else {
        1 + pick_index(d.drop_first(), r - d[0].count)
    }
}

/// The combined weight of the first `j` entries of `d`.
pub open spec fn cum_weight(d: Seq<WordCount>, j: int) -> nat {
    dist_total(d.subrange(0, j))
}

proof fn lemma_dist_total_prefix_le(d: Seq<WordCount>, j: int)
    requires
        0 <= j <= d.len(),
    ensures
        dist_total(d.subrange(0, j)) <= dist_total(d),
    decreases d.len() - j,
{
    if j == d.len() {
        assert(d.subrange(0, j) =~= d);
    } else {
        assert(d.subrange(0, j + 1).drop_last() =~= d.subrange(0, j));
        assert(d.subrange(0, j + 1).last() == d[j]);
        lemma_dist_total_prefix_le(d, j + 1);
    }
}

proof fn lemma_dist_count_at(d: Seq<WordCount>, j: int)
    requires
        0 <= j < d.len(),
    ensures
        dist_count(d, d[j].word@) >= d[j].count,
    decreases d.len(),
{
    if j == d.len() - 1 {
    } else {
        lemma_dist_count_at(d.drop_last(), j);
    }
}

/// The preimage of each slot under the cumulative draw is exactly one
/// interval of weights: for a draw `r` in range, the resolved index is
/// `j` exactly when `r` falls between the combined weight of the
/// entries before `j` and that weight plus the weight of `j` itself.
/// Over a uniform draw this is what makes weighted sampling unbiased:
/// each word is selected by exactly `count` of the `total` draw
/// values.
pub proof fn lemma_pick_index_interval(d: Seq<WordCount>, j: int, r: int)
    requires
        0 <= j < d.len(),
        0 <= r < dist_total(d),
    ensures
        (pick_index(d, r) == j) == (cum_weight(d, j) <= r < cum_weight(d, j + 1)),
    decreases d.len(),
{
    assert(d.subrange(0, 1).drop_last() =~= Seq::<WordCount>::empty());
    assert(d.subrange(0, 1).last() == d[0]);
    assert(dist_total(Seq::<WordCount>::empty()) == 0);
    assert(cum_weight(d, 1) == d[0].count);
    assert(d.subrange(0, 0) =~= Seq::<WordCount>::empty());
    if j == 0 {
        if r < d[0].count {
        } else {
            assert(pick_index(d, r) == 1 + pick_index(d.drop_first(), r - d[0].count));
            assert(pick_index(d.drop_first(), r - d[0].count) >= 0) by {
                lemma_pick_index_nonneg(d.drop_first(), r - d[0].count);
            }
        }
    } else {
        let d2 = d.drop_first();
        assert(d.drop_last().drop_first() =~= d2.drop_last());
        lemma_dist_total_drop_first(d);
        if r < d[0].count {
            assert(pick_index(d, r) == 0);
            assert(cum_weight(d, j) >= cum_weight(d, 1)) by {
                lemma_cum_weight_mono(d, 1, j);
            }
        } else {
            lemma_pick_index_interval(d2, j - 1, r - d[0].count);
            assert(cum_weight(d2, j - 1) + d[0].count == cum_weight(d, j)) by {
                lemma_cum_weight_drop_first(d, j);
            }
            assert(cum_weight(d2, j) + d[0].count == cum_weight(d, j + 1)) by {
                lemma_cum_weight_drop_first(d, j + 1);
            }
        }
    }
}

proof fn lemma_pick_index_nonneg(d: Seq<WordCount>, r: int)
    ensures
        pick_index(d, r) >= 0,
    decreases d.len(),
{
    if d.len() == 0 || r < d[0].count {
    } else {
        lemma_pick_index_nonneg(d.drop_first(), r - d[0].count);
    }
}

proof fn lemma_dist_total_drop_first(d: Seq<WordCount>)
    requires
        d.len() >= 1,
    ensures
        dist_total(d) == d[0].count + dist_total(d.drop_first()),
    decreases d.len(),
{
    if d.len() == 1 {
        assert(d.drop_first() =~= Seq::<WordCount>::empty());
        assert(d.drop_last() =~= Seq::<WordCount>::empty());
    } else {
        assert(d.drop_last().drop_first() =~= d.drop_first().drop_last());
        assert(d.drop_first().last() == d.last());
        lemma_dist_total_drop_first(d.drop_last());
    }
}

proof fn lemma_cum_weight_drop_first(d: Seq<WordCount>, j: int)
    requires
        1 <= j <= d.len(),
    ensures
        cum_weight(d, j) == d[0].count + cum_weight(d.drop_first(), j - 1),
{
    assert(d.subrange(0, j).drop_first() =~= d.drop_first().subrange(0, j - 1));
    assert(d.subrange(0, j)[0] == d[0]);
    lemma_dist_total_drop_first(d.subrange(0, j));
}

proof fn lemma_cum_weight_mono(d: Seq<WordCount>, a: int, b: int)
    requires
        0 <= a <= b <= d.len(),
    ensures
        cum_weight(d, a) <= cum_weight(d, b),
    decreases b - a,
{
    if a < b {
        assert(d.subrange(0, a + 1).drop_last() =~= d.subrange(0, a));
        lemma_cum_weight_mono(d, a + 1, b);
    }
}

/// Compute the total weight of a distribution.
fn dist_total_exec(d: &Vec<WordCount>) -> (t: usize)
    requires
        dist_total(d@) <= usize::MAX as nat,
    ensures
        t as nat == dist_total(d@),
{
    let mut t: usize = 0;
    for j in 0..d.len()
        invariant
            t as nat == dist_total(d@.subrange(0, j as int)),
            dist_total(d@) <= usize::MAX as nat,
    {
        proof {
            assert(d@.subrange(0, j + 1).drop_last() =~= d@.subrange(0, j as int));
            assert(d@.subrange(0, j + 1).last() == d@[j as int]);
            lemma_dist_total_prefix_le(d@, j + 1);
        }
        t = t + d[j].count;
    }
    proof {
        assert(d@.subrange(0, d@.len() as int) =~= d@);
    }
    t
}

/// Resolve a weighted draw: scan the distribution accumulating counts
/// until the draw value falls inside a slot, and return that slot's
/// word. Over a uniform draw below the total weight this selects each
/// word with probability proportional to its count (see
/// `lemma_pick_index_interval`).
pub fn pick_weighted(d: &Vec<WordCount>, r: usize) -> (w: String)
    requires
        d@.len() >= 1,
        (r as nat) < dist_total(d@),
    ensures
        ({
            let j = pick_index(d@, r as int);
            &&& 0 <= j < d@.len()
            &&& w@ == d@[j].word@
            &&& dist_count(d@, w@) >= d@[j].count
        }),
{
    let mut rv = r;
    proof {
        assert(d@.skip(0) =~= d@);
    }
    for j in 0..d.len()
        invariant
            d@.len() >= 1,
            j < d@.len(),
            pick_index(d@, r as int) == j + pick_index(d@.skip(j as int), rv as int),
            (rv as nat) < dist_total(d@.skip(j as int)),
            rv <= r,
    {
        proof {
            assert(d@.skip(j as int)[0] == d@[j as int]);
        }
        if rv < d[j].count {
            proof {
                assert(pick_index(d@.skip(j as int), rv as int) == 0);
                lemma_dist_count_at(d@, j as int);
            }
            return d[j].word.clone();
        }
        proof {
            let dj = d@.skip(j as int);
            assert(dj.drop_first() =~= d@.skip(j + 1));
            lemma_dist_total_drop_first(dj);
            assert(pick_index(dj, rv as int) == 1 + pick_index(d@.skip(j + 1), rv - d@[j as int].count));
            if j + 1 == d@.len() {
                assert(d@.skip(j + 1) =~= Seq::<WordCount>::empty());
                assert(dist_total(d@.skip(j + 1)) == 0);
                assert(false);
            }
        }
        rv = rv - d[j].count;
    }
    proof {
        assert(false);
    }
    unreached()
}

/// Clone a word sequence, keeping the exact characters.
fn clone_words(v: &Vec<String>) -> (r: Vec<String>)
    ensures
        r.deep_view() == v.deep_view(),
        r@.len() == v@.len(),
{
    let mut r: Vec<String> = Vec::new();
    for i in 0..v.len()
        invariant
            r@.len() == i,
            forall|j: int| 0 <= j < i ==> (#[trigger] r@[j])@ == v@[j]@,
    {
        r.push(v[i].clone());
    }
    proof {
        assert(r.deep_view() =~= v.deep_view());
    }
    r
}

/// The seed matches an entry primarily: the entry's first word,
/// lowercased once more, equals the lowercased seed.
pub open spec fn primary_match(e: StateEntry, sl: Seq<char>) -> bool {
    e.state_v().len() > 0 && lower_of(e.state_v()[0]) == sl
}

/// The seed occurs somewhere in the entry's state, compared against
/// the lowercased seed exactly.
pub open spec fn contains_match(e: StateEntry, sl: Seq<char>) -> bool {
    exists|j: int| 0 <= j < e.state_v().len() && e.state_v()[j] == sl
}

/// The states a generation run may start from, as the seed selects
/// them: entries whose first word matches the seed case-insensitively;
/// failing that, entries containing the lowercased seed anywhere;
/// failing that, any entry (and any entry when no seed was given).
pub open spec fn seed_candidate(t: Seq<StateEntry>, seed: Option<Seq<char>>, i: int) -> bool {
    match seed {
        Option::None => true,
        Option::Some(sd) => {
            let sl = lower_of(sd);
            if exists|k: int| 0 <= k < t.len() && primary_match(#[trigger] t[k], sl) {
                primary_match(t[i], sl)
            } else if exists|k: int| 0 <= k < t.len() && contains_match(#[trigger] t[k], sl) {
                contains_match(t[i], sl)
            } else {
                true
            }
        },
    }
}

/// Seed resolution is case-insensitive: two seeds with the same
/// lowercase form admit exactly the same initial states.
pub proof fn lemma_seed_case_insensitive(t: Seq<StateEntry>, s1: Seq<char>, s2: Seq<char>)
    requires
        lower_of(s1) == lower_of(s2),
    ensures
        forall|i: int| seed_candidate(t, Option::Some(s1), i) == seed_candidate(
            t,
            Option::Some(s2),
            i,
        ),
{
}

/// Some word recorded in some distribution of the table ends with the
/// terminator; only then can a terminator-bound walk ever stop early.
pub open spec fn term_reachable(t: Seq<StateEntry>, tm: Seq<char>) -> bool {
    exists|i: int, j: int|
        0 <= i < t.len() && 0 <= j < t[i].nexts@.len() && spec_has_suffix(
            (#[trigger] t[i].nexts@[j]).word@,
            tm,
        )
}

/// Every word of `ws` past the first `order` was recorded in the
/// table as following the `order` words just before it.
pub open spec fn is_table_walk(t: Seq<StateEntry>, ws: Seq<Seq<char>>, order: int) -> bool {
    forall|i: int| order <= i < ws.len() ==> table_count(t, #[trigger] ws.subrange(i - order, i), ws[i])
        > 0
}

/// What a successful generation returns: the space-joined words of a
/// walk that starts at a state of the table, follows recorded
/// transitions only, stays within the length bounds, and, when a
/// terminator was required, is long enough and ends in it.
pub open spec fn generation_ok(
    t: Seq<StateEntry>,
    opts: GenerationOptions,
    out: Seq<char>,
    order: int,
) -> bool {
    exists|ws: Seq<Seq<char>>|
        {
            &&& out == #[trigger] join_words(ws)
            &&& order <= ws.len() <= opts.max_words
            &&& has_state(t, ws.subrange(0, order))
            &&& is_table_walk(t, ws, order)
            &&& (opts.terminator matches Some(tm) ==> ws.len() >= opts.min_words
                && spec_has_suffix(ws.last(), tm@))
        }
}

/// The view of an optional seed.
pub open spec fn seed_view(seed: Option<String>) -> Option<Seq<char>> {
    match seed {
        Option::Some(s) => Option::Some(s@),
        Option::None => Option::None,
    }
}

/// Whether the lowercased seed occurs as a word of `state`.
fn word_in_state(state: &Vec<String>, w: &String) -> (b: bool)
    ensures
        b == exists|j: int| 0 <= j < state.deep_view().len() && state.deep_view()[j] == w@,
{
    for k in 0..state.len()
        invariant
            forall|j: int| 0 <= j < k ==> state.deep_view()[j] != w@,
    {
        proof {
            assert(state.deep_view()[k as int] == state@[k as int]@);
        }
        if (&state[k]).eq(w) {
            return true;
        }
    }
    false
}

/// Exact word-for-word equality of two states.
fn state_eq(a: &Vec<String>, b: &Vec<String>) -> (r: bool)
    ensures
        r == (a.deep_view() == b.deep_view()),
{
    if a.len() != b.len() {
        assert(a.deep_view().len() != b.deep_view().len());
        return false;
    }
    for i in 0..a.len()
        invariant
            a@.len() == b@.len(),
            forall|j: int| 0 <= j < i ==> a.deep_view()[j] == b.deep_view()[j],
    {
        if !(&a[i]).eq(&b[i]) {
            assert(a.deep_view()[i as int] != b.deep_view()[i as int]);
            return false;
        }
        assert(a.deep_view()[i as int] == b.deep_view()[i as int]);
    }
    proof {
        assert(a.deep_view() =~= b.deep_view());
    }
    true
}

/// Index of the entry holding `state`, if the table has one.
fn find_state_idx(entries: &Vec<StateEntry>, state: &Vec<String>) -> (r: Option<usize>)
    ensures
        match r {
            Some(i) => i < entries@.len() && entries@[i as int].state_v() == state.deep_view(),
            None => !has_state(entries@, state.deep_view()),
        },
{
    for i in 0..entries.len()
        invariant
            forall|j: int| 0 <= j < i ==> (#[trigger] entries@[j]).state_v() != state.deep_view(),
    {
        if state_eq(&entries[i].state, state) {
            return Some(i);
        }
    }
    None
}

/// Index of the word `next` in the distribution `d`, if present.
fn find_word_idx(d: &Vec<WordCount>, next: &String) -> (r: Option<usize>)
    ensures
        match r {
            Some(j) => j < d@.len() && d@[j as int].word@ == next@,
            None => forall|j: int| 0 <= j < d@.len() ==> (#[trigger] d@[j]).word@ != next@,
        },
{
    for j in 0..d.len()
        invariant
            forall|k: int| 0 <= k < j ==> (#[trigger] d@[k]).word@ != next@,
    {
        if (&d[j].word).eq(next) {
            return Some(j);
        }
    }
    None
}

/// The state of the window starting at position `k` of the token
/// stream `ws`: the `order` consecutive words from `k` on.
pub open spec fn window_state(ws: Seq<Seq<char>>, order: int, k: int) -> Seq<Seq<char>> {
    ws.subrange(k, k + order)
}

/// How many of the first `upto` windows of `ws` observe exactly the
/// state `s` followed by the word `w`.
pub open spec fn window_count(
    ws: Seq<Seq<char>>,
    order: int,
    upto: int,
    s: Seq<Seq<char>>,
    w: Seq<char>,
) -> nat
    decreases upto,
{
    if upto <= 0 {
        0
    } else {
        window_count(ws, order, upto - 1, s, w) + if window_state(ws, order, upto - 1) == s && ws[
            upto - 1 + order] == w {
            1nat
        } else {
            0nat
        }
    }
}

/// How many of the first `upto` windows of `ws` observe the state `s`,
/// whatever word follows.
pub open spec fn state_window_count(ws: Seq<Seq<char>>, order: int, upto: int, s: Seq<Seq<char>>) -> nat
    decreases upto,
{
    if upto <= 0 {
        0
    } else {
        state_window_count(ws, order, upto - 1, s) + if window_state(ws, order, upto - 1) == s {
            1nat
        } else {
            0nat
        }
    }
}

/// `t1` is `t0` with every window of the token stream `ws` recorded
/// once: each `(state, word)` count grows by exactly the number of
/// times that window was observed, each per-state total by the number
/// of times the state was observed, and the whole table by the number
/// of windows.
pub open spec fn trained_from(
    t0: Seq<StateEntry>,
    t1: Seq<StateEntry>,
    ws: Seq<Seq<char>>,
    order: int,
) -> bool {
    &&& forall|s: Seq<Seq<char>>, w: Seq<char>| #[trigger] table_count(t1, s, w) == table_count(
        t0,
        s,
        w,
    ) + window_count(ws, order, ws.len() - order, s, w)
    &&& forall|s: Seq<Seq<char>>| #[trigger] table_total(t1, s) == table_total(t0, s)
        + state_window_count(ws, order, ws.len() - order, s)
    &&& chain_sum(t1) == chain_sum(t0) + (ws.len() - order)
}

/// The token stream actually folded into the table: if the last word
/// does not already end in ASCII punctuation, a period is appended to
/// it, marking the default terminator.
pub open spec fn close_last(ws: Seq<Seq<char>>) -> Seq<Seq<char>> {
    if ws.len() == 0 {
        ws
    } else {
        let lw = ws.last();
        if lw.len() > 0 && is_ascii_punct(lw.last()) {
            ws
        } else {
            ws.update(ws.len() - 1, lw.push('.'))
        }
    }
}

/// What one call that feeds the text `text` to a table of the given
/// order does: nothing when the stream is too short to form a window
/// (or its weight would not fit in a `usize`); otherwise every window
/// of the closed stream is recorded exactly once.
pub open spec fn add_text_effect(
    t0: Seq<StateEntry>,
    t1: Seq<StateEntry>,
    text: Seq<char>,
    order: int,
) -> bool {
    let toks = tokens_of(text);
    if toks.len() <= order {
        t1 == t0
    } else {
        let ws = close_last(toks);
        if chain_sum(t0) + (ws.len() - order) <= usize::MAX as nat {
            trained_from(t0, t1, ws, order) && t1.len() > 0
        } else {
            t1 == t0
        }
    }
}

/// The Markov chain: a transition table and the fixed order of its
/// states.
pub struct MarkovChain {
    entries: Vec<StateEntry>,
    total: usize,
    order: u8,
}

impl MarkovChain {
    /// The transition table as a mathematical sequence of entries.
    pub closed spec fn tbl(self) -> Seq<StateEntry> {
        self.entries@
    }

    /// The order fixed at construction time.
    pub closed spec fn order_spec(self) -> u8 {
        self.order
    }

    /// The table is well-formed and the cached total weight is exact.
    pub closed spec fn wf(self) -> bool {
        &&& table_wf(self.tbl(), self.order)
        &&& self.total as nat == chain_sum(self.tbl())
    }

    /// A fresh, untrained chain of the order the options fix.
    pub fn new(opts: TrainingOptions) -> (c: Self)
        requires
            opts.order >= 1,
        ensures
            c.wf(),
            c.tbl().len() == 0,
            c.order_spec() == opts.order,
    {
        MarkovChain { entries: Vec::new(), total: 0, order: opts.order }
    }

    /// Whether no state was ever recorded.
    pub fn is_empty(&self) -> (r: bool)
        ensures
            r == (self.tbl().len() == 0),
    {
        self.entries.len() == 0
    }

    /// The order of the chain.
    pub fn order(&self) -> (r: u8)
        ensures
            r == self.order_spec(),
    {
        self.order
    }

    /// Record one observation that `next` followed `state`: the count
    /// of `next` under `state` grows by exactly one and nothing else
    /// changes.
    pub fn record(&mut self, state: Vec<String>, next: String)
        requires
            old(self).wf(),
            chain_sum(old(self).tbl()) < usize::MAX as nat,
            state.deep_view().len() == old(self).order_spec() as int,
        ensures
            final(self).wf(),
            final(self).order_spec() == old(self).order_spec(),
            final(self).tbl().len() >= 1,
            chain_sum(final(self).tbl()) == chain_sum(old(self).tbl()) + 1,
            forall|s: Seq<Seq<char>>, w: Seq<char>| #[trigger] table_count(final(self).tbl(), s, w)
                == table_count(old(self).tbl(), s, w) + (if s == state.deep_view() && w == next@ {
                1nat
            } else {
                0nat
            }),
            forall|s: Seq<Seq<char>>| #[trigger] table_total(final(self).tbl(), s) == table_total(
                old(self).tbl(),
                s,
            ) + (if s == state.deep_view() {
                1nat
            } else {
                0nat
            }),
            forall|s: Seq<Seq<char>>| #[trigger] has_state(final(self).tbl(), s) <==> has_state(
                old(self).tbl(),
                s,
            ) || s == state.deep_view(),
    {
        let ghost t0 = self.entries@;
        let ghost sv = state.deep_view();
        match find_state_idx(&self.entries, &state) {
            Some(i) => {
                let ghost e0 = t0[i as int];
                match find_word_idx(&self.entries[i].nexts, &next) {
                    Some(j) => {
                        proof {
                            lemma_count_le_dist_total(e0.nexts@, j as int);
                            lemma_dist_total_le_chain_sum(t0, i as int);
                        }
                        let c = self.entries[i].nexts[j].count;
                        self.entries[i].nexts[j].count = c + 1;
                        self.total = self.total + 1;
                        proof {
                            let e1 = self.entries@[i as int];
                            assert(self.entries@ =~= t0.update(i as int, e1));
                            assert(e1.nexts@ =~= e0.nexts@.update(
                                j as int,
                                e1.nexts@[j as int],
                            ));
                            lemma_dist_update(e0.nexts@, j as int, e1.nexts@[j as int]);
                            lemma_table_update(t0, i as int, e1);
                            assert(forall|k: int| 0 <= k < self.entries@.len() ==> (
                            #[trigger] self.entries@[k]).state_v() == t0[k].state_v());
                            assert(e1.nexts@[j as int].count == c + 1);
                            assert(dist_total(e1.nexts@) == dist_total(e0.nexts@) + 1);
                            assert(chain_sum(self.entries@) == chain_sum(t0) + 1);
                            assert(forall|k: int| 0 <= k < e1.nexts@.len() ==> (
                            #[trigger] e1.nexts@[k]).word@ == e0.nexts@[k].word@);
                            assert(dist_wf(e1.nexts@));
                            assert(table_wf(self.entries@, self.order));
                            assert forall|s: Seq<Seq<char>>, w: Seq<char>| #[trigger] table_count(
                                self.entries@,
                                s,
                                w,
                            ) == table_count(t0, s, w) + (if s == sv && w == next@ {
                                1nat
                            } else {
                                0nat
                            }) by {
                                let tu = t0.update(i as int, e1);
                                assert(table_count(tu, s, w) == table_count(t0, s, w) + (if t0[i as int].state_v()
                                    == s {
                                    dist_count(e1.nexts@, w) - dist_count(e0.nexts@, w)
                                } else {
                                    0int
                                }));
                                assert(dist_count(
                                    e0.nexts@.update(j as int, e1.nexts@[j as int]),
                                    w,
                                ) == dist_count(e0.nexts@, w) + (if e0.nexts@[j as int].word@
                                    == w {
                                    e1.nexts@[j as int].count - e0.nexts@[j as int].count
                                } else {
                                    0int
                                }));
                                assert(table_count(self.entries@, s, w) == table_count(tu, s, w));
                            }
                            assert forall|s: Seq<Seq<char>>| #[trigger] has_state(
                                self.entries@,
                                s,
                            ) <==> has_state(t0, s) || s == sv by {
                                if has_state(t0, s) {
                                    let k = choose|k: int| 0 <= k < t0.len() && (#[trigger] t0[k]).state_v()
                                        == s;
                                    assert(self.entries@[k].state_v() == s);
                                }
                                if has_state(self.entries@, s) {
                                    let k = choose|k: int|
                                        0 <= k < self.entries@.len() && (
                                        #[trigger] self.entries@[k]).state_v() == s;
                                    assert(t0[k].state_v() == s);
                                }
                                if s == sv {
                                    assert(self.entries@[i as int].state_v() == s);
                                }
                            }
                        }
                    },
                    None => {
                        self.entries[i].nexts.push(WordCount { word: next, count: 1 });
                        self.total = self.total + 1;
                        proof {
                            let e1 = self.entries@[i as int];
                            assert(self.entries@ =~= t0.update(i as int, e1));
                            assert(e1.nexts@ =~= e0.nexts@.push(e1.nexts@.last()));
                            lemma_dist_push(e0.nexts@, e1.nexts@.last());
                            lemma_table_update(t0, i as int, e1);
                            assert(forall|k: int| 0 <= k < self.entries@.len() ==> (
                            #[trigger] self.entries@[k]).state_v() == t0[k].state_v());
                            assert(e1.nexts@.last().count == 1);
                            assert(e1.nexts@.last().word@ == next@);
                            assert(dist_total(e1.nexts@) == dist_total(e0.nexts@) + 1);
                            assert(chain_sum(self.entries@) == chain_sum(t0) + 1);
                            assert(forall|k: int| 0 <= k < e0.nexts@.len() ==> (
                            #[trigger] e1.nexts@[k]).word@ == e0.nexts@[k].word@);
                            assert(dist_wf(e1.nexts@));
                            assert(table_wf(self.entries@, self.order));
                            assert forall|s: Seq<Seq<char>>, w: Seq<char>| #[trigger] table_count(
                                self.entries@,
                                s,
                                w,
                            ) == table_count(t0, s, w) + (if s == sv && w == next@ {
                                1nat
                            } else {
                                0nat
                            }) by {
                                let tu = t0.update(i as int, e1);
                                assert(table_count(tu, s, w) == table_count(t0, s, w) + (if t0[i as int].state_v()
                                    == s {
                                    dist_count(e1.nexts@, w) - dist_count(e0.nexts@, w)
                                } else {
                                    0int
                                }));
                                assert(dist_count(e0.nexts@.push(e1.nexts@.last()), w)
                                    == dist_count(e0.nexts@, w) + (if e1.nexts@.last().word@ == w {
                                    e1.nexts@.last().count as nat
                                } else {
                                    0nat
                                }));
                                assert(table_count(self.entries@, s, w) == table_count(tu, s, w));
                            }
                            assert forall|s: Seq<Seq<char>>| #[trigger] has_state(
                                self.entries@,
                                s,
                            ) <==> has_state(t0, s) || s == sv by {
                                if has_state(t0, s) {
                                    let k = choose|k: int| 0 <= k < t0.len() && (#[trigger] t0[k]).state_v()
                                        == s;
                                    assert(self.entries@[k].state_v() == s);
                                }
                                if has_state(self.entries@, s) {
                                    let k = choose|k: int|
                                        0 <= k < self.entries@.len() && (
                                        #[trigger] self.entries@[k]).state_v() == s;
                                    assert(t0[k].state_v() == s);
                                }
                                if s == sv {
                                    assert(self.entries@[i as int].state_v() == s);
                                }
                            }
                        }
                    },
                }
            },
            None => {
                let mut nexts: Vec<WordCount> = Vec::new();
                nexts.push(WordCount { word: next, count: 1 });
                let entry = StateEntry { state, nexts };
                self.entries.push(entry);
                self.total = self.total + 1;
                proof {
                    let e1 = self.entries@.last();
                    assert(self.entries@ =~= t0.push(e1));
                    assert(e1.nexts@.drop_last() =~= Seq::<WordCount>::empty());
                    lemma_table_push(t0, e1);
                    assert(e1.state_v() == sv);
                    assert(e1.nexts@.len() == 1);
                    assert(e1.nexts@.last().count == 1);
                    assert(dist_total(Seq::<WordCount>::empty()) == 0);
                    assert(dist_total(e1.nexts@) == 1);
                    assert(chain_sum(self.entries@) == chain_sum(t0) + 1);
                    assert(dist_wf(e1.nexts@));
                    assert(forall|k: int| 0 <= k < t0.len() ==> (#[trigger] self.entries@[k]).state_v()
                        == t0[k].state_v());
                    assert(table_wf(self.entries@, self.order));
                    assert forall|s: Seq<Seq<char>>, w: Seq<char>| #[trigger] table_count(
                        self.entries@,
                        s,
                        w,
                    ) == table_count(t0, s, w) + (if s == sv && w == next@ {
                        1nat
                    } else {
                        0nat
                    }) by {
                        assert(table_count(t0.push(e1), s, w) == table_count(t0, s, w) + (
                        if e1.state_v() == s {
                            dist_count(e1.nexts@, w)
                        } else {
                            0nat
                        }));
                        assert(dist_count(e1.nexts@, w) == dist_count(e1.nexts@.drop_last(), w)
                            + if e1.nexts@.last().word@ == w {
                            e1.nexts@.last().count as nat
                        } else {
                            0nat
                        });
                        assert(dist_count(Seq::<WordCount>::empty(), w) == 0);
                        assert(table_count(self.entries@, s, w) == table_count(t0.push(e1), s, w));
                    }
                    assert forall|s: Seq<Seq<char>>| #[trigger] has_state(self.entries@, s)
                        <==> has_state(t0, s) || s == sv by {
                        if has_state(t0, s) {
                            let k = choose|k: int| 0 <= k < t0.len() && (#[trigger] t0[k]).state_v()
                                == s;
                            assert(self.entries@[k].state_v() == s);
                        }
                        if has_state(self.entries@, s) {
                            let k = choose|k: int|
                                0 <= k < self.entries@.len() && (
                                #[trigger] self.entries@[k]).state_v() == s;
                            if k < t0.len() {
                                assert(t0[k].state_v() == s);
                            }
                        }
                        if s == sv {
                            assert(self.entries@[t0.len() as int].state_v() == s);
                        }
                    }
                }
            },
        }
    }

    /// Fold one text into the table: tokenize it on whitespace,
    /// lowercase the tokens, close the stream with a period if needed,
    /// and record every window of `order` consecutive words and the
    /// word that follows it. A stream of at most `order` tokens is too
    /// short and leaves the table unchanged.
    pub fn add_text(&mut self, text: &str)
        requires
            old(self).wf(),
        ensures
            final(self).wf(),
            final(self).order_spec() == old(self).order_spec(),
            add_text_effect(
                old(self).tbl(),
                final(self).tbl(),
                text@,
                old(self).order_spec() as int,
            ),
    {
        let ghost t0 = self.entries@;
        let ghost order = self.order as int;
        let mut words = split_lower(text);
        let order_us: usize = self.order as usize;
        if words.len() <= order_us {
            return ;
        }
        let li = words.len() - 1;
        let lw_len = words[li].as_str().unicode_len();
        proof {
            assert(words.deep_view()[li as int] == words@[li as int]@);
        }
        let c = words[li].as_str().get_char(lw_len - 1);
        if !check_ascii_punct(c) {
            let mut nw = words[li].clone();
            nw.append(".");
            words.pop();
            words.push(nw);
            proof {
                reveal_strlit(".");
                assert("."@ =~= seq!['.']);
                let toks = tokens_of(text@);
                assert(nw@ =~= toks.last().push('.'));
                assert(words.deep_view() =~= close_last(toks));
            }
        } else {
            proof {
                let toks = tokens_of(text@);
                assert(toks.last().len() > 0 && is_ascii_punct(toks.last().last()));
                assert(words.deep_view() =~= close_last(toks));
            }
        }
        let ghost ws = words.deep_view();
        proof {
            assert(ws.len() == tokens_of(text@).len());
        }
        let nwin = words.len() - order_us;
        if self.total > usize::MAX - nwin {
            return ;
        }
        assert(chain_sum(t0) + nwin <= usize::MAX as nat);
        for k in 0..nwin
            invariant
                self.wf(),
                self.order_spec() == order,
                words.deep_view() == ws,
                words@.len() == ws.len(),
                order_us == order,
                1 <= order_us,
                nwin == ws.len() - order,
                nwin >= 1,
                chain_sum(t0) + nwin <= usize::MAX as nat,
                chain_sum(self.tbl()) == chain_sum(t0) + k,
                forall|s: Seq<Seq<char>>, w: Seq<char>| #[trigger] table_count(self.tbl(), s, w)
                    == table_count(t0, s, w) + window_count(ws, order, k as int, s, w),
                forall|s: Seq<Seq<char>>| #[trigger] table_total(self.tbl(), s) == table_total(
                    t0,
                    s,
                ) + state_window_count(ws, order, k as int, s),
                k > 0 ==> self.tbl().len() > 0,
        {
            let ghost tk = self.tbl();
            let wl = words.len();
            assert(k + order_us < wl);
            let hi = k + order_us;
            let mut st: Vec<String> = Vec::new();
            for j in k..hi
                invariant
                    hi == k + order_us,
                    k + order_us < words@.len(),
                    words.deep_view() == ws,
                    st@.len() == j - k,
                    forall|j2: int| 0 <= j2 < st@.len() ==> (#[trigger] st@[j2])@ == ws[k + j2],
            {
                let wj = words[j].clone();
                proof {
                    assert(words.deep_view()[j as int] == words@[j as int]@);
                }
                st.push(wj);
            }
            proof {
                assert(st.deep_view() =~= window_state(ws, order, k as int));
            }
            let nx = words[k + order_us].clone();
            proof {
                assert(words.deep_view()[(k + order_us) as int] == words@[(k + order_us) as int]@);
                assert(nx@ == ws[k as int + order]);
            }
            let ghost sv = st.deep_view();
            let ghost wv = nx@;
            self.record(st, nx);
            proof {
                assert forall|s: Seq<Seq<char>>, w: Seq<char>| #[trigger] table_count(
                    self.tbl(),
                    s,
                    w,
                ) == table_count(t0, s, w) + window_count(ws, order, k + 1int, s, w) by {
                    assert(table_count(self.tbl(), s, w) == table_count(tk, s, w) + (if s == sv
                        && w == wv {
                        1nat
                    } else {
                        0nat
                    }));
                    assert(window_count(ws, order, k + 1int, s, w) == window_count(
                        ws,
                        order,
                        k as int,
                        s,
                        w,
                    ) + (if window_state(ws, order, k as int) == s && ws[k as int + order] == w {
                        1nat
                    } else {
                        0nat
                    }));
                }
                assert forall|s: Seq<Seq<char>>| #[trigger] table_total(self.tbl(), s)
                    == table_total(t0, s) + state_window_count(ws, order, k + 1int, s) by {
                    assert(table_total(self.tbl(), s) == table_total(tk, s) + (if s == sv {
                        1nat
                    } else {
                        0nat
                    }));
                    assert(state_window_count(ws, order, k + 1int, s) == state_window_count(
                        ws,
                        order,
                        k as int,
                        s,
                    ) + (if window_state(ws, order, k as int) == s {
                        1nat
                    } else {
                        0nat
                    }));
                }
            }
        }
        proof {
            assert(trained_from(t0, self.tbl(), ws, order));
        }
    }

    /// Train on a whole corpus: normalize every text as the options
    /// ask, join the results into one continuous token stream, and
    /// fold that stream into the table. Whitespace-only texts are
    /// skipped; everything recorded is stated by `add_text_effect`
    /// over the combined stream.
    pub fn train(&mut self, texts: &Vec<String>, opts: &TrainingOptions)
        requires
            old(self).wf(),
        ensures
            final(self).wf(),
            final(self).order_spec() == old(self).order_spec(),
            add_text_effect(
                old(self).tbl(),
                final(self).tbl(),
                corpus_concat(texts.deep_view(), *opts),
                old(self).order_spec() as int,
            ),
    {
        let corpus = build_corpus(texts, opts);
        self.add_text(corpus.as_str());
    }

    /// Look up the next-word distribution recorded for an exact state,
    /// read-only: the returned distribution carries exactly the
    /// table's counts for that state.
    pub fn lookup(&self, state: &Vec<String>) -> (r: Option<&Vec<WordCount>>)
        requires
            self.wf(),
        ensures
            match r {
                Some(d) => has_state(self.tbl(), state.deep_view()) && dist_total(d@)
                    == table_total(self.tbl(), state.deep_view()) && forall|w: Seq<char>|
                    #[trigger] dist_count(d@, w) == table_count(
                        self.tbl(),
                        state.deep_view(),
                        w,
                    ),
                None => !has_state(self.tbl(), state.deep_view()),
            },
    {
        match find_state_idx(&self.entries, state) {
            Some(i) => {
                proof {
                    lemma_table_count_at(self.entries@, i as int);
                }
                Some(&self.entries[i].nexts)
            },
            None => None,
        }
    }

    /// Every recorded state, in the table's enumeration order; the
    /// order is unspecified but stable within one run.
    pub fn all_states(&self) -> (r: Vec<Vec<String>>)
        ensures
            r@.len() == self.tbl().len(),
            forall|i: int| 0 <= i < r@.len() ==> (#[trigger] r@[i]).deep_view()
                == self.tbl()[i].state_v(),
    {
        let mut r: Vec<Vec<String>> = Vec::new();
        for i in 0..self.entries.len()
            invariant
                r@.len() == i,
                forall|j: int| 0 <= j < i ==> (#[trigger] r@[j]).deep_view()
                    == self.entries@[j].state_v(),
        {
            r.push(clone_words(&self.entries[i].state));
        }
        r
    }

    /// Select the entry a walk starts from, as the seed dictates:
    /// uniformly among the first-word matches; failing those, among
    /// the states containing the seed; failing those, among all
    /// entries.
    fn resolve_start(&self, seed: &Option<String>, rng: &mut rand::rngs::ThreadRng) -> (i: usize)
        requires
            self.wf(),
            self.tbl().len() >= 1,
        ensures
            i < self.tbl().len(),
            seed_candidate(self.tbl(), seed_view(*seed), i as int),
    {
        let n = self.entries.len();
        match seed {
            None => rand_below(rng, n),
            Some(s) => {
                let sl = lowercase(s.as_str());
                let ghost slv = lower_of(s@);
                let mut prim: Vec<usize> = Vec::new();
                for k in 0..n
                    invariant
                        n == self.tbl().len(),
                        sl@ == slv,
                        forall|x: int| 0 <= x < prim@.len() ==> (#[trigger] prim@[x]) < n
                            && primary_match(self.tbl()[prim@[x] as int], slv),
                        prim@.len() == 0 ==> forall|k2: int| 0 <= k2 < k ==> !primary_match(
                            #[trigger] self.tbl()[k2],
                            slv,
                        ),
                {
                    if self.entries[k].state.len() > 0 {
                        proof {
                            assert(self.entries@[k as int].state_v()[0] == self.entries@[k as int].state@[0]@);
                        }
                        let w0 = lowercase(self.entries[k].state[0].as_str());
                        if w0.eq(&sl) {
                            prim.push(k);
                        }
                    }
                }
                if prim.len() > 0 {
                    let x = rand_below(rng, prim.len());
                    let i = prim[x];
                    proof {
                        assert(primary_match(self.tbl()[i as int], slv));
                    }
                    return i;
                }
                assert(forall|k2: int| 0 <= k2 < self.tbl().len() ==> !primary_match(
                    #[trigger] self.tbl()[k2],
                    slv,
                ));
                let mut seco: Vec<usize> = Vec::new();
                for k in 0..n
                    invariant
                        n == self.tbl().len(),
                        sl@ == slv,
                        forall|x: int| 0 <= x < seco@.len() ==> (#[trigger] seco@[x]) < n
                            && contains_match(self.tbl()[seco@[x] as int], slv),
                        seco@.len() == 0 ==> forall|k2: int| 0 <= k2 < k ==> !contains_match(
                            #[trigger] self.tbl()[k2],
                            slv,
                        ),
                        forall|k2: int| 0 <= k2 < self.tbl().len() ==> !primary_match(
                            #[trigger] self.tbl()[k2],
                            slv,
                        ),
                {
                    proof {
                        assert(self.entries@[k as int].state_v() == self.entries@[k as int].state.deep_view());
                    }
                    if word_in_state(&self.entries[k].state, &sl) {
                        seco.push(k);
                    }
                }
                if seco.len() > 0 {
                    let x = rand_below(rng, seco.len());
                    let i = seco[x];
                    proof {
                        assert(contains_match(self.tbl()[i as int], slv));
                    }
                    return i;
                }
                assert(forall|k2: int| 0 <= k2 < self.tbl().len() ==> !contains_match(
                    #[trigger] self.tbl()[k2],
                    slv,
                ));
                rand_below(rng, n)
            },
        }
    }

    /// One generation attempt: resolve a start state, then walk the
    /// table, sampling each next word with probability proportional to
    /// its recorded count, until the length bound, a dead end, or a
    /// satisfied terminator stops the walk.
    pub fn generate(&self, opts: &GenerationOptions) -> (r: Result<String, RyazonError>)
        requires
            self.wf(),
            self.tbl().len() > 0 ==> opts.max_words >= self.order_spec() as usize,
        ensures
            (self.tbl().len() == 0) == (r is Err && r->Err_0 is EmptyChain),
            r matches Ok(out) ==> generation_ok(
                self.tbl(),
                *opts,
                out@,
                self.order_spec() as int,
            ),
            (self.tbl().len() > 0 && opts.terminator is None) ==> r is Ok,
            (self.tbl().len() > 0 && r is Err) ==> (r->Err_0 is TerminatorNotFound
                && opts.terminator is Some),
            self.tbl().len() > 0 && opts.terminator is Some && !term_reachable(
                self.tbl(),
                opts.terminator->0@,
            ) ==> (r is Err && r->Err_0 is TerminatorNotFound),
    {
        if self.entries.len() == 0 {
            return Err(RyazonError::EmptyChain);
        }
        let ghost t = self.tbl();
        let ghost order = self.order as int;
        let mut rng = fresh_rng();
        let start = self.resolve_start(&opts.seed, &mut rng);
        let mut cur = clone_words(&self.entries[start].state);
        let mut result = clone_words(&cur);
        proof {
            assert(cur.deep_view() == t[start as int].state_v());
            assert(result.deep_view().subrange(0, order) =~= t[start as int].state_v());
            assert(cur.deep_view() =~= result.deep_view().subrange(
                result.deep_view().len() - order,
                result.deep_view().len() as int,
            ));
        }
        let order_us: usize = self.order as usize;
        let steps = opts.max_words - order_us;
        let mut terminator_found = false;
        let mut done = false;
        let mut n: usize = 0;
        while n < steps && !done
            invariant
                self.wf(),
                t == self.tbl(),
                order == self.order_spec() as int,
                order_us == order,
                steps == opts.max_words - order_us,
                opts.max_words >= order_us,
                n <= steps,
                t.len() > 0,
                cur@.len() == order_us,
                order <= result.deep_view().len() <= order + n,
                !done ==> cur.deep_view() == result.deep_view().subrange(
                    result.deep_view().len() - order,
                    result.deep_view().len() as int,
                ),
                has_state(t, result.deep_view().subrange(0, order)),
                is_table_walk(t, result.deep_view(), order),
                terminator_found ==> opts.terminator is Some && result@.len() >= opts.min_words
                    && spec_has_suffix(result.deep_view().last(), opts.terminator->0@),
                opts.terminator is Some && !term_reachable(t, opts.terminator->0@)
                    ==> !terminator_found,
                terminator_found ==> done,
            decreases steps - n + (if done {
                0int
            } else {
                1int
            }),
        {
            match find_state_idx(&self.entries, &cur) {
                Some(ei) => {
                    proof {
                        lemma_dist_total_le_chain_sum(t, ei as int);
                        lemma_count_le_dist_total(t[ei as int].nexts@, 0);
                    }
                    let total = dist_total_exec(&self.entries[ei].nexts);
                    let rv = rand_below(&mut rng, total);
                    let word = pick_weighted(&self.entries[ei].nexts, rv);
                    let ghost pj = pick_index(t[ei as int].nexts@, rv as int);
                    let ghost prev = result.deep_view();
                    let ghost cur_v = cur.deep_view();
                    result.push(word.clone());
                    n = n + 1;
                    proof {
                        let newv = result.deep_view();
                        assert(newv =~= prev.push(word@));
                        lemma_table_count_at(t, ei as int);
                        assert(t[ei as int].nexts@[pj].count >= 1);
                        assert(dist_count(t[ei as int].nexts@, word@) >= 1);
                        assert(table_count(t, cur_v, word@) >= 1);
                        assert forall|i: int| order <= i < newv.len() implies table_count(
                            t,
                            #[trigger] newv.subrange(i - order, i),
                            newv[i],
                        ) > 0 by {
                            if i < prev.len() {
                                assert(newv.subrange(i - order, i) =~= prev.subrange(
                                    i - order,
                                    i,
                                ));
                                assert(newv[i] == prev[i]);
                            } else {
                                assert(i == prev.len());
                                assert(newv.subrange(i - order, i) =~= cur_v);
                                assert(newv[i] == word@);
                            }
                        }
                        assert(newv.subrange(0, order) =~= prev.subrange(0, order));
                    }
                    let mut stop = false;
                    match &opts.terminator {
                        Some(tm) => {
                            if result.len() >= opts.min_words {
                                if has_suffix(word.as_str(), tm.as_str()) {
                                    terminator_found = true;
                                    stop = true;
                                    proof {
                                        assert(t[ei as int].nexts@[pj].word@ == word@);
                                        assert(term_reachable(t, tm@));
                                        assert(result.deep_view().last() == result@[result@.len()
                                            - 1]@);
                                        assert(result.deep_view().last() == word@);
                                        assert(opts.terminator->0 == *tm);
                                        assert(spec_has_suffix(word@, tm@));
                                        assert(spec_has_suffix(
                                            result.deep_view().last(),
                                            opts.terminator->0@,
                                        ));
                                    }
                                }
                            }
                        },
                        None => {},
                    }
                    if stop {
                        done = true;
                    } else {
                        let ghost cv0 = cur@;
                        let ghost word_v = word@;
                        cur.remove(0);
                        let ghost cv1 = cur@;
                        cur.push(word);
                        proof {
                            let newv = result.deep_view();
                            assert(newv == prev.push(word_v));
                            assert(cv1 == cv0.remove(0));
                            assert(cv1 =~= cv0.subrange(1, cv0.len() as int));
                            assert(cur@ == cv1.push(cur@[cur@.len() - 1]));
                            assert(cur@[cur@.len() - 1]@ == word_v);
                            assert forall|x: int| 0 <= x < order implies cur@[x]@ == newv[newv.len()
                                - order + x] by {
                                if x < order - 1 {
                                    assert(cur@[x] == cv1[x]);
                                    assert(cv1[x] == cv0[x + 1]);
                                    assert(cur_v[x + 1] == cv0[x + 1]@);
                                    assert(cur_v == prev.subrange(
                                        prev.len() - order,
                                        prev.len() as int,
                                    ));
                                    assert(cur_v[x + 1] == prev[prev.len() - order + x + 1]);
                                    assert(newv[newv.len() - order + x] == prev[prev.len() - order
                                        + x + 1]);
                                } else {
                                    assert(cur@[x]@ == word_v);
                                    assert(newv[newv.len() - 1] == word_v);
                                }
                            }
                            assert(cur.deep_view() =~= newv.subrange(
                                newv.len() - order,
                                newv.len() as int,
                            ));
                        }
                    }
                },
                None => {
                    done = true;
                },
            }
        }
        match &opts.terminator {
            Some(tm) => {
                if terminator_found {
                    let out = join_with_spaces(&result);
                    proof {
                        let ws = result.deep_view();
                        assert(out@ == join_words(ws));
                        assert(generation_ok(t, *opts, out@, order));
                    }
                    Ok(out)
                } else {
                    Err(RyazonError::TerminatorNotFound(terminator_message(tm)))
                }
            },
            None => {
                let out = join_with_spaces(&result);
                proof {
                    let ws = result.deep_view();
                    assert(out@ == join_words(ws));
                    assert(generation_ok(t, *opts, out@, order));
                }
                Ok(out)
            },
        }
    }
}

/// What one iteration of a multi-iteration run may record: a success
/// carries a correctly generated text; an error is `EmptyChain`
/// exactly when the table is empty, and otherwise the terminator
/// failure after exhausted retries; with no terminator required, a
/// non-empty table always yields a success; and a terminator no
/// distribution can reach always yields the terminator failure.
pub open spec fn iteration_ok(
    t: Seq<StateEntry>,
    opts: GenerationOptions,
    o: RyazonOutput,
    order: int,
) -> bool {
    &&& (o matches RyazonOutput::Success(s) ==> t.len() > 0 && generation_ok(t, opts, s@, order))
    &&& (o matches RyazonOutput::Error(e) ==> ((e is EmptyChain <==> t.len() == 0) && (t.len() > 0
        ==> e is TerminatorNotFound && opts.terminator is Some)))
    &&& (t.len() > 0 && opts.terminator is None ==> o is Success)
    &&& (t.len() > 0 && opts.terminator is Some && !term_reachable(t, opts.terminator->0@) ==> (o
        is Error && o->Error_0 is TerminatorNotFound))
}

impl MarkovChain {
    /// Generation under the bounded retry policy, reporting how many
    /// attempts were made: when a required terminator is not reached,
    /// the whole attempt is repeated; a terminator failure is returned
    /// only after exactly the retry limit's worth of attempts, and the
    /// structural `EmptyChain` failure is never retried.
    pub fn generate_counting_retries(&self, opts: &GenerationOptions) -> (r: (
        Result<String, RyazonError>,
        u16,
    ))
        requires
            self.wf(),
            self.tbl().len() > 0 ==> opts.max_words >= self.order_spec() as usize,
        ensures
            1 <= r.1 <= TERMINATOR_RETRY_LIMIT,
            (self.tbl().len() == 0) == (r.0 is Err && r.0->Err_0 is EmptyChain),
            self.tbl().len() == 0 ==> r.1 == 1,
            r.0 matches Ok(out) ==> generation_ok(
                self.tbl(),
                *opts,
                out@,
                self.order_spec() as int,
            ),
            (self.tbl().len() > 0 && opts.terminator is None) ==> r.0 is Ok,
            (self.tbl().len() > 0 && r.0 is Err) ==> (r.0->Err_0 is TerminatorNotFound
                && opts.terminator is Some && r.1 == TERMINATOR_RETRY_LIMIT),
            self.tbl().len() > 0 && opts.terminator is Some && !term_reachable(
                self.tbl(),
                opts.terminator->0@,
            ) ==> (r.0 is Err && r.0->Err_0 is TerminatorNotFound),
    {
        let mut res = self.generate(opts);
        let mut attempts: u16 = 1;
        if self.entries.len() == 0 {
            return (res, attempts);
        }
        let mut failed = res.is_err();
        while attempts < TERMINATOR_RETRY_LIMIT && failed
            invariant
                self.wf(),
                self.tbl().len() > 0,
                opts.max_words >= self.order_spec() as usize,
                1 <= attempts <= TERMINATOR_RETRY_LIMIT,
                failed == (res is Err),
                res matches Ok(out) ==> generation_ok(
                    self.tbl(),
                    *opts,
                    out@,
                    self.order_spec() as int,
                ),
                res is Err ==> (res->Err_0 is TerminatorNotFound && opts.terminator is Some),
                opts.terminator is None ==> res is Ok,
                opts.terminator is Some && !term_reachable(self.tbl(), opts.terminator->0@) ==> (
                res is Err && res->Err_0 is TerminatorNotFound),
            decreases TERMINATOR_RETRY_LIMIT - attempts,
        {
            res = self.generate(opts);
            attempts = attempts + 1;
            failed = res.is_err();
        }
        (res, attempts)
    }

    /// Generation under the bounded retry policy, returning only the
    /// final outcome.
    pub fn generate_with_retry(&self, opts: &GenerationOptions) -> (r: Result<
        String,
        RyazonError,
    >)
        requires
            self.wf(),
            self.tbl().len() > 0 ==> opts.max_words >= self.order_spec() as usize,
        ensures
            (self.tbl().len() == 0) == (r is Err && r->Err_0 is EmptyChain),
            r matches Ok(out) ==> generation_ok(
                self.tbl(),
                *opts,
                out@,
                self.order_spec() as int,
            ),
            (self.tbl().len() > 0 && opts.terminator is None) ==> r is Ok,
            (self.tbl().len() > 0 && r is Err) ==> (r->Err_0 is TerminatorNotFound
                && opts.terminator is Some),
            self.tbl().len() > 0 && opts.terminator is Some && !term_reachable(
                self.tbl(),
                opts.terminator->0@,
            ) ==> (r is Err && r->Err_0 is TerminatorNotFound),
    {
        let (res, _attempts) = self.generate_counting_retries(opts);
        res
    }

    /// One full invocation: reject an inconsistent length bound before
    /// any table lookup or random draw, then run the requested number
    /// of independent generations with retry, recording one tagged
    /// result per iteration in order.
    pub fn run(&self, opts: &GenerationOptions) -> (r: Result<Vec<RyazonOutput>, RyazonError>)
        requires
            self.wf(),
            opts.max_words >= opts.min_words && self.tbl().len() > 0 ==> opts.max_words
                >= self.order_spec() as usize,
        ensures
            (opts.max_words < opts.min_words) == (r is Err),
            r is Err ==> r->Err_0 is MaxMinWords,
            r matches Ok(v) ==> v@.len() == opts.iterations as int && forall|k: int|
                0 <= k < v@.len() ==> iteration_ok(
                    self.tbl(),
                    *opts,
                    #[trigger] v@[k],
                    self.order_spec() as int,
                ),
    {
        if opts.max_words < opts.min_words {
            return Err(RyazonError::MaxMinWords);
        }
        let mut results: Vec<RyazonOutput> = Vec::new();
        let iters = opts.iterations;
        for it in 0..iters
            invariant
                self.wf(),
                opts.max_words >= opts.min_words,
                self.tbl().len() > 0 ==> opts.max_words >= self.order_spec() as usize,
                results@.len() == it as int,
                forall|k: int| 0 <= k < it as int ==> iteration_ok(
                    self.tbl(),
                    *opts,
                    #[trigger] results@[k],
                    self.order_spec() as int,
                ),
        {
            match self.generate_with_retry(opts) {
                Ok(s) => {
                    results.push(RyazonOutput::Success(s));
                },
                Err(e) => {
                    results.push(RyazonOutput::Error(e));
                },
            }
        }
        Ok(results)
    }
}

/// Exactness of training on a fresh table: after folding one token
/// stream into an empty table, the recorded weight of every
/// `(state, word)` pair is the number of times that exact window was
/// observed, and the total weight under any state is the number of
/// times that state was observed, whatever word followed.
pub proof fn lemma_fresh_training_counts(t1: Seq<StateEntry>, ws: Seq<Seq<char>>, order: int)
    requires
        trained_from(Seq::<StateEntry>::empty(), t1, ws, order),
    ensures
        forall|s: Seq<Seq<char>>, w: Seq<char>| #[trigger] table_count(t1, s, w) == window_count(
            ws,
            order,
            ws.len() - order,
            s,
            w,
        ),
        forall|s: Seq<Seq<char>>| #[trigger] table_total(t1, s) == state_window_count(
            ws,
            order,
            ws.len() - order,
            s,
        ),
{
    assert forall|s: Seq<Seq<char>>, w: Seq<char>| #[trigger] table_count(t1, s, w)
        == window_count(ws, order, ws.len() - order, s, w) by {
        assert(table_count(Seq::<StateEntry>::empty(), s, w) == 0);
    }
    assert forall|s: Seq<Seq<char>>| #[trigger] table_total(t1, s) == state_window_count(
        ws,
        order,
        ws.len() - order,
        s,
    ) by {
        assert(table_total(Seq::<StateEntry>::empty(), s) == 0);
    }
}

/// A well-formed chain satisfies the public table shape: every state
/// holds exactly `order` words, states are unique, every distribution
/// is non-empty with positive counts and unique words.
pub proof fn lemma_wf_table(c: MarkovChain)
    requires
        c.wf(),
    ensures
        table_wf(c.tbl(), c.order_spec()),
{
}

/// The message a failed terminator search reports.
fn terminator_message(tm: &String) -> (r: String)
    ensures
        r@ == "terminator '"@ + tm@ + "' not found in generated text"@,
{
    let mut r = String::new();
    r.append("terminator '");
    r.append(tm.as_str());
    r.append("' not found in generated text");
    proof {
        assert(r@ =~= "terminator '"@ + tm@ + "' not found in generated text"@);
    }
    r
}

} // verus!
