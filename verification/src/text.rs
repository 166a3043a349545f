//! Text normalization: whitespace tokenization, Unicode lowercasing,
//! ASCII-punctuation tests, prefix/suffix tests and space-joining.
//!
//! Splitting and lowercasing are Unicode-defined and come from std
//! behind named, trusted wrappers; everything built on top of them is
//! verified.

use vstd::prelude::*;
use vstd::string::*;

use crate::options::TrainingOptions;

verus! {

/// The pieces of `s` separated by Unicode whitespace, in order.
pub uninterp spec fn words_of(s: Seq<char>) -> Seq<Seq<char>>;

/// The Unicode lowercase equivalent of `s`.
pub uninterp spec fn lower_of(s: Seq<char>) -> Seq<char>;

/// Relies on str::split_whitespace: the substrings of `text` separated
/// by any amount of Unicode whitespace, in order, none of them empty.
#[verifier::external_body]
pub(crate) fn split_words(text: &str) -> (r: Vec<String>)
    ensures
        r.deep_view() == words_of(text@),
        forall|i: int| 0 <= i < r@.len() ==> (#[trigger] r@[i])@.len() > 0,
{
    text.split_whitespace().map(|s| s.to_owned()).collect()
}

/// Relies on str::to_lowercase: the lowercase equivalent of `s`, a
/// function of its characters alone; each character maps to one or
/// more characters, so a non-empty string stays non-empty.
#[verifier::external_body]
pub(crate) fn lowercase(s: &str) -> (r: String)
    ensures
        r@ == lower_of(s@),
        s@.len() > 0 ==> r@.len() > 0,
{
    s.to_lowercase()
}

/// Relies on String::from_iter over chars: the characters of `cs`, in
/// order, as one string.
#[verifier::external_body]
pub(crate) fn string_from_chars(cs: &Vec<char>) -> (r: String)
    ensures
        r@ == cs@,
{
    cs.iter().collect()
}

/// The tokens the training phase works on: the whitespace-separated
/// words of `text`, each lowercased.
pub open spec fn tokens_of(text: Seq<char>) -> Seq<Seq<char>> {
    words_of(text).map_values(|t: Seq<char>| lower_of(t))
}

/// Split `text` on whitespace and lowercase every token.
pub fn split_lower(text: &str) -> (r: Vec<String>)
    ensures
        r.deep_view() == tokens_of(text@),
        forall|i: int| 0 <= i < r@.len() ==> (#[trigger] r@[i])@.len() > 0,
{
    let ws = split_words(text);
    let mut out: Vec<String> = Vec::new();
    for i in 0..ws.len()
        invariant
            ws.deep_view() == words_of(text@),
            forall|j: int| 0 <= j < ws@.len() ==> (#[trigger] ws@[j])@.len() > 0,
            out@.len() == i,
            forall|j: int| 0 <= j < i ==> (#[trigger] out@[j])@ == tokens_of(text@)[j],
            forall|j: int| 0 <= j < i ==> (#[trigger] out@[j])@.len() > 0,
    {
        let w = lowercase(ws[i].as_str());
        proof {
            assert(ws.deep_view()[i as int] == ws@[i as int]@);
        }
        out.push(w);
    }
    proof {
        assert(out.deep_view() =~= tokens_of(text@));
    }
    out
}

/// The ASCII punctuation characters, as std documents them: the four
/// ranges `!`..`/`, `:`..`@`, `[`..`` ` `` and `{`..`~`.
pub open spec fn is_ascii_punct(c: char) -> bool {
    let u = c as u32;
    (0x21 <= u && u <= 0x2f) || (0x3a <= u && u <= 0x40) || (0x5b <= u && u <= 0x60) || (0x7b <= u
        && u <= 0x7e)
}

/// Executable test for `is_ascii_punct`.
pub fn check_ascii_punct(c: char) -> (b: bool)
    ensures
        b == is_ascii_punct(c),
{
    let u = c as u32;
    (0x21 <= u && u <= 0x2f) || (0x3a <= u && u <= 0x40) || (0x5b <= u && u <= 0x60) || (0x7b <= u
        && u <= 0x7e)
}

/// `p` is a prefix of `s`.
pub open spec fn spec_has_prefix(s: Seq<char>, p: Seq<char>) -> bool {
    p.len() <= s.len() && s.subrange(0, p.len() as int) == p
}

/// `p` is a suffix of `s`.
pub open spec fn spec_has_suffix(s: Seq<char>, p: Seq<char>) -> bool {
    p.len() <= s.len() && s.subrange(s.len() - p.len(), s.len() as int) == p
}

/// Character-exact prefix test.
pub fn has_prefix(s: &str, p: &str) -> (b: bool)
    ensures
        b == spec_has_prefix(s@, p@),
{
    let n = p.unicode_len();
    if n > s.unicode_len() {
        return false;
    }
    for i in 0..n
        invariant
            n == p@.len(),
            n <= s@.len(),
            forall|j: int| 0 <= j < i ==> s@[j] == p@[j],
    {
        if s.get_char(i) != p.get_char(i) {
            assert(s@.subrange(0, n as int)[i as int] != p@[i as int]);
            return false;
        }
    }
    proof {
        assert(s@.subrange(0, n as int) =~= p@);
    }
    true
}

/// Character-exact suffix test.
pub fn has_suffix(s: &str, p: &str) -> (b: bool)
    ensures
        b == spec_has_suffix(s@, p@),
{
    let n = p.unicode_len();
    let m = s.unicode_len();
    if n > m {
        return false;
    }
    let off = m - n;
    for i in 0..n
        invariant
            n == p@.len(),
            m == s@.len(),
            n <= m,
            off == m - n,
            forall|j: int| 0 <= j < i ==> s@[off + j] == p@[j],
    {
        if s.get_char(off + i) != p.get_char(i) {
            assert(s@.subrange(s@.len() - p@.len(), s@.len() as int)[i as int] != p@[i as int]);
            return false;
        }
    }
    proof {
        assert(s@.subrange(s@.len() - p@.len(), s@.len() as int) =~= p@);
    }
    true
}

/// A token that looks like a link: it starts with `http://`,
/// `https://` or `www.`.
pub open spec fn is_url_token(w: Seq<char>) -> bool {
    spec_has_prefix(w, "http://"@) || spec_has_prefix(w, "https://"@) || spec_has_prefix(
        w,
        "www."@,
    )
}

/// Executable test for `is_url_token`.
pub fn check_url_token(w: &str) -> (b: bool)
    ensures
        b == is_url_token(w@),
{
    has_prefix(w, "http://") || has_prefix(w, "https://") || has_prefix(w, "www.")
}

/// The tokens of `ws` that are not links, in order.
pub open spec fn keep_non_urls(ws: Seq<Seq<char>>) -> Seq<Seq<char>>
    decreases ws.len(),
{
    if ws.len() == 0 {
        Seq::empty()
    } else {
        keep_non_urls(ws.drop_last()) + if is_url_token(ws.last()) {
            Seq::empty()
        } else {
            seq![ws.last()]
        }
    }
}

/// Drop every link-looking token.
pub fn filter_urls(words: Vec<String>) -> (r: Vec<String>)
    ensures
        r.deep_view() == keep_non_urls(words.deep_view()),
{
    let mut out: Vec<String> = Vec::new();
    for i in 0..words.len()
        invariant
            out.deep_view() == keep_non_urls(words.deep_view().subrange(0, i as int)),
    {
        let keep = !check_url_token(words[i].as_str());
        proof {
            assert(words.deep_view()[i as int] == words@[i as int]@);
            let pre = words.deep_view().subrange(0, i as int);
            let cur = words.deep_view().subrange(0, i + 1int);
            assert(cur.drop_last() =~= pre);
        }
        if keep {
            out.push(words[i].clone());
            proof {
                assert(out.deep_view() =~= keep_non_urls(
                    words.deep_view().subrange(0, i + 1int),
                ));
            }
        } else {
            proof {
                assert(out.deep_view() =~= keep_non_urls(
                    words.deep_view().subrange(0, i + 1int),
                ));
            }
        }
    }
    proof {
        assert(words.deep_view().subrange(0, words.deep_view().len() as int)
            =~= words.deep_view());
    }
    out
}

/// `w` with every ASCII punctuation character removed, the other
/// characters kept in order.
pub open spec fn strip_punct(w: Seq<char>) -> Seq<char>
    decreases w.len(),
{
    if w.len() == 0 {
        Seq::empty()
    } else {
        strip_punct(w.drop_last()) + if is_ascii_punct(w.last()) {
            Seq::empty()
        } else {
            seq![w.last()]
        }
    }
}

/// Remove the ASCII punctuation characters of one word.
pub fn strip_word(w: &str) -> (r: String)
    ensures
        r@ == strip_punct(w@),
{
    let n = w.unicode_len();
    let mut cs: Vec<char> = Vec::new();
    for i in 0..n
        invariant
            n == w@.len(),
            cs@ == strip_punct(w@.subrange(0, i as int)),
    {
        let c = w.get_char(i);
        proof {
            let pre = w@.subrange(0, i as int);
            let cur = w@.subrange(0, i + 1int);
            assert(cur.drop_last() =~= pre);
            assert(cur.last() == w@[i as int]);
        }
        if !check_ascii_punct(c) {
            cs.push(c);
            proof {
                assert(cs@ =~= strip_punct(w@.subrange(0, i + 1int)));
            }
        } else {
            proof {
                assert(cs@ =~= strip_punct(w@.subrange(0, i + 1int)));
            }
        }
    }
    proof {
        assert(w@.subrange(0, w@.len() as int) =~= w@);
    }
    string_from_chars(&cs)
}

/// Remove the ASCII punctuation characters of every word, keeping
/// order and position (a word may become empty).
pub fn strip_words(words: Vec<String>) -> (r: Vec<String>)
    ensures
        r.deep_view() == words.deep_view().map_values(|w: Seq<char>| strip_punct(w)),
{
    let mut out: Vec<String> = Vec::new();
    for i in 0..words.len()
        invariant
            out@.len() == i,
            forall|j: int| 0 <= j < i ==> (#[trigger] out@[j])@ == strip_punct(
                words.deep_view()[j],
            ),
    {
        proof {
            assert(words.deep_view()[i as int] == words@[i as int]@);
        }
        out.push(strip_word(words[i].as_str()));
    }
    proof {
        assert(out.deep_view() =~= words.deep_view().map_values(|w: Seq<char>| strip_punct(w)));
    }
    out
}

/// The token stream one text contributes to training, before it is
/// folded into the combined stream: split on whitespace, lowercased,
/// links dropped if asked, punctuation stripped if asked, and the
/// configured punctuator appended to the last word when that word
/// does not already end in ASCII punctuation.
pub open spec fn processed_words(text: Seq<char>, opts: TrainingOptions) -> Seq<Seq<char>> {
    let toks = tokens_of(text);
    let t1 = if opts.remove_urls {
        keep_non_urls(toks)
    } else {
        toks
    };
    let t2 = if opts.remove_punctuation {
        t1.map_values(|w: Seq<char>| strip_punct(w))
    } else {
        t1
    };
    match opts.add_punctuation {
        Some(p) => if t2.len() > 0 && t2.last().len() > 0 && !is_ascii_punct(t2.last().last()) {
            t2.update(t2.len() - 1, t2.last() + p@)
        } else {
            t2
        },
        None => t2,
    }
}

/// What one text appends to the combined training stream: nothing for
/// a whitespace-only text, else its processed words joined by spaces
/// and followed by one trailing space.
pub open spec fn text_contribution(text: Seq<char>, opts: TrainingOptions) -> Seq<char> {
    if words_of(text).len() == 0 {
        Seq::empty()
    } else {
        join_words(processed_words(text, opts)) + seq![' ']
    }
}

/// The combined training stream of a whole corpus: the contributions
/// of its texts, in input order. Training treats this as one
/// continuous sequence, so a state window may span two unrelated
/// texts at their boundary; that is the intended behavior.
pub open spec fn corpus_concat(texts: Seq<Seq<char>>, opts: TrainingOptions) -> Seq<char>
    decreases texts.len(),
{
    if texts.len() == 0 {
        Seq::empty()
    } else {
        corpus_concat(texts.drop_last(), opts) + text_contribution(texts.last(), opts)
    }
}

/// Build the combined training stream of a corpus, exactly as
/// `corpus_concat` states it.
pub fn build_corpus(texts: &Vec<String>, opts: &TrainingOptions) -> (r: String)
    ensures
        r@ == corpus_concat(texts.deep_view(), *opts),
{
    let mut concatenated = String::new();
    for ti in 0..texts.len()
        invariant
            concatenated@ == corpus_concat(texts.deep_view().subrange(0, ti as int), *opts),
    {
        proof {
            assert(texts.deep_view()[ti as int] == texts@[ti as int]@);
            let pre = texts.deep_view().subrange(0, ti as int);
            let cur = texts.deep_view().subrange(0, ti + 1int);
            assert(cur.drop_last() =~= pre);
            assert(cur.last() == texts.deep_view()[ti as int]);
        }
        let ghost text_v = texts@[ti as int]@;
        let ghost toks = tokens_of(text_v);
        let words0 = split_lower(texts[ti].as_str());
        if words0.len() > 0 {
            let ghost t1v = if opts.remove_urls {
                keep_non_urls(toks)
            } else {
                toks
            };
            let ghost t2v = if opts.remove_punctuation {
                t1v.map_values(|w: Seq<char>| strip_punct(w))
            } else {
                t1v
            };
            let mut words = words0;
            if opts.remove_urls {
                words = filter_urls(words);
            }
            if opts.remove_punctuation {
                words = strip_words(words);
            }
            assert(words.deep_view() == t2v);
            match &opts.add_punctuation {
                Some(p) => {
                    let mut appended = false;
                    if words.len() > 0 {
                        let li = words.len() - 1;
                        proof {
                            assert(words.deep_view()[li as int] == words@[li as int]@);
                        }
                        let n = words[li].as_str().unicode_len();
                        if n > 0 {
                            let c = words[li].as_str().get_char(n - 1);
                            if !check_ascii_punct(c) {
                                let mut nw = words[li].clone();
                                nw.append(p.as_str());
                                words.pop();
                                words.push(nw);
                                appended = true;
                                proof {
                                    assert(words.deep_view() =~= t2v.update(
                                        t2v.len() - 1,
                                        t2v.last() + p@,
                                    ));
                                }
                            }
                        }
                    }
                    proof {
                        if !appended {
                            assert(!(t2v.len() > 0 && t2v.last().len() > 0 && !is_ascii_punct(
                                t2v.last().last(),
                            )));
                        }
                        assert(words.deep_view() == processed_words(text_v, *opts));
                    }
                },
                None => {
                    assert(words.deep_view() == processed_words(text_v, *opts));
                },
            }
            let joined = join_with_spaces(&words);
            concatenated.append(joined.as_str());
            concatenated.append(" ");
            proof {
                reveal_strlit(" ");
                assert(" "@ =~= seq![' ']);
                assert(toks.len() == words_of(text_v).len());
                assert(concatenated@ =~= corpus_concat(
                    texts.deep_view().subrange(0, ti + 1int),
                    *opts,
                ));
            }
        } else {
            proof {
                assert(toks.len() == words_of(text_v).len());
                assert(words_of(text_v).len() == 0);
                assert(concatenated@ =~= corpus_concat(
                    texts.deep_view().subrange(0, ti + 1int),
                    *opts,
                ));
            }
        }
    }
    proof {
        assert(texts.deep_view().subrange(0, texts.deep_view().len() as int)
            =~= texts.deep_view());
    }
    concatenated
}

/// The words of `ws` joined by single spaces.
pub open spec fn join_words(ws: Seq<Seq<char>>) -> Seq<char>
    decreases ws.len(),
{
    if ws.len() == 0 {
        Seq::empty()
    } else if ws.len() == 1 {
        ws[0]
    } else {
        join_words(ws.drop_last()) + seq![' '] + ws.last()
    }
}

/// Join the words with single spaces, exactly as `join_words` states.
pub fn join_with_spaces(ws: &Vec<String>) -> (r: String)
    ensures
        r@ == join_words(ws.deep_view()),
{
    let mut r = String::new();
    if ws.len() == 0 {
        return r;
    }
    for i in 0..ws.len()
        invariant
            ws@.len() > 0,
            r@ == join_words(ws.deep_view().subrange(0, i as int)),
    {
        if i > 0 {
            r.append(" ");
            proof {
                reveal_strlit(" ");
            }
        }
        r.append(ws[i].as_str());
        proof {
            let pre = ws.deep_view().subrange(0, i as int);
            let cur = ws.deep_view().subrange(0, i + 1int);
            assert(cur.drop_last() =~= pre);
            assert(cur.last() == ws.deep_view()[i as int]);
            assert(ws.deep_view()[i as int] == ws@[i as int]@);
            if i == 0 {
                assert(r@ == join_words(cur));
            } else {
                assert(" "@ =~= seq![' ']);
                assert(r@ == join_words(pre) + seq![' '] + ws@[i as int]@);
                assert(r@ == join_words(cur));
            }
        }
    }
    proof {
        assert(ws.deep_view().subrange(0, ws.deep_view().len() as int) =~= ws.deep_view());
    }
    r
}

} // verus!
