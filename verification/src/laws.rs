//! The laws of the search, proved of the spec-level model that the
//! executable functions are pinned to: every phrase found strips to a
//! palindrome of exactly the target length, is made of dictionary words, the
//! filtered output fits the length bound, and an empty lexicon finds
//! nothing.

use vstd::prelude::*;
use crate::mirror::{lemma_mirror_palindrome, lemma_mirror_space_free, mirror_complete};
use crate::phrases::{
    is_palindrome, joined, join_tail, letters, lemma_joined_concat, lemma_joined_singleton,
    lemma_letters_add, lemma_letters_single_space, lemma_letters_space_free,
    lemma_tokens_of_joined, lexicon_wf, phrase_from, space_free, tokens,
};
use crate::segment::{lemma_seg_append_letters, lemma_seg_words_sound, seg_append, seg_words};
use crate::search::{keep_fitting, keep_fitting_from, spec_fill, spec_fill_from, spec_search};

verus! {

/// The invariant the search maintains between its two buffers: the phrase's
/// letters are exactly the candidate letters, and a non-empty phrase is some
/// dictionary words joined by single spaces.
spec fn buffers_wf(wset: Set<Seq<char>>, chars: Seq<char>, phrase: Seq<char>) -> bool {
    &&& space_free(chars)
    &&& letters(phrase) == chars
    &&& ((chars.len() == 0) <==> (phrase.len() == 0))
    &&& (phrase.len() > 0 ==> phrase_from(wset, phrase))
}

proof fn lemma_fill_sound(
    words: Seq<Seq<char>>,
    wset: Set<Seq<char>>,
    target: int,
    chars: Seq<char>,
    phrase: Seq<char>,
    n: int,
)
    requires
        1 <= target,
        lexicon_wf(words),
        forall|i: int| 0 <= i < words.len() ==> wset.contains(#[trigger] words[i]),
        chars.len() <= target,
        buffers_wf(wset, chars, phrase),
        0 <= n < spec_fill(words, wset, target, chars, phrase).len(),
    ensures
        letters(spec_fill(words, wset, target, chars, phrase)[n]).len() == target,
        is_palindrome(letters(spec_fill(words, wset, target, chars, phrase)[n])),
        phrase_from(wset, spec_fill(words, wset, target, chars, phrase)[n]),
    decreases target - chars.len(), words.len() + 1,
{
    if 2 * chars.len() >= target {
        let orig = chars.len() as int;
        let full = mirror_complete(chars, target);
        let suffix = full.skip(orig);
        let p = phrase + seg_append(wset, suffix);
        assert(spec_fill(words, wset, target, chars, phrase) == seq![p]);
        assert(n == 0);
        lemma_mirror_space_free(chars, target);
        lemma_mirror_palindrome(chars, target);
        lemma_letters_add(phrase, seg_append(wset, suffix));
        lemma_seg_append_letters(wset, suffix);
        assert(letters(p) =~= full);
        // the phrase is dictionary words joined by single spaces
        assert(chars.len() >= 1);
        assert(phrase.len() > 0);
        let ws0 = choose|ws: Seq<Seq<char>>|
            ws.len() >= 1 && (forall|i: int|
                0 <= i < ws.len() ==> wset.contains(#[trigger] ws[i])) && phrase == joined(ws);
        lemma_seg_words_sound(wset, suffix);
        let tail_words = seg_words(wset, suffix);
        let ws = ws0 + tail_words;
        lemma_joined_concat(ws0, tail_words);
        assert(p == joined(ws));
        assert forall|i: int| 0 <= i < ws.len() implies wset.contains(#[trigger] ws[i]) by {
            if i < ws0.len() {
                assert(ws[i] == ws0[i]);
            } else {
                assert(ws[i] == tail_words[i - ws0.len()]);
            }
        }
        assert(phrase_from(wset, p));
    } else {
        lemma_fill_from_sound(words, wset, target, chars, phrase, 0, n);
    }
}

proof fn lemma_fill_from_sound(
    words: Seq<Seq<char>>,
    wset: Set<Seq<char>>,
    target: int,
    chars: Seq<char>,
    phrase: Seq<char>,
    k: int,
    n: int,
)
    requires
        1 <= target,
        lexicon_wf(words),
        forall|i: int| 0 <= i < words.len() ==> wset.contains(#[trigger] words[i]),
        chars.len() <= target,
        2 * chars.len() < target,
        buffers_wf(wset, chars, phrase),
        0 <= k,
        0 <= n < spec_fill_from(words, wset, target, chars, phrase, k).len(),
    ensures
        letters(spec_fill_from(words, wset, target, chars, phrase, k)[n]).len() == target,
        is_palindrome(letters(spec_fill_from(words, wset, target, chars, phrase, k)[n])),
        phrase_from(wset, spec_fill_from(words, wset, target, chars, phrase, k)[n]),
    decreases target - chars.len(), words.len() - k,
{
    assert(k < words.len());
    let w = words[k];
    let here = if 1 <= w.len() && chars.len() + w.len() <= target {
        spec_fill(
            words,
            wset,
            target,
            chars + w,
            if phrase.len() == 0 {
                w
            } else {
                phrase + seq![' '] + w
            },
        )
    } else {
        Seq::<Seq<char>>::empty()
    };
    let rest = spec_fill_from(words, wset, target, chars, phrase, k + 1);
    assert(spec_fill_from(words, wset, target, chars, phrase, k) == here + rest);
    if n < here.len() {
        assert(1 <= w.len() && chars.len() + w.len() <= target);
        let new_chars = chars + w;
        let new_phrase = if phrase.len() == 0 {
            w
        } else {
            phrase + seq![' '] + w
        };
        assert(space_free(new_chars)) by {
            assert(space_free(w));
            assert forall|i: int| 0 <= i < new_chars.len() implies new_chars[i] != ' ' by {
                if i < chars.len() {
                    assert(new_chars[i] == chars[i]);
                } else {
                    assert(new_chars[i] == w[i - chars.len()]);
                }
            }
        }
        assert(letters(new_phrase) == new_chars) by {
            lemma_letters_space_free(w);
            if phrase.len() == 0 {
                assert(chars.len() == 0);
                assert(new_chars =~= w);
            } else {
                lemma_letters_add(phrase + seq![' '], w);
                lemma_letters_add(phrase, seq![' ']);
                lemma_letters_single_space();
                assert(letters(phrase) + Seq::<char>::empty() =~= letters(phrase));
                assert(letters(new_phrase) =~= new_chars);
            }
        }
        assert(new_phrase.len() > 0 ==> phrase_from(wset, new_phrase)) by {
            if phrase.len() == 0 {
                lemma_joined_singleton(w);
                let ws = seq![w];
                assert(ws.len() >= 1 && (forall|i: int|
                    0 <= i < ws.len() ==> wset.contains(#[trigger] ws[i])) && new_phrase == joined(
                    ws,
                ));
                assert(phrase_from(wset, new_phrase));
            } else {
                let ws0 = choose|ws: Seq<Seq<char>>|
                    ws.len() >= 1 && (forall|i: int|
                        0 <= i < ws.len() ==> wset.contains(#[trigger] ws[i])) && phrase == joined(
                        ws,
                    );
                let ws = ws0 + seq![w];
                lemma_joined_concat(ws0, seq![w]);
                lemma_joined_singleton(w);
                assert(new_phrase =~= joined(ws0) + join_tail(seq![w]));
                assert(new_phrase == joined(ws));
                assert forall|i: int| 0 <= i < ws.len() implies wset.contains(
                    #[trigger] ws[i],
                ) by {
                    if i < ws0.len() {
                        assert(ws[i] == ws0[i]);
                    } else {
                        assert(ws[i] == w);
                    }
                }
                assert(phrase_from(wset, new_phrase));
            }
        }
        lemma_fill_sound(words, wset, target, new_chars, new_phrase, n);
        assert(spec_fill_from(words, wset, target, chars, phrase, k)[n] == here[n]);
    } else {
        lemma_fill_from_sound(words, wset, target, chars, phrase, k + 1, n - here.len());
        assert(spec_fill_from(words, wset, target, chars, phrase, k)[n] == rest[n - here.len()]);
    }
}

/// Law: every phrase the search discovers, stripped of its spaces, is a
/// palindrome of exactly the target length.
pub proof fn lemma_search_palindromic(words: Seq<Seq<char>>, target: int, n: int)
    requires
        1 <= target,
        lexicon_wf(words),
        0 <= n < spec_search(words, target).len(),
    ensures
        letters(spec_search(words, target)[n]).len() == target,
        is_palindrome(letters(spec_search(words, target)[n])),
{
    lemma_search_sound(words, target, n);
}

/// Law: every phrase the search discovers is dictionary words of the
/// lexicon's membership set, joined by single spaces — in particular every
/// space-delimited token of it is a word of the lexicon.
pub proof fn lemma_search_words_from_lexicon(words: Seq<Seq<char>>, target: int, n: int)
    requires
        1 <= target,
        lexicon_wf(words),
        0 <= n < spec_search(words, target).len(),
    ensures
        phrase_from(words.to_set(), spec_search(words, target)[n]),
{
    lemma_search_sound(words, target, n);
}

proof fn lemma_search_sound(words: Seq<Seq<char>>, target: int, n: int)
    requires
        1 <= target,
        lexicon_wf(words),
        0 <= n < spec_search(words, target).len(),
    ensures
        letters(spec_search(words, target)[n]).len() == target,
        is_palindrome(letters(spec_search(words, target)[n])),
        phrase_from(words.to_set(), spec_search(words, target)[n]),
{
    let wset = words.to_set();
    assert forall|i: int| 0 <= i < words.len() implies wset.contains(#[trigger] words[i]) by {
        assert(words.contains(words[i]));
    }
    assert(letters(Seq::<char>::empty()) =~= Seq::<char>::empty());
    lemma_fill_sound(words, wset, target, Seq::empty(), Seq::empty(), n);
}

/// Law: every space-delimited token of every phrase the search discovers is
/// a word of the lexicon's membership set.
pub proof fn lemma_search_tokens_in_lexicon(words: Seq<Seq<char>>, target: int, n: int)
    requires
        1 <= target,
        lexicon_wf(words),
        0 <= n < spec_search(words, target).len(),
    ensures
        forall|m: int|
            0 <= m < tokens(spec_search(words, target)[n]).len() ==> words.to_set().contains(
                #[trigger] tokens(spec_search(words, target)[n])[m],
            ),
{
    lemma_search_sound(words, target, n);
    let wset = words.to_set();
    let p = spec_search(words, target)[n];
    let ws = choose|ws: Seq<Seq<char>>|
        ws.len() >= 1 && (forall|i: int|
            0 <= i < ws.len() ==> wset.contains(#[trigger] ws[i])) && p == joined(ws);
    assert forall|i: int|
        0 <= i < ws.len() implies (#[trigger] ws[i]).len() >= 1 && space_free(ws[i]) by {
        assert(wset.contains(ws[i]));
        assert(words.contains(ws[i]));
        let ii = choose|ii: int| 0 <= ii < words.len() && words[ii] == ws[i];
        assert(words[ii].len() >= 1 && space_free(words[ii]));
    }
    lemma_tokens_of_joined(ws);
}

proof fn lemma_keep_fitting_from_len(results: Seq<Seq<char>>, target: int, k: int, n: int)
    requires
        0 <= k,
        0 <= n < keep_fitting_from(results, target, k).len(),
    ensures
        keep_fitting_from(results, target, k)[n].len() <= target + 2,
    decreases results.len() - k,
{
    assert(k < results.len());
    let here = if results[k].len() <= target + 2 {
        seq![results[k]]
    } else {
        Seq::<Seq<char>>::empty()
    };
    if n >= here.len() {
        lemma_keep_fitting_from_len(results, target, k + 1, n - here.len());
    }
}

proof fn lemma_keep_fitting_from_subset(results: Seq<Seq<char>>, target: int, k: int, n: int)
    requires
        0 <= k,
        0 <= n < keep_fitting_from(results, target, k).len(),
    ensures
        exists|m: int|
            k <= m < results.len() && #[trigger] results[m] == keep_fitting_from(
                results,
                target,
                k,
            )[n],
    decreases results.len() - k,
{
    assert(k < results.len());
    let here = if results[k].len() <= target + 2 {
        seq![results[k]]
    } else {
        Seq::<Seq<char>>::empty()
    };
    if n < here.len() {
        assert(results[k] == keep_fitting_from(results, target, k)[n]);
    } else {
        lemma_keep_fitting_from_subset(results, target, k + 1, n - here.len());
        let m = choose|m: int|
            k + 1 <= m < results.len() && #[trigger] results[m] == keep_fitting_from(
                results,
                target,
                k + 1,
            )[n - here.len()];
        assert(results[m] == keep_fitting_from(results, target, k)[n]);
    }
}

/// Law: every phrase of the filtered output is one of the discovered
/// phrases, so whatever holds of every discovery holds of it too.
pub proof fn lemma_keep_fitting_subset(results: Seq<Seq<char>>, target: int, n: int)
    requires
        0 <= n < keep_fitting(results, target).len(),
    ensures
        exists|m: int|
            0 <= m < results.len() && #[trigger] results[m] == keep_fitting(results, target)[n],
{
    lemma_keep_fitting_from_subset(results, target, 0, n);
}

/// Law: every phrase of the filtered output fits within the target length
/// plus two characters.
pub proof fn lemma_keep_fitting_len(results: Seq<Seq<char>>, target: int, n: int)
    requires
        0 <= n < keep_fitting(results, target).len(),
    ensures
        keep_fitting(results, target)[n].len() <= target + 2,
{
    lemma_keep_fitting_from_len(results, target, 0, n);
}

/// Law: an empty lexicon yields an empty result list, whatever the target
/// length.
pub proof fn lemma_empty_lexicon_no_phrases(target: int)
    requires
        1 <= target,
    ensures
        spec_search(Seq::empty(), target).len() == 0,
{
    let words = Seq::<Seq<char>>::empty();
    assert(spec_fill_from(words, words.to_set(), target, Seq::empty(), Seq::empty(), 0)
        =~= Seq::<Seq<char>>::empty());
}

} // verus!
