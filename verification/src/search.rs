//! The top-level recursive search: extend a candidate word sequence in
//! lexicon order, and once it covers half the target, complete it by
//! mirroring and try to segment the mirrored suffix into dictionary words.

use vstd::prelude::*;
use crate::mirror::{half_start, mirror_complete, mirror_ok};
use crate::phrases::lexicon_wf;
use crate::segment::{can_segment, seg_append, split_phrase};
use crate::words::{append_range, char_views, clone_chars, WordIndex};

verus! {

/// The phrases the search discovers from the state `(chars, phrase)`, in
/// discovery order. Once the candidate covers at least half the target, the
/// branch yields its one phrase if the mirrored completion is consistent and
/// the mirrored suffix segments into dictionary words; otherwise the branch
/// is extended by every word of the lexicon in order.
pub open spec fn spec_fill(
    words: Seq<Seq<char>>,
    wset: Set<Seq<char>>,
    target: int,
    chars: Seq<char>,
    phrase: Seq<char>,
) -> Seq<Seq<char>>
    decreases target - chars.len(), words.len() + 1,
{
    if 2 * chars.len() >= target {
        if mirror_ok(chars, target) && can_segment(
            wset,
            mirror_complete(chars, target).skip(chars.len() as int),
        ) {
            seq![
                phrase + seg_append(
                    wset,
                    mirror_complete(chars, target).skip(chars.len() as int),
                ),
            ]
        } else {
            Seq::empty()
        }
    } else {
        spec_fill_from(words, wset, target, chars, phrase, 0)
    }
}

/// The phrases discovered by extending `(chars, phrase)` with the words of
/// the lexicon from index `k` on, in order.
pub open spec fn spec_fill_from(
    words: Seq<Seq<char>>,
    wset: Set<Seq<char>>,
    target: int,
    chars: Seq<char>,
    phrase: Seq<char>,
    k: int,
) -> Seq<Seq<char>>
    decreases target - chars.len(), words.len() - k,
{
    if k < 0 || k >= words.len() || 2 * chars.len() >= target {
        Seq::empty()
    } else {
        let w = words[k];
        let here = if 1 <= w.len() && chars.len() + w.len() <= target {
            spec_fill(
                words,
                wset,
                target,
                chars + w,
                if phrase.len() == 0 {
                    w
                } else {
                    phrase + seq![' '] + w
                },
            )
        } else {
            Seq::empty()
        };
        here + spec_fill_from(words, wset, target, chars, phrase, k + 1)
    }
}

/// The whole search on a lexicon: empty buffers, membership set derived from
/// the word list itself.
pub open spec fn spec_search(words: Seq<Seq<char>>, target: int) -> Seq<Seq<char>> {
    spec_fill(words, words.to_set(), target, Seq::empty(), Seq::empty())
}

/// Of `results`, those from index `k` on whose rendered length fits within
/// the target length plus two.
pub open spec fn keep_fitting_from(results: Seq<Seq<char>>, target: int, k: int) -> Seq<Seq<char>>
    decreases results.len() - k,
{
    if k < 0 || k >= results.len() {
        Seq::empty()
    } else {
        (if results[k].len() <= target + 2 {
            seq![results[k]]
        } else {
            Seq::empty()
        }) + keep_fitting_from(results, target, k + 1)
    }
}

/// Of `results`, those whose rendered length (letters plus separating
/// spaces) fits within the target length plus two, in order.
pub open spec fn keep_fitting(results: Seq<Seq<char>>, target: int) -> Seq<Seq<char>> {
    keep_fitting_from(results, target, 0)
}

/// The recursive enumerator. Extends the candidate buffers word by word
/// while the letters cover less than half the target; at or past half,
/// completes the candidate by mirroring and, when the completion is
/// consistent and its suffix segments into dictionary words, records the
/// finished phrase. Both buffers are restored to their entry state before
/// returning, so sibling branches never observe this branch's work.
#[verifier::loop_isolation(false)]
pub fn fill_palindromes(
    index: &WordIndex,
    target_len: usize,
    candidate_chars: &mut Vec<char>,
    candidate_phrase: &mut Vec<char>,
    palindromes: &mut Vec<Vec<char>>,
)
    requires
        1 <= target_len <= usize::MAX / 2,
        old(candidate_chars)@.len() <= target_len,
        (old(candidate_chars)@.len() == 0) <==> (old(candidate_phrase)@.len() == 0),
        lexicon_wf(index.words_view()),
    ensures
        final(candidate_chars)@ == old(candidate_chars)@,
        final(candidate_phrase)@ == old(candidate_phrase)@,
        char_views(final(palindromes)@) == char_views(old(palindromes)@) + spec_fill(
            index.words_view(),
            index.word_set(),
            target_len as int,
            old(candidate_chars)@,
            old(candidate_phrase)@,
        ),
    decreases target_len - candidate_chars@.len(),
{
    let ghost words_v = index.words_view();
    let ghost wset = index.word_set();
    let ghost t = target_len as int;
    let ghost chars0 = candidate_chars@;
    let ghost phrase0 = candidate_phrase@;
    let ghost pal0 = palindromes@;
    let orig_len = candidate_chars.len();
    let ghost orig = orig_len as int;
    if orig_len * 2 >= target_len {
        let ghost full = mirror_complete(chars0, t);
        proof {
            assert(full.len() == t);
            assert(full.take(orig) =~= chars0);
        }
        let mut i: usize = (target_len + 1) / 2;
        let mut consistent = true;
        while consistent && i < target_len
            invariant
                half_start(t) <= i as int <= t,
                candidate_phrase@ == phrase0,
                consistent ==> candidate_chars@ == full.take(
                    if i as int <= orig {
                        orig
                    } else {
                        i as int
                    },
                ),
                consistent ==> forall|m: int|
                    half_start(t) <= m < (if i as int <= orig {
                        i as int
                    } else {
                        orig
                    }) ==> #[trigger] chars0[m] == chars0[t - 1 - m],
                !consistent ==> !mirror_ok(chars0, t),
                !consistent ==> orig <= candidate_chars@.len() <= t && candidate_chars@
                    == full.take(candidate_chars@.len() as int),
            decreases t - i as int + (if consistent {
                0int
            } else {
                -1int
            }),
        {
            let j = target_len - i - 1;
            proof {
                assert(0 <= j < orig);
            }
            if i < orig_len {
                if *candidate_chars_at(candidate_chars, i) != *candidate_chars_at(
                    candidate_chars,
                    j,
                ) {
                    proof {
                        assert(candidate_chars@ == full.take(orig));
                        assert(chars0[i as int] != chars0[t - 1 - i]);
                    }
                    consistent = false;
                } else {
                    proof {
                        assert(chars0[i as int] == chars0[t - 1 - i]);
                    }
                    i = i + 1;
                }
            } else {
                let c = *candidate_chars_at(candidate_chars, j);
                proof {
                    assert(candidate_chars@.len() == i as int);
                    assert(candidate_chars@[j as int] == full[j as int]);
                    assert(full[i as int] == chars0[t - 1 - i]);
                }
                candidate_chars.push(c);
                proof {
                    assert(candidate_chars@ =~= full.take(i + 1));
                }
                i = i + 1;
            }
        }
        if consistent {
            proof {
                assert(i as int == t);
                assert(candidate_chars@ =~= full);
                assert(mirror_ok(chars0, t));
            }
            let orig_phrase_len = candidate_phrase.len();
            let found = split_phrase(index, candidate_chars, orig_len, candidate_phrase);
            proof {
                assert(candidate_chars@.skip(orig) == full.skip(orig));
            }
            if found {
                let snapshot = clone_chars(candidate_phrase);
                palindromes.push(snapshot);
                candidate_phrase.truncate(orig_phrase_len);
                proof {
                    assert(candidate_phrase@ =~= phrase0);
                    let elem = phrase0 + seg_append(wset, full.skip(orig));
                    assert(spec_fill(words_v, wset, t, chars0, phrase0) =~= seq![elem]);
                    assert(char_views(palindromes@) =~= char_views(pal0) + spec_fill(
                        words_v,
                        wset,
                        t,
                        chars0,
                        phrase0,
                    ));
                }
            } else {
                proof {
                    assert(spec_fill(words_v, wset, t, chars0, phrase0) =~= Seq::<Seq<char>>::empty());
                    assert(char_views(palindromes@) =~= char_views(pal0) + spec_fill(
                        words_v,
                        wset,
                        t,
                        chars0,
                        phrase0,
                    ));
                }
            }
        } else {
            proof {
                assert(spec_fill(words_v, wset, t, chars0, phrase0) =~= Seq::<Seq<char>>::empty());
                assert(char_views(palindromes@) =~= char_views(pal0) + spec_fill(
                    words_v,
                    wset,
                    t,
                    chars0,
                    phrase0,
                ));
            }
        }
        candidate_chars.truncate(orig_len);
        proof {
            assert(candidate_chars@ =~= chars0);
        }
    } else {
        let mut k: usize = 0;
        while k < index.len()
            invariant
                k as int <= words_v.len(),
                candidate_chars@ == chars0,
                candidate_phrase@ == phrase0,
                char_views(palindromes@) + spec_fill_from(words_v, wset, t, chars0, phrase0, k as int)
                    == char_views(pal0) + spec_fill_from(words_v, wset, t, chars0, phrase0, 0),
            decreases words_v.len() - k as int,
        {
            let ghost pal_here = palindromes@;
            let w = index.word(k);
            proof {
                assert(words_v[k as int].len() >= 1);
            }
            if w.len() <= target_len - orig_len {
                let orig_phrase_len = candidate_phrase.len();
                if candidate_phrase.len() > 0 {
                    candidate_phrase.push(' ');
                }
                append_range(candidate_phrase, w, 0, w.len());
                append_range(candidate_chars, w, 0, w.len());
                let ghost new_chars = chars0 + words_v[k as int];
                let ghost new_phrase = if phrase0.len() == 0 {
                    words_v[k as int]
                } else {
                    phrase0 + seq![' '] + words_v[k as int]
                };
                proof {
                    assert(words_v[k as int].subrange(0, words_v[k as int].len() as int) =~= words_v[k as int]);
                    assert(candidate_chars@ =~= new_chars);
                    assert(candidate_phrase@ =~= new_phrase);
                }
                fill_palindromes(index, target_len, candidate_chars, candidate_phrase, palindromes);
                candidate_chars.truncate(orig_len);
                candidate_phrase.truncate(orig_phrase_len);
                proof {
                    assert(candidate_chars@ =~= chars0);
                    assert(candidate_phrase@ =~= phrase0);
                    assert(spec_fill_from(words_v, wset, t, chars0, phrase0, k as int) == spec_fill(
                        words_v,
                        wset,
                        t,
                        new_chars,
                        new_phrase,
                    ) + spec_fill_from(words_v, wset, t, chars0, phrase0, k as int + 1));
                    assert(char_views(palindromes@) =~= char_views(pal_here) + spec_fill(
                        words_v,
                        wset,
                        t,
                        new_chars,
                        new_phrase,
                    ));
                    assert(char_views(palindromes@) + spec_fill_from(
                        words_v,
                        wset,
                        t,
                        chars0,
                        phrase0,
                        k as int + 1,
                    ) =~= char_views(pal0) + spec_fill_from(words_v, wset, t, chars0, phrase0, 0));
                }
            } else {
                proof {
                    assert(spec_fill_from(words_v, wset, t, chars0, phrase0, k as int)
                        == spec_fill_from(words_v, wset, t, chars0, phrase0, k as int + 1));
                }
            }
            k = k + 1;
        }
        proof {
            assert(spec_fill_from(words_v, wset, t, chars0, phrase0, k as int)
                =~= Seq::<Seq<char>>::empty());
            assert(char_views(palindromes@) =~= char_views(pal0) + spec_fill(
                words_v,
                wset,
                t,
                chars0,
                phrase0,
            ));
        }
    }
}

/// Reads one character of the buffer.
fn candidate_chars_at(chars: &Vec<char>, i: usize) -> (c: &char)
    requires
        i < chars@.len(),
    ensures
        *c == chars@[i as int],
{
    &chars[i]
}

/// Keeps only the result phrases whose rendered length (letters plus
/// separating spaces) is within two characters of the target length: the
/// phrases built from relatively few, longer words.
#[verifier::loop_isolation(false)]
pub fn filter_fitting(results: &Vec<Vec<char>>, target_len: usize) -> (kept: Vec<Vec<char>>)
    requires
        target_len <= usize::MAX - 2,
    ensures
        char_views(kept@) == keep_fitting(char_views(results@), target_len as int),
{
    let ghost all = char_views(results@);
    let ghost t = target_len as int;
    let mut kept: Vec<Vec<char>> = Vec::new();
    let mut k: usize = 0;
    while k < results.len()
        invariant
            k as int <= all.len(),
            char_views(kept@) + keep_fitting_from(all, t, k as int) == keep_fitting(all, t),
        decreases all.len() - k as int,
    {
        proof {
            assert(all[k as int] == results@[k as int]@);
        }
        if results[k].len() <= target_len + 2 {
            let copy = clone_chars(&results[k]);
            kept.push(copy);
            proof {
                assert(keep_fitting_from(all, t, k as int) == seq![all[k as int]]
                    + keep_fitting_from(all, t, k as int + 1));
                assert(char_views(kept@) + keep_fitting_from(all, t, k as int + 1) =~= keep_fitting(
                    all,
                    t,
                ));
            }
        } else {
            proof {
                assert(keep_fitting_from(all, t, k as int) =~= keep_fitting_from(
                    all,
                    t,
                    k as int + 1,
                ));
            }
        }
        k = k + 1;
    }
    proof {
        assert(keep_fitting_from(all, t, k as int) =~= Seq::<Seq<char>>::empty());
        assert(char_views(kept@) =~= keep_fitting(all, t));
    }
    kept
}

/// The whole pipeline on a lexicon: build the word index, run the search
/// from empty buffers, and keep the fitting phrases. Deterministic: the
/// result is a function of the lexicon (in its iteration order) and the
/// target length alone.
pub fn find_palindrome_phrases(word_list: Vec<Vec<char>>, target_len: usize) -> (found: Vec<
    Vec<char>,
>)
    requires
        1 <= target_len <= usize::MAX / 2,
        lexicon_wf(char_views(word_list@)),
    ensures
        char_views(found@) == keep_fitting(
            spec_search(char_views(word_list@), target_len as int),
            target_len as int,
        ),
{
    let ghost words_v = char_views(word_list@);
    let index = WordIndex::new(word_list);
    let mut palindromes: Vec<Vec<char>> = Vec::new();
    let mut candidate_chars: Vec<char> = Vec::new();
    let mut candidate_phrase: Vec<char> = Vec::new();
    fill_palindromes(
        &index,
        target_len,
        &mut candidate_chars,
        &mut candidate_phrase,
        &mut palindromes,
    );
    proof {
        assert(char_views(palindromes@) =~= spec_search(words_v, target_len as int));
    }
    filter_fitting(&palindromes, target_len)
}

} // verus!
