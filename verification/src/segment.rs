//! Segmentation of a letter sequence into dictionary words: the spec of what
//! is segmentable, the first-match decomposition, and the backtracking
//! segmenter itself.

use vstd::prelude::*;
use crate::phrases::{
    join_tail, letters, lemma_flatten_space_free, lemma_letters_join_tail, space_free,
};
use crate::words::{append_range, WordIndex};

verus! {

/// Cutting `s` after its first `j` characters leaves a dictionary word and a
/// segmentable remainder.
pub open spec fn cut_ok(wset: Set<Seq<char>>, s: Seq<char>, j: int) -> bool
    decreases s.len(), 0int,
{
    if 1 <= j <= s.len() {
        wset.contains(s.take(j)) && can_segment(wset, s.skip(j))
    } else {
        false
    }
}

/// Some cut point at or past `j` works for `s`.
pub open spec fn can_segment_from(wset: Set<Seq<char>>, s: Seq<char>, j: int) -> bool
    decreases s.len(), s.len() - j + 2,
{
    if j < 1 || j > s.len() {
        false
    } else if cut_ok(wset, s, j) {
        true
    } else {
        can_segment_from(wset, s, j + 1)
    }
}

/// `s` splits into consecutive words of `wset`; the empty sequence does
/// vacuously.
pub open spec fn can_segment(wset: Set<Seq<char>>, s: Seq<char>) -> bool
    decreases s.len(), s.len() + 3,
{
    s.len() == 0 || can_segment_from(wset, s, 1)
}

/// The decomposition found by scanning cut points from `j` upward, taking
/// the first workable cut and recursing: the first-match policy.
pub open spec fn seg_words_from(wset: Set<Seq<char>>, s: Seq<char>, j: int) -> Seq<Seq<char>>
    decreases s.len(), s.len() - j + 2,
{
    if j < 1 || j > s.len() {
        Seq::empty()
    } else if cut_ok(wset, s, j) {
        seq![s.take(j)] + seg_words(wset, s.skip(j))
    } else {
        seg_words_from(wset, s, j + 1)
    }
}

/// The first-match decomposition of `s` into words of `wset`.
pub open spec fn seg_words(wset: Set<Seq<char>>, s: Seq<char>) -> Seq<Seq<char>>
    decreases s.len(), s.len() + 3,
{
    if s.len() == 0 {
        Seq::empty()
    } else {
        seg_words_from(wset, s, 1)
    }
}

/// What a successful segmentation appends to the phrase buffer: one `" w"`
/// group per word of the first-match decomposition.
pub open spec fn seg_append(wset: Set<Seq<char>>, s: Seq<char>) -> Seq<char> {
    join_tail(seg_words(wset, s))
}

/// A workable cut point at `j` makes every scan from at or below `j`
/// succeed.
proof fn lemma_cut_ok_scan(wset: Set<Seq<char>>, s: Seq<char>, k: int, j: int)
    requires
        1 <= k <= j,
        cut_ok(wset, s, j),
    ensures
        can_segment_from(wset, s, k),
    decreases j - k,
{
    if k < j {
        lemma_cut_ok_scan(wset, s, k + 1, j);
    }
}

/// A workable cut point witnesses segmentability.
pub proof fn lemma_cut_ok_can_segment(wset: Set<Seq<char>>, s: Seq<char>, j: int)
    requires
        cut_ok(wset, s, j),
    ensures
        can_segment(wset, s),
{
    lemma_cut_ok_scan(wset, s, 1, j);
}

/// If no cut point at or past `k` works, the scan from `k` fails.
proof fn lemma_no_cut_scan(wset: Set<Seq<char>>, s: Seq<char>, k: int)
    requires
        forall|j: int| k <= j ==> !(#[trigger] cut_ok(wset, s, j)),
    ensures
        !can_segment_from(wset, s, k),
    decreases s.len() - k + 2,
{
    if 1 <= k <= s.len() {
        assert(!cut_ok(wset, s, k));
        lemma_no_cut_scan(wset, s, k + 1);
        assert(!can_segment_from(wset, s, k + 1));
    }
}

/// Scanning may start anywhere below the first workable cut point without
/// changing the decomposition found.
proof fn lemma_seg_scan(wset: Set<Seq<char>>, s: Seq<char>, k: int)
    requires
        1 <= k <= s.len(),
        forall|j: int| 1 <= j < k ==> !(#[trigger] cut_ok(wset, s, j)),
    ensures
        seg_words_from(wset, s, 1) == seg_words_from(wset, s, k),
    decreases k,
{
    if k > 1 {
        lemma_seg_scan(wset, s, k - 1);
    }
}

/// The first-match decomposition of a segmentable sequence is made of
/// dictionary words and flattens back to the sequence itself.
pub proof fn lemma_seg_words_sound(wset: Set<Seq<char>>, s: Seq<char>)
    requires
        can_segment(wset, s),
    ensures
        seg_words(wset, s).flatten() == s,
        forall|n: int|
            0 <= n < seg_words(wset, s).len() ==> wset.contains(#[trigger] seg_words(wset, s)[n]),
        s.len() > 0 ==> seg_words(wset, s).len() >= 1,
    decreases s.len(), s.len() + 3,
{
    if s.len() == 0 {
        assert(seg_words(wset, s).flatten() =~= s);
    } else {
        lemma_seg_from_sound(wset, s, 1);
    }
}

proof fn lemma_seg_from_sound(wset: Set<Seq<char>>, s: Seq<char>, j: int)
    requires
        1 <= j <= s.len(),
        can_segment_from(wset, s, j),
    ensures
        seg_words_from(wset, s, j).flatten() == s,
        forall|n: int|
            0 <= n < seg_words_from(wset, s, j).len() ==> wset.contains(
                #[trigger] seg_words_from(wset, s, j)[n],
            ),
        seg_words_from(wset, s, j).len() >= 1,
    decreases s.len(), s.len() - j + 2,
{
    if cut_ok(wset, s, j) {
        lemma_seg_words_sound(wset, s.skip(j));
        let tail_words = seg_words(wset, s.skip(j));
        let ws = seq![s.take(j)] + tail_words;
        assert(ws.first() == s.take(j));
        assert(ws.drop_first() =~= tail_words);
        assert(ws.flatten() == ws.first() + ws.drop_first().flatten());
        assert(ws.flatten() =~= s);
        assert forall|n: int| 0 <= n < ws.len() implies wset.contains(#[trigger] ws[n]) by {
            if n > 0 {
                assert(ws[n] == tail_words[n - 1]);
            }
        }
    } else {
        assert(can_segment_from(wset, s, j + 1));
        lemma_seg_from_sound(wset, s, j + 1);
    }
}

/// The letters appended by a successful segmentation reconstruct the
/// segmented sequence exactly.
pub proof fn lemma_seg_append_letters(wset: Set<Seq<char>>, s: Seq<char>)
    requires
        can_segment(wset, s),
        space_free(s),
    ensures
        letters(seg_append(wset, s)) == s,
{
    lemma_seg_words_sound(wset, s);
    lemma_flatten_space_free(seg_words(wset, s));
    lemma_letters_join_tail(seg_words(wset, s));
}

/// A sequence with a known decomposition into non-empty dictionary words is
/// segmentable.
pub proof fn lemma_decomposition_can_segment(wset: Set<Seq<char>>, ws: Seq<Seq<char>>)
    requires
        forall|i: int| 0 <= i < ws.len() ==> wset.contains(#[trigger] ws[i]) && ws[i].len() >= 1,
    ensures
        can_segment(wset, ws.flatten()),
    decreases ws.len(),
{
    if ws.len() == 0 {
        assert(ws.flatten() =~= Seq::<char>::empty());
    } else {
        let s = ws.flatten();
        assert(s == ws.first() + ws.drop_first().flatten());
        assert forall|i: int|
            0 <= i < ws.drop_first().len() implies wset.contains(#[trigger] ws.drop_first()[i])
            && ws.drop_first()[i].len() >= 1 by {
            assert(ws.drop_first()[i] == ws[i + 1]);
        }
        lemma_decomposition_can_segment(wset, ws.drop_first());
        let j = ws.first().len() as int;
        assert(s.take(j) =~= ws.first());
        assert(s.skip(j) =~= ws.drop_first().flatten());
        assert(cut_ok(wset, s, j));
        lemma_cut_ok_can_segment(wset, s, j);
    }
}

/// A non-empty sequence no prefix of which is a dictionary word is not
/// segmentable.
pub proof fn lemma_no_prefix_no_segment(wset: Set<Seq<char>>, s: Seq<char>)
    requires
        s.len() > 0,
        forall|j: int| 1 <= j <= s.len() ==> !wset.contains(#[trigger] s.take(j)),
    ensures
        !can_segment(wset, s),
{
    assert forall|j: int| !(#[trigger] cut_ok(wset, s, j)) by {
        if 1 <= j <= s.len() {
            assert(!wset.contains(s.take(j)));
        }
    }
    lemma_no_cut_scan(wset, s, 1);
}

/// Splits `chars[from..]` into dictionary words, appending each found word,
/// space-prefixed, to `phrase`. Tries cut points in increasing order and
/// keeps the first decomposition that works; on failure the phrase buffer is
/// restored to its state at entry.
#[verifier::loop_isolation(false)]
pub fn split_phrase(
    index: &WordIndex,
    chars: &Vec<char>,
    from: usize,
    phrase: &mut Vec<char>,
) -> (found: bool)
    requires
        from <= chars@.len(),
        from < chars@.len() ==> old(phrase)@.len() >= 1,
    ensures
        found == can_segment(index.word_set(), chars@.skip(from as int)),
        found ==> final(phrase)@ == old(phrase)@ + seg_append(
            index.word_set(),
            chars@.skip(from as int),
        ),
        !found ==> final(phrase)@ == old(phrase)@,
    decreases chars@.len() - from,
{
    let ghost wset = index.word_set();
    let ghost s = chars@.skip(from as int);
    if from == chars.len() {
        proof {
            assert(s =~= Seq::<char>::empty());
            assert(join_tail(seg_words(wset, s)) =~= Seq::<char>::empty());
            assert(old(phrase)@ + seg_append(wset, s) =~= old(phrase)@);
        }
        return true;
    }
    let orig_phrase_len = phrase.len();
    let mut i = from;
    while i < chars.len()
        invariant
            from <= i <= chars@.len(),
            phrase@ == old(phrase)@,
            forall|j: int| 1 <= j <= i - from ==> !(#[trigger] cut_ok(wset, s, j)),
        decreases chars@.len() - i,
    {
        let end = i + 1;
        if index.contains_range(chars, from, end) {
            phrase.push(' ');
            append_range(phrase, chars, from, end);
            let found_rest = split_phrase(index, chars, end, phrase);
            proof {
                let j = (end - from) as int;
                assert(s.take(j) =~= chars@.subrange(from as int, end as int));
                assert(s.skip(j) =~= chars@.skip(end as int));
            }
            if found_rest {
                proof {
                    let j = (end - from) as int;
                    assert(cut_ok(wset, s, j));
                    lemma_cut_ok_can_segment(wset, s, j);
                    lemma_seg_scan(wset, s, j);
                    let tail_words = seg_words(wset, s.skip(j));
                    let ws = seq![s.take(j)] + tail_words;
                    assert(seg_words(wset, s) == ws);
                    assert(ws.skip(1) =~= tail_words);
                    assert(ws[0] == s.take(j));
                    assert(phrase@ =~= old(phrase)@ + seg_append(wset, s));
                }
                return true;
            }
            phrase.truncate(orig_phrase_len);
            proof {
                let j = (end - from) as int;
                assert(!cut_ok(wset, s, j));
                assert(phrase@ =~= old(phrase)@);
            }
        } else {
            proof {
                let j = (end - from) as int;
                assert(s.take(j) =~= chars@.subrange(from as int, end as int));
                assert(!cut_ok(wset, s, j));
            }
        }
        i = i + 1;
    }
    proof {
        assert(s.len() == chars@.len() - from);
        assert forall|j: int| !(#[trigger] cut_ok(wset, s, j)) by {
            if 1 <= j <= s.len() {
                assert(1 <= j <= i - from);
            }
        }
        lemma_no_cut_scan(wset, s, 1);
    }
    false
}

} // verus!
