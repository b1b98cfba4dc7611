//! The lexicon as an ordered word list with a membership test.

use vstd::prelude::*;

verus! {

/// The character sequences of a sequence of character vectors.
pub open spec fn char_views(v: Seq<Vec<char>>) -> Seq<Seq<char>> {
    Seq::new(v.len(), |i: int| v[i]@)
}

/// The lexicon, wrapped as an ordered sequence of words together with a
/// membership test over exactly those words. Order is preserved: it decides
/// the search order downstream.
pub struct WordIndex {
    words: Vec<Vec<char>>,
}

impl WordIndex {
    /// The words in lexicon order.
    pub closed spec fn words_view(self) -> Seq<Seq<char>> {
        char_views(self.words@)
    }

    /// The membership set derived from the word list; duplicates collapse.
    pub open spec fn word_set(self) -> Set<Seq<char>> {
        self.words_view().to_set()
    }

    pub fn new(words: Vec<Vec<char>>) -> (index: WordIndex)
        ensures
            index.words_view() == char_views(words@),
    {
        WordIndex { words }
    }

    pub fn len(&self) -> (n: usize)
        ensures
            n == self.words_view().len(),
    {
        self.words.len()
    }

    pub fn word(&self, k: usize) -> (w: &Vec<char>)
        requires
            k < self.words_view().len(),
        ensures
            w@ == self.words_view()[k as int],
    {
        &self.words[k]
    }

    /// Whether `chars[from..end]` is exactly one of the lexicon's words.
    pub fn contains_range(&self, chars: &Vec<char>, from: usize, end: usize) -> (present: bool)
        requires
            from <= end <= chars@.len(),
        ensures
            present == self.word_set().contains(chars@.subrange(from as int, end as int)),
    {
        let ghost target = chars@.subrange(from as int, end as int);
        let mut k: usize = 0;
        while k < self.words.len()
            invariant
                k <= self.words@.len(),
                from <= end <= chars@.len(),
                target == chars@.subrange(from as int, end as int),
                forall|m: int| 0 <= m < k ==> self.words_view()[m] != target,
            decreases self.words@.len() - k,
        {
            if range_eq(&self.words[k], chars, from, end) {
                proof {
                    assert(self.words_view()[k as int] == target);
                    assert(self.words_view().contains(target));
                }
                return true;
            }
            k = k + 1;
        }
        proof {
            assert(!self.words_view().contains(target));
        }
        false
    }
}

/// Whether `w` equals `chars[from..end]`, character by character.
fn range_eq(w: &Vec<char>, chars: &Vec<char>, from: usize, end: usize) -> (same: bool)
    requires
        from <= end <= chars@.len(),
    ensures
        same == (w@ == chars@.subrange(from as int, end as int)),
{
    if w.len() != end - from {
        proof {
            assert(w@ != chars@.subrange(from as int, end as int));
        }
        return false;
    }
    let mut i: usize = 0;
    while i < w.len()
        invariant
            i <= w@.len(),
            w@.len() == end - from,
            from <= end <= chars@.len(),
            forall|j: int| 0 <= j < i ==> w@[j] == chars@[from + j],
        decreases w@.len() - i,
    {
        if w[i] != chars[from + i] {
            proof {
                assert(chars@.subrange(from as int, end as int)[i as int] == chars@[from + i]);
            }
            return false;
        }
        i = i + 1;
    }
    proof {
        assert(w@ =~= chars@.subrange(from as int, end as int));
    }
    true
}

/// Appends `src[from..end]` to `dst`.
pub(crate) fn append_range(dst: &mut Vec<char>, src: &Vec<char>, from: usize, end: usize)
    requires
        from <= end <= src@.len(),
    ensures
        final(dst)@ == old(dst)@ + src@.subrange(from as int, end as int),
{
    let mut i: usize = from;
    while i < end
        invariant
            from <= i <= end <= src@.len(),
            dst@ == old(dst)@ + src@.subrange(from as int, i as int),
        decreases end - i,
    {
        dst.push(src[i]);
        proof {
            assert(old(dst)@ + src@.subrange(from as int, i as int) + seq![src@[i as int]] =~= old(
                dst,
            )@ + src@.subrange(from as int, i + 1));
        }
        i = i + 1;
    }
}

/// A copy of `v`, character by character.
pub(crate) fn clone_chars(v: &Vec<char>) -> (copy: Vec<char>)
    ensures
        copy@ == v@,
{
    let mut copy: Vec<char> = Vec::new();
    append_range(&mut copy, v, 0, v.len());
    proof {
        assert(copy@ =~= v@);
    }
    copy
}

} // verus!
