//! The spec-level vocabulary of the search: space-free words, the letters of
//! a phrase, palindromes, and joining words into a space-separated phrase.

use vstd::prelude::*;

verus! {

/// Holds when no character of `s` is a space.
pub open spec fn space_free(s: Seq<char>) -> bool {
    forall|i: int| 0 <= i < s.len() ==> s[i] != ' '
}

/// A word fit for the search: at least one character, and no space, since
/// spaces are what separate words inside a phrase.
pub open spec fn word_fit(w: Seq<char>) -> bool {
    &&& w.len() >= 1
    &&& space_free(w)
}

/// A well-formed lexicon: every word is fit for the search.
pub open spec fn lexicon_wf(words: Seq<Seq<char>>) -> bool {
    forall|i: int| 0 <= i < words.len() ==> word_fit(#[trigger] words[i])
}

/// The letters of a phrase: its characters with every space removed.
pub open spec fn letters(s: Seq<char>) -> Seq<char>
    decreases s.len(),
{
    if s.len() == 0 {
        s
    } else if s[0] == ' ' {
        letters(s.skip(1))
    } else {
        seq![s[0]] + letters(s.skip(1))
    }
}

/// Holds when `s` reads the same forwards and backwards.
pub open spec fn is_palindrome(s: Seq<char>) -> bool {
    forall|i: int| 0 <= i < s.len() ==> #[trigger] s[i] == s[s.len() - 1 - i]
}

/// One `" w"` group per word of `ws`, concatenated: what joining appends
/// after an existing first word.
pub open spec fn join_tail(ws: Seq<Seq<char>>) -> Seq<char>
    decreases ws.len(),
{
    if ws.len() == 0 {
        Seq::empty()
    } else {
        seq![' '] + ws[0] + join_tail(ws.skip(1))
    }
}

/// The words of `ws` joined by single separating spaces, with no leading or
/// trailing space.
pub open spec fn joined(ws: Seq<Seq<char>>) -> Seq<char> {
    if ws.len() == 0 {
        Seq::empty()
    } else {
        ws[0] + join_tail(ws.skip(1))
    }
}

/// The phrase `p` is one or more words of `wset` joined by single spaces.
pub open spec fn phrase_from(wset: Set<Seq<char>>, p: Seq<char>) -> bool {
    exists|ws: Seq<Seq<char>>|
        ws.len() >= 1 && (forall|i: int|
            0 <= i < ws.len() ==> wset.contains(#[trigger] ws[i])) && p == joined(ws)
}

/// The number of characters before the first space of `s` (all of `s` if it
/// has none).
pub open spec fn first_token_len(s: Seq<char>) -> nat
    decreases s.len(),
{
    if s.len() == 0 || s[0] == ' ' {
        0
    } else {
        1 + first_token_len(s.skip(1))
    }
}

/// The space-delimited tokens of `s`, in order.
pub open spec fn tokens(s: Seq<char>) -> Seq<Seq<char>>
    decreases s.len(),
{
    if s.len() == 0 {
        Seq::empty()
    } else {
        let f = first_token_len(s);
        if f >= s.len() {
            seq![s]
        } else {
            seq![s.take(f as int)] + tokens(s.skip(f as int + 1))
        }
    }
}

/// The first token of a space-free sequence followed by nothing, or by a
/// space, is that whole sequence.
pub proof fn lemma_first_token_len_word(w: Seq<char>, r: Seq<char>)
    requires
        space_free(w),
        r.len() == 0 || r[0] == ' ',
    ensures
        first_token_len(w + r) == w.len(),
    decreases w.len(),
{
    if w.len() == 0 {
        assert(w + r =~= r);
    } else {
        assert((w + r)[0] == w[0]);
        assert((w + r).skip(1) =~= w.skip(1) + r);
        assert forall|i: int| 0 <= i < w.skip(1).len() implies w.skip(1)[i] != ' ' by {
            assert(w.skip(1)[i] == w[i + 1]);
        }
        lemma_first_token_len_word(w.skip(1), r);
    }
}

/// Tokenizing a join of non-empty space-free words recovers exactly those
/// words.
pub proof fn lemma_tokens_of_joined(ws: Seq<Seq<char>>)
    requires
        ws.len() >= 1,
        forall|i: int| 0 <= i < ws.len() ==> (#[trigger] ws[i]).len() >= 1 && space_free(ws[i]),
    ensures
        tokens(joined(ws)) == ws,
    decreases ws.len(),
{
    let p = joined(ws);
    let w = ws[0];
    let r = join_tail(ws.skip(1));
    assert(p == w + r);
    if ws.len() == 1 {
        assert(ws.skip(1) =~= Seq::<Seq<char>>::empty());
        assert(r =~= Seq::<char>::empty());
        assert(p =~= w);
        lemma_first_token_len_word(w, Seq::empty());
        assert(w + Seq::<char>::empty() =~= w);
        assert(first_token_len(p) == w.len());
        assert(tokens(p) =~= ws);
    } else {
        assert(ws.skip(1).len() >= 1);
        assert(r == seq![' '] + ws.skip(1)[0] + join_tail(ws.skip(1).skip(1)));
        assert(r[0] == ' ');
        lemma_first_token_len_word(w, r);
        let f = w.len() as int;
        assert(p.len() == w.len() + r.len());
        assert(r.len() >= 1);
        assert(p.take(f) =~= w);
        assert(p.skip(f + 1) =~= ws.skip(1)[0] + join_tail(ws.skip(1).skip(1)));
        assert(p.skip(f + 1) == joined(ws.skip(1)));
        assert forall|i: int|
            0 <= i < ws.skip(1).len() implies (#[trigger] ws.skip(1)[i]).len() >= 1 && space_free(
            ws.skip(1)[i],
        ) by {
            assert(ws.skip(1)[i] == ws[i + 1]);
        }
        lemma_tokens_of_joined(ws.skip(1));
        assert(tokens(p) == seq![w] + ws.skip(1));
        assert(seq![w] + ws.skip(1) =~= ws);
    }
}

/// Removing spaces distributes over concatenation.
pub proof fn lemma_letters_add(a: Seq<char>, b: Seq<char>)
    ensures
        letters(a + b) == letters(a) + letters(b),
    decreases a.len(),
{
    if a.len() == 0 {
        assert(a + b =~= b);
        assert(letters(a) + letters(b) =~= letters(b));
    } else {
        assert((a + b).skip(1) =~= a.skip(1) + b);
        lemma_letters_add(a.skip(1), b);
        if a[0] == ' ' {
        } else {
            assert(seq![a[0]] + (letters(a.skip(1)) + letters(b)) =~= (seq![a[0]] + letters(
                a.skip(1),
            )) + letters(b));
        }
    }
}

/// A space-free sequence is untouched by removing spaces.
pub proof fn lemma_letters_space_free(s: Seq<char>)
    requires
        space_free(s),
    ensures
        letters(s) == s,
    decreases s.len(),
{
    if s.len() == 0 {
    } else {
        lemma_letters_space_free(s.skip(1));
        assert(letters(s) =~= s);
    }
}

/// A single space has no letters.
pub proof fn lemma_letters_single_space()
    ensures
        letters(seq![' ']) == Seq::<char>::empty(),
{
    assert(seq![' '].skip(1) =~= Seq::<char>::empty());
    assert(letters(Seq::<char>::empty()) =~= Seq::<char>::empty());
}

/// `join_tail` distributes over concatenation of word sequences.
pub proof fn lemma_join_tail_add(x: Seq<Seq<char>>, y: Seq<Seq<char>>)
    ensures
        join_tail(x + y) == join_tail(x) + join_tail(y),
    decreases x.len(),
{
    if x.len() == 0 {
        assert(x + y =~= y);
        assert(join_tail(x) + join_tail(y) =~= join_tail(y));
    } else {
        assert((x + y).skip(1) =~= x.skip(1) + y);
        lemma_join_tail_add(x.skip(1), y);
        assert((seq![' '] + x[0] + join_tail(x.skip(1))) + join_tail(y) =~= seq![' '] + x[0] + (
        join_tail(x.skip(1)) + join_tail(y)));
    }
}

/// Joining a non-empty word sequence extended by more words appends their
/// `" w"` groups.
pub proof fn lemma_joined_concat(a: Seq<Seq<char>>, b: Seq<Seq<char>>)
    requires
        a.len() >= 1,
    ensures
        joined(a + b) == joined(a) + join_tail(b),
{
    assert((a + b)[0] == a[0]);
    assert((a + b).skip(1) =~= a.skip(1) + b);
    lemma_join_tail_add(a.skip(1), b);
    assert(a[0] + (join_tail(a.skip(1)) + join_tail(b)) =~= (a[0] + join_tail(a.skip(1)))
        + join_tail(b));
}

/// A one-word join is that word alone.
pub proof fn lemma_joined_singleton(w: Seq<char>)
    ensures
        joined(seq![w]) == w,
        join_tail(seq![w]) == seq![' '] + w,
{
    assert(seq![w].skip(1) =~= Seq::<Seq<char>>::empty());
    assert(join_tail(Seq::<Seq<char>>::empty()) =~= Seq::<char>::empty());
    assert(joined(seq![w]) =~= w);
    assert(join_tail(seq![w]) =~= seq![' '] + w);
}

/// The letters of a `join_tail` are the words themselves, concatenated,
/// provided the words are space-free.
pub proof fn lemma_letters_join_tail(ws: Seq<Seq<char>>)
    requires
        forall|i: int| 0 <= i < ws.len() ==> space_free(#[trigger] ws[i]),
    ensures
        letters(join_tail(ws)) == ws.flatten(),
    decreases ws.len(),
{
    if ws.len() == 0 {
        assert(letters(join_tail(ws)) =~= ws.flatten());
    } else {
        lemma_letters_join_tail(ws.skip(1));
        lemma_letters_single_space();
        lemma_letters_add(seq![' '], ws[0] + join_tail(ws.skip(1)));
        lemma_letters_add(ws[0], join_tail(ws.skip(1)));
        lemma_letters_space_free(ws[0]);
        assert(seq![' '] + ws[0] + join_tail(ws.skip(1)) =~= seq![' '] + (ws[0] + join_tail(
            ws.skip(1),
        )));
        assert(ws.drop_first() =~= ws.skip(1));
        assert(ws.flatten() == ws.first() + ws.drop_first().flatten());
        assert(letters(join_tail(ws)) =~= ws.flatten());
    }
}

/// Splitting a space-free concatenation leaves every part space-free.
pub proof fn lemma_space_free_parts(a: Seq<char>, b: Seq<char>)
    requires
        space_free(a + b),
    ensures
        space_free(a),
        space_free(b),
{
    assert forall|i: int| 0 <= i < a.len() implies a[i] != ' ' by {
        assert((a + b)[i] == a[i]);
    }
    assert forall|i: int| 0 <= i < b.len() implies b[i] != ' ' by {
        assert((a + b)[a.len() + i] == b[i]);
    }
}

/// Every piece of a space-free flattening is itself space-free.
pub proof fn lemma_flatten_space_free(ws: Seq<Seq<char>>)
    requires
        space_free(ws.flatten()),
    ensures
        forall|i: int| 0 <= i < ws.len() ==> space_free(#[trigger] ws[i]),
    decreases ws.len(),
{
    if ws.len() == 0 {
    } else {
        assert(ws.flatten() == ws.first() + ws.drop_first().flatten());
        lemma_space_free_parts(ws.first(), ws.drop_first().flatten());
        lemma_flatten_space_free(ws.drop_first());
        assert forall|i: int| 0 <= i < ws.len() implies space_free(#[trigger] ws[i]) by {
            if i > 0 {
                assert(ws[i] == ws.drop_first()[i - 1]);
            }
        }
    }
}

} // verus!
