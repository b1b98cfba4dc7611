//! Mirrored completion of a candidate prefix into a full palindrome of the
//! target length.

use vstd::prelude::*;
use crate::phrases::{is_palindrome, space_free};

verus! {

/// The first index of the mirrored half: the ceiling of `target / 2`.
pub open spec fn half_start(target: int) -> int {
    (target + 1) / 2
}

/// The prefix is consistent with symmetry: wherever it already covers a
/// mirrored index, the two mirrored characters agree.
pub open spec fn mirror_ok(chars: Seq<char>, target: int) -> bool {
    forall|i: int|
        half_start(target) <= i < chars.len() ==> #[trigger] chars[i] == chars[target - 1 - i]
}

/// The prefix extended to the full target length by the deterministic
/// mirrored fill: position `i` of the extension copies position
/// `target - 1 - i` of the prefix.
pub open spec fn mirror_complete(chars: Seq<char>, target: int) -> Seq<char> {
    chars + Seq::new(
        (target - chars.len()) as nat,
        |k: int| chars[target - 1 - (chars.len() + k)],
    )
}

/// A consistent prefix covering at least half the target completes to a
/// palindrome of exactly the target length that extends the prefix.
pub proof fn lemma_mirror_palindrome(chars: Seq<char>, target: int)
    requires
        1 <= target,
        2 * chars.len() >= target,
        chars.len() <= target,
        mirror_ok(chars, target),
    ensures
        mirror_complete(chars, target).len() == target,
        is_palindrome(mirror_complete(chars, target)),
        mirror_complete(chars, target).take(chars.len() as int) == chars,
{
    let full = mirror_complete(chars, target);
    let orig = chars.len() as int;
    let h = half_start(target);
    assert(full.len() == target);
    assert(full.take(orig) =~= chars);
    assert forall|i: int| h <= i < target implies #[trigger] full[i] == full[target - 1 - i] by {
        let m = target - 1 - i;
        assert(0 <= m < h <= orig);
        assert(full[m] == chars[m]);
        if i < orig {
            assert(full[i] == chars[i]);
        } else {
            assert(full[i] == chars[target - 1 - i]);
        }
    }
    assert forall|i: int| 0 <= i < target implies #[trigger] full[i] == full[target - 1 - i] by {
        if i < h {
            let m = target - 1 - i;
            if m == i {
            } else {
                assert(h <= m < target);
                assert(full[m] == full[target - 1 - m]);
            }
        }
    }
}

/// The mirrored fill introduces no character the prefix does not have; in
/// particular it keeps the sequence space-free.
pub proof fn lemma_mirror_space_free(chars: Seq<char>, target: int)
    requires
        2 * chars.len() >= target,
        chars.len() <= target,
        space_free(chars),
    ensures
        space_free(mirror_complete(chars, target)),
        space_free(mirror_complete(chars, target).skip(chars.len() as int)),
{
    let full = mirror_complete(chars, target);
    let orig = chars.len() as int;
    assert forall|i: int| 0 <= i < full.len() implies full[i] != ' ' by {
        if i >= orig {
            assert(full[i] == chars[target - 1 - i]);
            assert(0 <= target - 1 - i < orig);
        }
    }
    assert forall|i: int| 0 <= i < full.skip(orig).len() implies full.skip(orig)[i] != ' ' by {
        assert(full.skip(orig)[i] == full[orig + i]);
    }
}

} // verus!
