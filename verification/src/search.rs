//! Substring search: whether a text contains a given word as a contiguous
//! run of characters.

use vstd::prelude::*;

verus! {

/// Whether `word` occurs in `text` as a contiguous run. The empty word
/// occurs in every text.
pub open spec fn has_substring(text: Seq<char>, word: Seq<char>) -> bool {
    exists|i: int|
        0 <= i && i + word.len() <= text.len() && #[trigger] text.subrange(i, i + word.len())
            == word
}

/// Whether `text` contains `word`.
pub fn contains_word(text: &str, word: &str) -> (r: bool)
    ensures
        r == has_substring(text@, word@),
{
    let nt = text.unicode_len();
    let nw = word.unicode_len();
    if nw > nt {
        proof {
            if has_substring(text@, word@) {
                let i = choose|i: int|
                    0 <= i && i + word@.len() <= text@.len() && #[trigger] text@.subrange(
                        i,
                        i + word@.len(),
                    ) == word@;
                assert(false);
            }
        }
        return false;
    }
    let mut i: usize = 0;
    while i <= nt - nw
        invariant
            nt == text@.len(),
            nw == word@.len(),
            nw <= nt,
            0 <= i,
            i <= nt - nw + 1,
            forall|p: int|
                0 <= p < i ==> #[trigger] text@.subrange(p, p + word@.len()) != word@,
        decreases nt - nw - i + 1,
    {
        let mut k: usize = 0;
        let mut matched = true;
        while k < nw
            invariant
                nt == text@.len(),
                nw == word@.len(),
                i + nw <= nt,
                0 <= k <= nw,
                matched ==> forall|p: int| 0 <= p < k ==> text@[i + p] == word@[p],
                !matched ==> text@.subrange(i as int, i + word@.len()) != word@ && nw >= 1,
            decreases nw - k,
        {
            if text.get_char(i + k) != word.get_char(k) {
                proof {
                    assert(text@.subrange(i as int, i + word@.len())[k as int] == text@[i + k]);
                }
                matched = false;
                k = nw;
            } else {
                k = k + 1;
            }
        }
        if matched {
            proof {
                assert(text@.subrange(i as int, i + word@.len()) =~= word@);
            }
            return true;
        }
        i = i + 1;
    }
    proof {
        assert forall|p: int| 0 <= p && p + word@.len() <= text@.len() implies #[trigger]
        text@.subrange(p, p + word@.len()) != word@ by {
            assert(p < i);
        }
    }
    false
}

} // verus!
