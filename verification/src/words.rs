//! Word-frequency counting over plain text.
//!
//! A word is a maximal run of word characters — alphanumeric characters,
//! as Unicode defines them, and underscore — and is counted
//! case-insensitively: every word is lowercased before it is counted. What
//! counts as alphanumeric and how a word lowercases are std's Unicode
//! tables, taken on trust under the names `alphanumeric` and `lower_of`;
//! the tokenisation and the counting around them are verified. The text is
//! scanned once, left to right; the result maps each lowercased word to the
//! number of times it occurs.

use vstd::prelude::*;

verus! {

/// Whether a character is alphanumeric in Unicode's sense: the name of what
/// `char::is_alphanumeric` returns, which depends on the character alone.
pub uninterp spec fn alphanumeric(c: char) -> bool;

/// Relies on char::is_alphanumeric: true exactly for the characters Unicode
/// classifies as alphabetic or numeric.
pub assume_specification[ char::is_alphanumeric ](c: char) -> (r: bool)
    ensures
        r == alphanumeric(c),
;

/// A character sequence in lowercase: the name of what `str::to_lowercase`
/// returns, which depends on the characters alone.
pub uninterp spec fn lower_of(s: Seq<char>) -> Seq<char>;

/// Relies on str::to_lowercase: the Unicode lowercase mapping of the string;
/// an empty string stays empty.
#[verifier::external_body]
fn lowercase(s: &str) -> (r: String)
    ensures
        r@ == lower_of(s@),
        s@.len() == 0 ==> r@.len() == 0,
{
    s.to_lowercase()
}

/// Whether `c` is a word character: alphanumeric or an underscore.
pub open spec fn is_word_char(c: char) -> bool {
    alphanumeric(c) || c == '_'
}

/// The position just past the run of word characters starting at `i`: the
/// first position at or after `i` that is past the end of `text` or holds a
/// non-word character.
pub open spec fn token_end(text: Seq<char>, i: int) -> int
    decreases text.len() - i,
{
    if i < 0 || i >= text.len() || !is_word_char(text[i]) {
        i
    } else {
        token_end(text, i + 1)
    }
}

/// `token_end` stays within the text, moves forward only over word
/// characters, and stops at the first non-word position.
pub proof fn lemma_token_end(text: Seq<char>, i: int)
    requires
        0 <= i <= text.len(),
    ensures
        i <= token_end(text, i) <= text.len(),
        forall|k: int| i <= k < token_end(text, i) ==> is_word_char(text[k]),
        token_end(text, i) == text.len() || !is_word_char(text[token_end(text, i)]),
    decreases text.len() - i,
{
    if i < text.len() && is_word_char(text[i]) {
        lemma_token_end(text, i + 1);
    }
}

/// A scan that saw word characters from `i` up to `j` and a non-word
/// character (or the end) at `j` has found the token's end.
pub proof fn lemma_token_end_is(text: Seq<char>, i: int, j: int)
    requires
        0 <= i <= j <= text.len(),
        forall|k: int| i <= k < j ==> is_word_char(text[k]),
        j == text.len() || !is_word_char(text[j]),
    ensures
        token_end(text, i) == j,
    decreases j - i,
{
    if i < j {
        lemma_token_end_is(text, i + 1, j);
    }
}

/// The words of `text` from position `i` on, in order, in their original
/// case: each is a maximal run of word characters.
pub open spec fn tokens_from(text: Seq<char>, i: int) -> Seq<Seq<char>>
    decreases text.len() - i,
        when 0 <= i
        via tokens_from_decreases
{
    if i >= text.len() {
        Seq::empty()
    } else if !is_word_char(text[i]) {
        tokens_from(text, i + 1)
    } else {
        seq![text.subrange(i, token_end(text, i))] + tokens_from(text, token_end(text, i))
    }
}

#[via_fn]
proof fn tokens_from_decreases(text: Seq<char>, i: int) {
    if i < text.len() && is_word_char(text[i]) {
        lemma_token_end(text, i);
    }
}

/// There are never more words than characters left.
pub proof fn lemma_tokens_len(text: Seq<char>, i: int)
    requires
        0 <= i <= text.len(),
    ensures
        tokens_from(text, i).len() <= text.len() - i,
    decreases text.len() - i,
{
    if i < text.len() {
        if !is_word_char(text[i]) {
            lemma_tokens_len(text, i + 1);
        } else {
            lemma_token_end(text, i);
            lemma_tokens_len(text, token_end(text, i));
        }
    }
}

/// `m` with the count of `w` raised by one.
pub open spec fn bump(m: Map<Seq<char>, nat>, w: Seq<char>) -> Map<Seq<char>, nat> {
    if m.contains_key(w) {
        m.insert(w, m[w] + 1)
    } else {
        m.insert(w, 1)
    }
}

/// The frequency map of a list of words: each word lowercased, then counted.
pub open spec fn freqs_of(ws: Seq<Seq<char>>) -> Map<Seq<char>, nat>
    decreases ws.len(),
{
    if ws.len() == 0 {
        Map::empty()
    } else {
        bump(freqs_of(ws.drop_last()), lower_of(ws.last()))
    }
}

/// The word frequencies of a text: its words, lowercased, counted.
pub open spec fn word_freqs(text: Seq<char>) -> Map<Seq<char>, nat> {
    freqs_of(tokens_from(text, 0))
}

/// No word is counted more often than there are words.
pub proof fn lemma_freqs_bound(ws: Seq<Seq<char>>, w: Seq<char>)
    requires
        freqs_of(ws).contains_key(w),
    ensures
        freqs_of(ws)[w] <= ws.len(),
    decreases ws.len(),
{
    if ws.len() > 0 {
        if freqs_of(ws.drop_last()).contains_key(w) {
            lemma_freqs_bound(ws.drop_last(), w);
        }
    }
}

/// A word is counted exactly when it occurs, and its count is the number of
/// its occurrences among the lowercased words.
pub proof fn lemma_freqs_count(ws: Seq<Seq<char>>, w: Seq<char>)
    ensures
        freqs_of(ws).contains_key(w) <==> ws.map_values(|t: Seq<char>| lower_of(t)).contains(w),
        ws.map_values(|t: Seq<char>| lower_of(t)).filter(|t: Seq<char>| t == w).len() == (
        if freqs_of(ws).contains_key(w) {
            freqs_of(ws)[w]
        } else {
            0
        }),
    decreases ws.len(),
{
    reveal(Seq::filter);
    let lowered = ws.map_values(|t: Seq<char>| lower_of(t));
    if ws.len() == 0 {
        assert(lowered =~= Seq::<Seq<char>>::empty());
        assert(lowered.filter(|t: Seq<char>| t == w) =~= Seq::<Seq<char>>::empty());
    } else {
        let prefix = ws.drop_last();
        let lp = prefix.map_values(|t: Seq<char>| lower_of(t));
        lemma_freqs_count(prefix, w);
        assert(lp =~= lowered.drop_last());
        assert(lowered.drop_last().push(lowered.last()) =~= lowered);
        assert(lowered.last() == lower_of(ws.last()));
        if lowered.last() == w {
            assert(freqs_of(ws).contains_key(w));
            assert(lowered.contains(w)) by {
                assert(lowered[lowered.len() - 1] == w);
            }
        } else {
            if lp.contains(w) {
                let x = choose|x: int| 0 <= x < lp.len() && lp[x] == w;
                assert(lowered[x] == w);
            }
            if lowered.contains(w) {
                let x = choose|x: int| 0 <= x < lowered.len() && lowered[x] == w;
                assert(lp[x] == w);
            }
        }
    }
}

/// The map a key list and a count list denote, position by position.
pub open spec fn counts_map(ks: Seq<Seq<char>>, cs: Seq<usize>) -> Map<Seq<char>, nat>
    decreases ks.len(),
{
    if ks.len() == 0 || cs.len() != ks.len() {
        Map::empty()
    } else {
        counts_map(ks.drop_last(), cs.drop_last()).insert(ks.last(), cs.last() as nat)
    }
}

/// A key is in the map exactly when some position holds it.
proof fn lemma_counts_map_contains(ks: Seq<Seq<char>>, cs: Seq<usize>, w: Seq<char>)
    requires
        ks.len() == cs.len(),
    ensures
        counts_map(ks, cs).contains_key(w) <==> exists|x: int| 0 <= x < ks.len() && ks[x] == w,
    decreases ks.len(),
{
    if ks.len() > 0 {
        lemma_counts_map_contains(ks.drop_last(), cs.drop_last(), w);
        if counts_map(ks, cs).contains_key(w) && ks.last() != w {
            let x = choose|x: int| 0 <= x < ks.len() - 1 && ks.drop_last()[x] == w;
            assert(ks[x] == w);
        }
        if exists|x: int| 0 <= x < ks.len() && ks[x] == w {
            let x = choose|x: int| 0 <= x < ks.len() && ks[x] == w;
            if x < ks.len() - 1 {
                assert(ks.drop_last()[x] == w);
            }
        }
    }
}

/// With pairwise-distinct keys, the position that holds a key gives its
/// count.
proof fn lemma_counts_map_index(ks: Seq<Seq<char>>, cs: Seq<usize>, x: int)
    requires
        ks.len() == cs.len(),
        forall|p: int, q: int| 0 <= p < q < ks.len() ==> ks[p] != ks[q],
        0 <= x < ks.len(),
    ensures
        counts_map(ks, cs).contains_key(ks[x]),
        counts_map(ks, cs)[ks[x]] == cs[x] as nat,
    decreases ks.len(),
{
    if x < ks.len() - 1 {
        lemma_counts_map_index(ks.drop_last(), cs.drop_last(), x);
        assert(ks.drop_last()[x] == ks[x]);
        assert(cs.drop_last()[x] == cs[x]);
        assert(ks.last() != ks[x]);
    }
}

/// Raising one position's count turns the map into `insert` of the raised
/// count at that key.
proof fn lemma_counts_map_update(ks: Seq<Seq<char>>, cs: Seq<usize>, x: int, c: usize)
    requires
        ks.len() == cs.len(),
        forall|p: int, q: int| 0 <= p < q < ks.len() ==> ks[p] != ks[q],
        0 <= x < ks.len(),
    ensures
        counts_map(ks, cs.update(x, c)) == counts_map(ks, cs).insert(ks[x], c as nat),
    decreases ks.len(),
{
    let cs2 = cs.update(x, c);
    if x == ks.len() - 1 {
        assert(cs2.drop_last() =~= cs.drop_last());
        assert(cs2.last() == c);
        assert(counts_map(ks, cs2) =~= counts_map(ks, cs).insert(ks[x], c as nat));
    } else {
        lemma_counts_map_update(ks.drop_last(), cs.drop_last(), x, c);
        assert(cs2.drop_last() =~= cs.drop_last().update(x, c));
        assert(cs2.last() == cs.last());
        assert(ks.drop_last()[x] == ks[x]);
        assert(ks.last() != ks[x]);
        assert(counts_map(ks, cs2) =~= counts_map(ks, cs).insert(ks[x], c as nat));
    }
}

/// With pairwise-distinct keys, the map holds exactly one word per
/// position: its domain has as many words as there are positions.
proof fn lemma_counts_map_dom_len(ks: Seq<Seq<char>>, cs: Seq<usize>)
    requires
        ks.len() == cs.len(),
        forall|p: int, q: int| 0 <= p < q < ks.len() ==> ks[p] != ks[q],
    ensures
        counts_map(ks, cs).dom().finite(),
        counts_map(ks, cs).dom().len() == ks.len(),
    decreases ks.len(),
{
    if ks.len() == 0 {
        assert(counts_map(ks, cs).dom() =~= Set::<Seq<char>>::empty());
    } else {
        let pm = counts_map(ks.drop_last(), cs.drop_last());
        lemma_counts_map_dom_len(ks.drop_last(), cs.drop_last());
        lemma_counts_map_contains(ks.drop_last(), cs.drop_last(), ks.last());
        assert(!pm.contains_key(ks.last())) by {
            if exists|x: int| 0 <= x < ks.drop_last().len() && ks.drop_last()[x] == ks.last() {
                let x = choose|x: int|
                    0 <= x < ks.drop_last().len() && ks.drop_last()[x] == ks.last();
                assert(ks[x] == ks.last());
            }
        }
        assert(counts_map(ks, cs).dom() =~= pm.dom().insert(ks.last()));
        vstd::set::axiom_set_insert_finite(pm.dom(), ks.last());
        vstd::set::axiom_set_insert_len(pm.dom(), ks.last());
    }
}

/// How often each word occurs, the words stored lowered, each exactly once.
pub struct WordCounts {
    keys: Vec<String>,
    counts: Vec<usize>,
}

impl WordCounts {
    /// Whether the store is coherent: one count per key, keys pairwise
    /// distinct.
    pub closed spec fn wf(self) -> bool {
        &&& self.keys@.len() == self.counts@.len()
        &&& forall|p: int, q: int|
            0 <= p < q < self.keys@.len() ==> self.keys@[p]@ != self.keys@[q]@
    }

    /// How many distinct words are stored.
    pub closed spec fn spec_len(self) -> nat {
        self.keys@.len()
    }

    /// An empty count store.
    pub fn new() -> (r: WordCounts)
        ensures
            r.wf(),
            r@ == Map::<Seq<char>, nat>::empty(),
            r.spec_len() == 0,
    {
        WordCounts { keys: Vec::new(), counts: Vec::new() }
    }

    /// The number of distinct words counted.
    pub fn len(&self) -> (r: usize)
        ensures
            r == self.spec_len(),
    {
        self.keys.len()
    }

    /// The word stored at one position; positions `0 .. len()` walk every
    /// counted word once.
    pub fn key_at(&self, x: usize) -> (r: &String)
        requires
            self.wf(),
            x < self.spec_len(),
        ensures
            self@.contains_key(r@),
            self@[r@] == self.count_at_spec(x as int),
    {
        proof {
            lemma_counts_map_index(
                self.keys@.map_values(|k: String| k@),
                self.counts@,
                x as int,
            );
        }
        &self.keys[x]
    }

    /// The count stored at one position.
    pub closed spec fn count_at_spec(self, x: int) -> nat {
        self.counts@[x] as nat
    }

    /// The count stored at the same position as `key_at(x)`.
    pub fn count_at(&self, x: usize) -> (r: usize)
        requires
            self.wf(),
            x < self.spec_len(),
        ensures
            r == self.count_at_spec(x as int),
    {
        self.counts[x]
    }

    /// The store's length is the number of distinct words counted: exactly
    /// the size of the map's domain.
    pub proof fn lemma_len_is_distinct_words(self)
        requires
            self.wf(),
        ensures
            self@.dom().finite(),
            self.spec_len() == self@.dom().len(),
    {
        let ks = self.keys@.map_values(|k: String| k@);
        assert forall|p: int, q: int| 0 <= p < q < ks.len() implies ks[p] != ks[q] by {
            assert(ks[p] == self.keys@[p]@ && ks[q] == self.keys@[q]@);
        }
        lemma_counts_map_dom_len(ks, self.counts@);
    }

    /// The count recorded for a word, if it occurred.
    pub fn get(&self, word: &String) -> (r: Option<usize>)
        requires
            self.wf(),
        ensures
            match r {
                Some(c) => self@.contains_key(word@) && c == self@[word@],
                None => !self@.contains_key(word@),
            },
    {
        let ghost ks = self.keys@.map_values(|k: String| k@);
        let mut x: usize = 0;
        while x < self.keys.len()
            invariant
                self.wf(),
                0 <= x <= self.keys@.len(),
                ks == self.keys@.map_values(|k: String| k@),
                forall|p: int| 0 <= p < x ==> self.keys@[p]@ != word@,
            decreases self.keys@.len() - x,
        {
            if self.keys[x] == *word {
                proof {
                    lemma_counts_map_index(ks, self.counts@, x as int);
                }
                return Some(self.counts[x]);
            }
            x = x + 1;
        }
        proof {
            lemma_counts_map_contains(ks, self.counts@, word@);
        }
        None
    }

    /// Count one more occurrence of `word`. The new count must fit the
    /// machine word, which it does whenever fewer occurrences than
    /// `usize::MAX` have been counted.
    pub fn increment(&mut self, word: String)
        requires
            old(self).wf(),
            old(self)@.contains_key(word@) ==> old(self)@[word@] < usize::MAX,
        ensures
            final(self).wf(),
            final(self)@ == bump(old(self)@, word@),
            final(self).spec_len() == old(self).spec_len() + (if old(self)@.contains_key(
                word@,
            ) {
                0int
            } else {
                1int
            }),
    {
        let ghost ks = self.keys@.map_values(|k: String| k@);
        let mut x: usize = 0;
        while x < self.keys.len()
            invariant
                self.wf(),
                self.keys@ == old(self).keys@,
                self.counts@ == old(self).counts@,
                old(self)@.contains_key(word@) ==> old(self)@[word@] < usize::MAX,
                0 <= x <= self.keys@.len(),
                ks == self.keys@.map_values(|k: String| k@),
                forall|p: int| 0 <= p < x ==> self.keys@[p]@ != word@,
            decreases self.keys@.len() - x,
        {
            if self.keys[x] == word {
                proof {
                    lemma_counts_map_index(ks, self.counts@, x as int);
                    assert(ks[x as int] == word@);
                    assert(old(self)@.contains_key(word@));
                    assert(old(self)@[word@] == self.counts@[x as int] as nat);
                    assert(old(self)@[word@] < usize::MAX);
                    assert(self.counts@[x as int] < usize::MAX);
                }
                let c = self.counts[x];
                self.counts.set(x, c + 1);
                proof {
                    lemma_counts_map_update(ks, old(self).counts@, x as int, (c + 1) as usize);
                    assert(self@ =~= bump(old(self)@, word@));
                }
                return ;
            }
            x = x + 1;
        }
        proof {
            lemma_counts_map_contains(ks, self.counts@, word@);
            assert(!old(self)@.contains_key(word@));
        }
        self.keys.push(word);
        self.counts.push(1);
        proof {
            let ks2 = self.keys@.map_values(|k: String| k@);
            assert(ks2.drop_last() =~= ks);
            assert(ks2.last() == word@);
            assert(self.counts@.drop_last() =~= old(self).counts@);
            assert(self.counts@.last() == 1);
            assert(counts_map(ks2, self.counts@) == counts_map(
                ks,
                old(self).counts@,
            ).insert(word@, 1));
            assert forall|p: int, q: int|
                0 <= p < q < self.keys@.len() implies self.keys@[p]@ != self.keys@[q]@ by {
                if q == self.keys@.len() - 1 {
                    assert(ks[p] == self.keys@[p]@);
                }
            }
            assert(self@ =~= bump(old(self)@, word@));
        }
    }
}

impl View for WordCounts {
    type V = Map<Seq<char>, nat>;

    /// The map from lowered word to its count.
    closed spec fn view(&self) -> Map<Seq<char>, nat> {
        counts_map(self.keys@.map_values(|k: String| k@), self.counts@)
    }
}

/// Whether `c` is a word character.
fn is_word_char_exec(c: char) -> (r: bool)
    ensures
        r == is_word_char(c),
{
    c.is_alphanumeric() || c == '_'
}

/// Count how often each word occurs in `text`: every maximal run of word
/// characters, lowered, mapped to its number of occurrences.
#[verifier::rlimit(100)]
pub fn calculate_word_frequencies(text: &str) -> (r: WordCounts)
    ensures
        r.wf(),
        r@ == word_freqs(text@),
        r@.dom().finite(),
        r.spec_len() == r@.dom().len(),
{
    let n = text.unicode_len();
    let mut counts = WordCounts::new();
    let ghost whole = tokens_from(text@, 0);
    let ghost processed = Seq::<Seq<char>>::empty();
    proof {
        lemma_tokens_len(text@, 0);
    }
    let mut i: usize = 0;
    while i < n
        invariant
            text@.len() == n,
            0 <= i <= n,
            counts.wf(),
            whole == tokens_from(text@, 0),
            whole.len() <= n,
            counts@ == freqs_of(processed),
            processed + tokens_from(text@, i as int) == whole,
        decreases n - i,
    {
        let c = text.get_char(i);
        if !is_word_char_exec(c) {
            proof {
                assert(tokens_from(text@, i as int) == tokens_from(text@, i + 1));
            }
            i = i + 1;
        } else {
            // Find the end of the word run.
            let mut j = i + 1;
            while j < n && is_word_char_exec(text.get_char(j))
                invariant
                    text@.len() == n,
                    0 <= i < j <= n,
                    forall|k: int| i <= k < j ==> is_word_char(text@[k]),
                decreases n - j,
            {
                j = j + 1;
            }
            proof {
                lemma_token_end_is(text@, i as int, j as int);
            }
            // Cut the word out and lowercase it.
            let token_str = text.substring_char(i, j);
            let word = lowercase(token_str);
            let ghost token = text@.subrange(i as int, j as int);
            proof {
                assert(tokens_from(text@, i as int) == seq![token] + tokens_from(
                    text@,
                    j as int,
                ));
                assert(tokens_from(text@, i as int).len() >= 1);
                assert(processed.len() < whole.len());
                if counts@.contains_key(word@) {
                    lemma_freqs_bound(processed, word@);
                }
            }
            counts.increment(word);
            proof {
                let processed2 = processed.push(token);
                assert(processed2.drop_last() =~= processed);
                assert(processed2.last() == token);
                assert(counts@ == freqs_of(processed2));
                processed = processed2;
                assert(processed + tokens_from(text@, j as int) =~= whole);
            }
            i = j;
        }
    }
    proof {
        assert(tokens_from(text@, n as int) =~= Seq::<Seq<char>>::empty());
        assert(processed =~= whole);
        counts.lemma_len_is_distinct_words();
    }
    counts
}

/// Strict lexicographic order on character sequences, by code point; a
/// proper prefix comes first.
pub open spec fn lex_lt(a: Seq<char>, b: Seq<char>) -> bool
    decreases a.len(),
{
    if b.len() == 0 {
        false
    } else if a.len() == 0 {
        true
    } else if (a[0] as u32) < (b[0] as u32) {
        true
    } else if (a[0] as u32) > (b[0] as u32) {
        false
    } else {
        lex_lt(a.drop_first(), b.drop_first())
    }
}

/// `lex_lt` is a strict total order: irreflexive, asymmetric, and any two
/// distinct sequences are ordered.
pub proof fn lemma_lex_lt_connected(a: Seq<char>, b: Seq<char>)
    ensures
        a != b ==> lex_lt(a, b) || lex_lt(b, a),
        !(lex_lt(a, b) && lex_lt(b, a)),
        !lex_lt(a, a),
    decreases a.len() + b.len(),
{
    lemma_lex_lt_irrefl(a);
    if a.len() == 0 && b.len() == 0 {
        assert(a =~= b);
    } else if a.len() > 0 && b.len() > 0 {
        lemma_lex_lt_connected(a.drop_first(), b.drop_first());
        if (a[0] as u32) == (b[0] as u32) {
            vstd::utf8::char_u32_cast(a[0], a[0] as u32);
            vstd::utf8::char_u32_cast(b[0], b[0] as u32);
            assert(a[0] == b[0]);
        }
        if a[0] == b[0] && a.drop_first() == b.drop_first() {
            assert(a.len() == b.len());
            assert forall|i: int| 0 <= i < a.len() implies a[i] == b[i] by {
                if i > 0 {
                    assert(a[i] == a.drop_first()[i - 1]);
                    assert(b[i] == b.drop_first()[i - 1]);
                }
            }
            assert(a =~= b);
        }
    } else if a.len() == 0 {
        assert(lex_lt(a, b));
    } else {
        assert(lex_lt(b, a));
    }
}

/// No sequence comes before itself.
proof fn lemma_lex_lt_irrefl(a: Seq<char>)
    ensures
        !lex_lt(a, a),
    decreases a.len(),
{
    if a.len() > 0 {
        lemma_lex_lt_irrefl(a.drop_first());
    }
}

/// `lex_lt` is transitive.
pub proof fn lemma_lex_lt_trans(a: Seq<char>, b: Seq<char>, c: Seq<char>)
    requires
        lex_lt(a, b),
        lex_lt(b, c),
    ensures
        lex_lt(a, c),
    decreases a.len() + b.len() + c.len(),
{
    if a.len() > 0 && b.len() > 0 && c.len() > 0 {
        if (a[0] as u32) == (b[0] as u32) && (b[0] as u32) == (c[0] as u32) {
            lemma_lex_lt_trans(a.drop_first(), b.drop_first(), c.drop_first());
        }
    }
}

/// `lex_lt` restricted to equal prefixes: dropping an equal prefix from
/// both sides does not change the order.
proof fn lemma_lex_lt_skip(a: Seq<char>, b: Seq<char>, k: int)
    requires
        0 <= k <= a.len(),
        k <= b.len(),
        forall|p: int| 0 <= p < k ==> a[p] == b[p],
    ensures
        lex_lt(a, b) == lex_lt(a.skip(k), b.skip(k)),
    decreases k,
{
    if k > 0 {
        assert(a.len() > 0 && b.len() > 0);
        assert(a[0] == b[0]);
        lemma_lex_lt_skip(a.drop_first(), b.drop_first(), k - 1);
        assert(a.drop_first().skip(k - 1) =~= a.skip(k));
        assert(b.drop_first().skip(k - 1) =~= b.skip(k));
        assert(a.drop_first() =~= a.skip(1));
        assert(b.drop_first() =~= b.skip(1));
    } else {
        assert(a.skip(0) =~= a);
        assert(b.skip(0) =~= b);
    }
}

/// Whether `a` comes strictly before `b` lexicographically.
fn str_lex_lt(a: &str, b: &str) -> (r: bool)
    ensures
        r == lex_lt(a@, b@),
{
    let na = a.unicode_len();
    let nb = b.unicode_len();
    let mut k: usize = 0;
    while k < na && k < nb
        invariant
            na == a@.len(),
            nb == b@.len(),
            0 <= k <= na,
            k <= nb,
            forall|p: int| 0 <= p < k ==> a@[p] == b@[p],
        decreases na - k,
    {
        let ca = a.get_char(k);
        let cb = b.get_char(k);
        if (ca as u32) < (cb as u32) {
            proof {
                lemma_lex_lt_skip(a@, b@, k as int);
                assert(a@.skip(k as int)[0] == a@[k as int]);
                assert(b@.skip(k as int)[0] == b@[k as int]);
            }
            return true;
        }
        if (ca as u32) > (cb as u32) {
            proof {
                lemma_lex_lt_skip(a@, b@, k as int);
                assert(a@.skip(k as int)[0] == a@[k as int]);
                assert(b@.skip(k as int)[0] == b@[k as int]);
            }
            return false;
        }
        proof {
            assert(a@[k as int] == b@[k as int]);
        }
        k = k + 1;
    }
    proof {
        lemma_lex_lt_skip(a@, b@, k as int);
        if k == na && k < nb {
            assert(a@.skip(k as int).len() == 0);
            assert(b@.skip(k as int).len() > 0);
        } else {
            assert(b@.skip(k as int).len() == 0);
        }
    }
    na < nb
}

/// The view of one stored entry: the word and its count.
pub open spec fn pair_of(p: (String, usize)) -> (Seq<char>, nat) {
    (p.0@, p.1 as nat)
}

/// The ranking that orders a frequency report: greater count first, ties
/// broken by lexicographically smaller word.
pub open spec fn ranks_before(a: (Seq<char>, nat), b: (Seq<char>, nat)) -> bool {
    a.1 > b.1 || (a.1 == b.1 && lex_lt(a.0, b.0))
}

/// Whether `a`'s entry ranks before `b`'s.
fn ranks_before_exec(a: &(String, usize), b: &(String, usize)) -> (r: bool)
    ensures
        r == ranks_before(pair_of(*a), pair_of(*b)),
{
    if a.1 > b.1 {
        true
    } else if a.1 == b.1 {
        str_lex_lt(a.0.as_str(), b.0.as_str())
    } else {
        false
    }
}

/// The ranking is transitive, and any two entries with distinct words are
/// ordered one way or the other.
pub proof fn lemma_ranks_before_order(a: (Seq<char>, nat), b: (Seq<char>, nat), c: (
    Seq<char>,
    nat,
))
    ensures
        ranks_before(a, b) && ranks_before(b, c) ==> ranks_before(a, c),
        a.0 != b.0 ==> ranks_before(a, b) || ranks_before(b, a),
        !(ranks_before(a, b) && ranks_before(b, a)),
{
    lemma_lex_lt_connected(a.0, b.0);
    if ranks_before(a, b) && ranks_before(b, c) && a.1 == b.1 && b.1 == c.1 {
        lemma_lex_lt_trans(a.0, b.0, c.0);
    }
}

/// The `n` highest-ranked words with their counts: greater count first,
/// ties broken by lexicographically smaller word. Every word left out ranks
/// after every word included.
#[verifier::rlimit(100)]
pub fn top_n_common_words(word_frequencies: &WordCounts, n: usize) -> (r: Vec<(String, usize)>)
    requires
        word_frequencies.wf(),
    ensures
        r@.len() == if n <= word_frequencies.spec_len() {
            n as nat
        } else {
            word_frequencies.spec_len()
        },
        forall|x: int|
            0 <= x < r@.len() ==> #[trigger] word_frequencies@.contains_key(r@[x].0@)
                && word_frequencies@[r@[x].0@] == r@[x].1 as nat,
        forall|x: int, y: int|
            0 <= x < y < r@.len() ==> ranks_before(pair_of(r@[x]), pair_of(r@[y])),
        forall|w: Seq<char>|
            #[trigger] word_frequencies@.contains_key(w) ==> (exists|x: int|
                0 <= x < r@.len() && r@[x].0@ == w) || (forall|x: int|
                0 <= x < r@.len() ==> ranks_before(pair_of(r@[x]), (w, word_frequencies@[w]))),
{
    let ghost m_map = word_frequencies@;
    let ghost ks = word_frequencies.keys@.map_values(|k: String| k@);
    let total = word_frequencies.keys.len();
    let mut rest: Vec<(String, usize)> = Vec::new();
    let mut x: usize = 0;
    while x < total
        invariant
            word_frequencies.wf(),
            ks == word_frequencies.keys@.map_values(|k: String| k@),
            total == word_frequencies.keys@.len(),
            0 <= x <= total,
            rest@.len() == x,
            forall|p: int|
                0 <= p < x ==> rest@[p].0@ == ks[p] && rest@[p].1
                    == word_frequencies.counts@[p],
        decreases total - x,
    {
        let key = word_frequencies.keys[x].clone();
        let cnt = word_frequencies.counts[x];
        rest.push((key, cnt));
        x = x + 1;
    }
    proof {
        assert forall|p: int| 0 <= p < total implies #[trigger] m_map.contains_key(rest@[p].0@)
            && m_map[rest@[p].0@] == rest@[p].1 as nat by {
            lemma_counts_map_index(ks, word_frequencies.counts@, p);
        }
        assert forall|w: Seq<char>| #[trigger] m_map.contains_key(w) implies exists|p: int|
            0 <= p < rest@.len() && rest@[p].0@ == w by {
            lemma_counts_map_contains(ks, word_frequencies.counts@, w);
            let p = choose|p: int| 0 <= p < ks.len() && ks[p] == w;
            assert(rest@[p].0@ == w);
        }
        assert forall|p: int, q: int| 0 <= p < q < rest@.len() implies rest@[p].0@
            != rest@[q].0@ by {
            assert(rest@[p].0@ == ks[p] && rest@[q].0@ == ks[q]);
            assert(ks[p] == word_frequencies.keys@[p]@ && ks[q] == word_frequencies.keys@[q]@);
        }
    }
    let mut out: Vec<(String, usize)> = Vec::new();
    while out.len() < n && rest.len() > 0
        invariant
            out@.len() <= n,
            out@.len() + rest@.len() == total,
            total == word_frequencies.spec_len(),
            m_map == word_frequencies@,
            forall|p: int|
                0 <= p < rest@.len() ==> #[trigger] m_map.contains_key(rest@[p].0@)
                    && m_map[rest@[p].0@] == rest@[p].1 as nat,
            forall|p: int|
                0 <= p < out@.len() ==> #[trigger] m_map.contains_key(out@[p].0@)
                    && m_map[out@[p].0@] == out@[p].1 as nat,
            forall|p: int, q: int| 0 <= p < q < rest@.len() ==> rest@[p].0@ != rest@[q].0@,
            forall|p: int, q: int|
                0 <= p < out@.len() && 0 <= q < rest@.len() ==> out@[p].0@ != rest@[q].0@,
            forall|p: int, q: int|
                0 <= p < q < out@.len() ==> ranks_before(pair_of(out@[p]), pair_of(out@[q])),
            forall|p: int, q: int|
                0 <= p < out@.len() && 0 <= q < rest@.len() ==> ranks_before(
                    pair_of(out@[p]),
                    pair_of(rest@[q]),
                ),
            forall|w: Seq<char>|
                #[trigger] m_map.contains_key(w) ==> (exists|p: int|
                    0 <= p < out@.len() && out@[p].0@ == w) || (exists|p: int|
                    0 <= p < rest@.len() && rest@[p].0@ == w),
        decreases n - out@.len(),
    {
        let mut m: usize = 0;
        let mut t: usize = 1;
        while t < rest.len()
            invariant
                0 <= m < t,
                t <= rest@.len(),
                rest@.len() > 0,
                forall|p: int, q: int| 0 <= p < q < rest@.len() ==> rest@[p].0@ != rest@[q].0@,
                forall|p: int|
                    0 <= p < t && p != m ==> ranks_before(pair_of(rest@[m as int]), pair_of(rest@[p])),
            decreases rest@.len() - t,
        {
            if ranks_before_exec(&rest[t], &rest[m]) {
                proof {
                    assert forall|p: int| 0 <= p < t + 1 && p != t implies ranks_before(
                        pair_of(rest@[t as int]),
                        pair_of(rest@[p]),
                    ) by {
                        if p != m {
                            lemma_ranks_before_order(
                                pair_of(rest@[t as int]),
                                pair_of(rest@[m as int]),
                                pair_of(rest@[p]),
                            );
                        }
                    }
                }
                m = t;
            } else {
                proof {
                    lemma_ranks_before_order(
                        pair_of(rest@[m as int]),
                        pair_of(rest@[t as int]),
                        pair_of(rest@[t as int]),
                    );
                    assert(rest@[m as int].0@ != rest@[t as int].0@);
                    assert(ranks_before(pair_of(rest@[m as int]), pair_of(rest@[t as int])));
                }
            }
            t = t + 1;
        }
        let ghost rest0 = rest@;
        let ghost out0 = out@;
        let best = rest.remove(m);
        out.push(best);
        proof {
            assert(rest@ == rest0.remove(m as int));
            assert(out@ == out0.push(best));
            assert(best == rest0[m as int]);
            assert forall|p: int| 0 <= p < rest@.len() implies (#[trigger] pair_of(rest@[p])
                == pair_of(rest0[if p < m { p } else { p + 1 }])
                && rest@[p].0@ == rest0[if p < m { p } else { p + 1 }].0@) by {
                if p < m {
                    assert(rest@[p] == rest0[p]);
                } else {
                    assert(rest@[p] == rest0[p + 1]);
                }
            }
            assert forall|p: int, q: int|
                0 <= p < out@.len() && 0 <= q < rest@.len() implies ranks_before(
                pair_of(out@[p]),
                pair_of(rest@[q]),
            ) by {
                let q0: int = if q < m { q } else { q + 1 };
                if p < out@.len() - 1 {
                    assert(ranks_before(pair_of(out0[p]), pair_of(rest0[q0])));
                } else {
                    assert(out@[p] == best);
                    assert(ranks_before(pair_of(rest0[m as int]), pair_of(rest0[q0])));
                }
            }
            assert forall|p: int, q: int|
                0 <= p < out@.len() && 0 <= q < rest@.len() implies out@[p].0@
                != rest@[q].0@ by {
                let q0: int = if q < m { q } else { q + 1 };
                if p < out@.len() - 1 {
                    assert(out0[p].0@ != rest0[q0].0@);
                } else {
                    assert(out@[p] == best);
                    assert(rest0[m as int].0@ != rest0[q0].0@);
                }
            }
            assert forall|p: int, q: int| 0 <= p < q < out@.len() implies ranks_before(
                pair_of(out@[p]),
                pair_of(out@[q]),
            ) by {
                if q < out@.len() - 1 {
                    assert(ranks_before(pair_of(out0[p]), pair_of(out0[q])));
                } else {
                    assert(out@[q] == best);
                    assert(ranks_before(pair_of(out0[p]), pair_of(rest0[m as int])));
                }
            }
            assert forall|w: Seq<char>| #[trigger] m_map.contains_key(w) implies (exists|p: int|
                0 <= p < out@.len() && out@[p].0@ == w) || (exists|p: int|
                0 <= p < rest@.len() && rest@[p].0@ == w) by {
                if exists|p: int| 0 <= p < out0.len() && out0[p].0@ == w {
                    let p = choose|p: int| 0 <= p < out0.len() && out0[p].0@ == w;
                    assert(out@[p].0@ == w);
                } else {
                    let p = choose|p: int| 0 <= p < rest0.len() && rest0[p].0@ == w;
                    if p == m {
                        assert(out@[out@.len() - 1].0@ == w);
                    } else if p < m {
                        assert(rest@[p].0@ == w);
                    } else {
                        assert(rest@[p - 1].0@ == w);
                    }
                }
            }
        }
    }
    proof {
        assert forall|w: Seq<char>| #[trigger] m_map.contains_key(w) implies (exists|x2: int|
            0 <= x2 < out@.len() && out@[x2].0@ == w) || (forall|x2: int|
            0 <= x2 < out@.len() ==> ranks_before(pair_of(out@[x2]), (w, m_map[w]))) by {
            if !(exists|x2: int| 0 <= x2 < out@.len() && out@[x2].0@ == w) {
                let q = choose|q: int| 0 <= q < rest@.len() && rest@[q].0@ == w;
                assert(pair_of(rest@[q]) == (w, m_map[w]));
                assert forall|x2: int| 0 <= x2 < out@.len() implies ranks_before(
                    pair_of(out@[x2]),
                    (w, m_map[w]),
                ) by {
                    assert(ranks_before(pair_of(out@[x2]), pair_of(rest@[q])));
                }
            }
        }
    }
    out
}

/// The words that occur exactly once, each reported once.
pub fn word_with_unique_occurrences(word_frequencies: &WordCounts) -> (r: Vec<String>)
    requires
        word_frequencies.wf(),
    ensures
        forall|x: int|
            0 <= x < r@.len() ==> #[trigger] word_frequencies@.contains_key(r@[x]@)
                && word_frequencies@[r@[x]@] == 1,
        forall|w: Seq<char>|
            word_frequencies@.contains_key(w) && word_frequencies@[w] == 1 ==> exists|x: int|
                0 <= x < r@.len() && r@[x]@ == w,
        forall|p: int, q: int| 0 <= p < q < r@.len() ==> r@[p]@ != r@[q]@,
{
    let ghost m_map = word_frequencies@;
    let ghost ks = word_frequencies.keys@.map_values(|k: String| k@);
    let total = word_frequencies.keys.len();
    let mut r: Vec<String> = Vec::new();
    let ghost mut srcs = Seq::<int>::empty();
    let mut x: usize = 0;
    while x < total
        invariant
            word_frequencies.wf(),
            m_map == word_frequencies@,
            ks == word_frequencies.keys@.map_values(|k: String| k@),
            total == word_frequencies.keys@.len(),
            0 <= x <= total,
            forall|y: int|
                0 <= y < r@.len() ==> #[trigger] m_map.contains_key(r@[y]@) && m_map[r@[y]@]
                    == 1,
            forall|p: int|
                0 <= p < x && word_frequencies.counts@[p] == 1 ==> exists|y: int|
                    0 <= y < r@.len() && r@[y]@ == ks[p],
            srcs.len() == r@.len(),
            forall|y: int|
                0 <= y < r@.len() ==> 0 <= #[trigger] srcs[y] < x && ks[srcs[y]] == r@[y]@,
            forall|p: int, q: int| 0 <= p < q < r@.len() ==> r@[p]@ != r@[q]@,
        decreases total - x,
    {
        if word_frequencies.counts[x] == 1 {
            proof {
                lemma_counts_map_index(ks, word_frequencies.counts@, x as int);
                assert forall|y: int| 0 <= y < r@.len() implies r@[y]@ != ks[x as int] by {
                    let p = srcs[y];
                    assert(ks[p] == r@[y]@);
                    assert(word_frequencies.keys@[p]@ != word_frequencies.keys@[x as int]@);
                }
            }
            let ghost r0 = r@;
            r.push(word_frequencies.keys[x].clone());
            proof {
                assert(r@.last()@ == ks[x as int]);
                srcs = srcs.push(x as int);
                assert forall|p: int|
                    0 <= p < x + 1 && word_frequencies.counts@[p] == 1 implies exists|y: int|
                    0 <= y < r@.len() && r@[y]@ == ks[p] by {
                    if p == x {
                        assert(r@[r@.len() - 1]@ == ks[p]);
                    } else {
                        let y = choose|y: int| 0 <= y < r0.len() && r0[y]@ == ks[p];
                        assert(r@[y]@ == ks[p]);
                    }
                }
                assert forall|y: int| 0 <= y < r@.len() implies 0 <= #[trigger] srcs[y] < x + 1
                    && ks[srcs[y]] == r@[y]@ by {
                    if y < r@.len() - 1 {
                        assert(srcs[y] == srcs.drop_last()[y]);
                        assert(r@[y] == r@.drop_last()[y]);
                    }
                }
            }
        }
        x = x + 1;
    }
    proof {
        assert forall|w: Seq<char>| m_map.contains_key(w) && m_map[w] == 1 implies exists|y: int|
            0 <= y < r@.len() && r@[y]@ == w by {
            lemma_counts_map_contains(ks, word_frequencies.counts@, w);
            let p = choose|p: int| 0 <= p < ks.len() && ks[p] == w;
            lemma_counts_map_index(ks, word_frequencies.counts@, p);
            assert(word_frequencies.counts@[p] == 1);
        }
    }
    r
}

} // verus!
