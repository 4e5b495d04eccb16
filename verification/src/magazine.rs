//! Whether a ransom note can be cut out of a magazine: every word of the note
//! must appear in the magazine at least as often as in the note.
use vstd::prelude::*;

use crate::text::str_eq;

verus! {

/// How many entries of `words` spell `w`.
pub open spec fn count_word(words: Seq<&str>, w: Seq<char>) -> int
    decreases words.len(),
{
    if words.len() == 0 {
        0
    } else {
        (if words[0]@ == w {
            1int
        } else {
            0int
        }) + count_word(words.drop_first(), w)
    }
}

proof fn lemma_count_word_bounds(words: Seq<&str>, w: Seq<char>)
    ensures
        0 <= count_word(words, w) <= words.len(),
    decreases words.len(),
{
    if words.len() > 0 {
        lemma_count_word_bounds(words.drop_first(), w);
    }
}

/// How many entries of `words` spell `w`.
fn count_matches(words: &[&str], w: &str) -> (n: usize)
    ensures
        n == count_word(words@, w@),
{
    let mut n: usize = 0;
    let len = words.len();
    proof {
        assert(words@.skip(0) =~= words@);
        lemma_count_word_bounds(words@, w@);
    }
    for i in 0..len
        invariant
            len == words@.len(),
            n + count_word(words@.skip(i as int), w@) == count_word(words@, w@),
            n <= i,
    {
        proof {
            assert(words@.skip(i as int).drop_first() =~= words@.skip(i + 1));
            assert(words@.skip(i as int)[0] == words@[i as int]);
            lemma_count_word_bounds(words@.skip(i + 1), w@);
        }
        if str_eq(words[i], w) {
            n = n + 1;
        }
    }
    proof {
        assert(words@.skip(len as int) =~= Seq::<&str>::empty());
    }
    n
}

/// Whether the note can be assembled from the magazine's words: each word
/// occurs in the note no more often than in the magazine.
pub fn can_construct_note(magazine: &[&str], note: &[&str]) -> (r: bool)
    ensures
        r == (forall|j: int|
            0 <= j < note@.len() ==> count_word(note@, (#[trigger] note@[j])@) <= count_word(
                magazine@,
                note@[j]@,
            )),
{
    let len = note.len();
    for j in 0..len
        invariant
            len == note@.len(),
            forall|l: int|
                0 <= l < j ==> count_word(note@, (#[trigger] note@[l])@) <= count_word(
                    magazine@,
                    note@[l]@,
                ),
    {
        let in_note = count_matches(note, note[j]);
        let in_magazine = count_matches(magazine, note[j]);
        if in_note > in_magazine {
            return false;
        }
    }
    true
}

} // verus!
