use crate::grid::Grid;
use crate::Error;
use vstd::prelude::*;

verus! {

/// Whether the vocabulary holds a word with exactly these characters.
pub open spec fn in_dictionary(dict: Seq<String>, w: Seq<char>) -> bool {
    exists|j: int| 0 <= j < dict.len() && #[trigger] dict[j]@ == w
}

/// Whether the vocabulary holds this word.
fn dictionary_contains(dictionary: &Vec<String>, w: &String) -> (r: bool)
    ensures
        r == in_dictionary(dictionary@, w@),
{
    let mut j: usize = 0;
    while j < dictionary.len()
        invariant
            j <= dictionary@.len(),
            forall|k: int| 0 <= k < j ==> #[trigger] dictionary@[k]@ != w@,
        decreases dictionary@.len() - j,
    {
        if dictionary[j].eq(w) {
            return true;
        }
        j = j + 1;
    }
    false
}

impl Grid<Option<char>> {
    /// Checks every word against the vocabulary. Succeeds exactly when all
    /// words occur in it; otherwise fails on the first absent word, in input
    /// order, naming that word.
    pub fn validate_words(words: &Vec<String>, dictionary: &Vec<String>) -> (r: Result<(), Error>)
        ensures
            r is Ok <==> forall|i: int|
                0 <= i < words@.len() ==> in_dictionary(dictionary@, #[trigger] words@[i]@),
            r is Err ==> r->Err_0 is InvalidWord,
            r is Err ==> exists|i: int|
                {
                    &&& 0 <= i < words@.len()
                    &&& !in_dictionary(dictionary@, #[trigger] words@[i]@)
                    &&& r->Err_0->InvalidWord_0@ == words@[i]@
                    &&& forall|j: int| 0 <= j < i ==> in_dictionary(dictionary@, #[trigger] words@[j]@)
                },
    {
        let mut i: usize = 0;
        while i < words.len()
            invariant
                i <= words@.len(),
                forall|j: int| 0 <= j < i ==> in_dictionary(dictionary@, #[trigger] words@[j]@),
            decreases words@.len() - i,
        {
            if !dictionary_contains(dictionary, &words[i]) {
                return Err(Error::InvalidWord(words[i].clone()));
            }
            i = i + 1;
        }
        Ok(())
    }
}

} // verus!
