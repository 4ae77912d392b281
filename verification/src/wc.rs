//! The word-count application: `map` emits one `(word, "1")` record per
//! word of the input, `reduce` counts the values of a key.

use vstd::prelude::*;
use crate::models::{KeyValue, kvs_view};
use crate::strings::{words_of, split_alphabetic, u64_to_string, spec_decimal};

verus! {

/// The word-count records of a text: each word paired with `"1"`.
pub open spec fn wc_pairs(s: Seq<char>) -> Seq<(Seq<char>, Seq<char>)> {
    words_of(s).map_values(|w: Seq<char>| (w, seq!['1']))
}

/// One record per word of the contents, in text order, each with the
/// count `"1"`; the file name plays no part.
pub fn map(_filename: String, contents: String) -> (r: Vec<KeyValue>)
    ensures
        kvs_view(r@) == wc_pairs(contents@),
{
    let words = split_alphabetic(contents.as_str());
    let mut r: Vec<KeyValue> = Vec::new();
    let mut i: usize = 0;
    while i < words.len()
        invariant
            i <= words@.len(),
            words.deep_view() == words_of(contents@),
            words.deep_view().len() == words@.len(),
            kvs_view(r@).len() == i,
            forall|j: int|
                0 <= j < i ==> (#[trigger] kvs_view(r@)[j]) == (
                words.deep_view()[j],
                seq!['1'],
            ),
        decreases words@.len() - i,
    {
        let one = String::from_str("1");
        proof {
            reveal_strlit("1");
            assert(one@ =~= seq!['1']);
        }
        let ghost wdv = words.deep_view();
        let ghost rv_before = kvs_view(r@);
        r.push(KeyValue { key: words[i].clone(), value: one });
        proof {
            assert(r@.last()@ == (wdv[i as int], seq!['1']));
            assert forall|j: int|
                0 <= j < i + 1 implies (#[trigger] kvs_view(r@)[j]) == (wdv[j], seq!['1']) by {
                assert(kvs_view(r@)[j] == r@[j]@);
                if j < i {
                    assert(r@[j]@ == rv_before[j]);
                }
            }
        }
        i += 1;
    }
    proof {
        assert(kvs_view(r@) =~= wc_pairs(contents@));
    }
    r
}

/// The count of a key's values, in decimal; the key plays no part.
pub fn reduce(_key: String, values: Vec<String>) -> (r: String)
    ensures
        r@ == spec_decimal(values@.len()),
{
    u64_to_string(values.len() as u64)
}

} // verus!
