//! The indexer application: `map` emits one `(word, filename)` record per
//! distinct word of the input, `reduce` lists the count and the sorted
//! file names of a word.

use vstd::prelude::*;
use crate::models::{KeyValue, kvs_view};
use crate::strings::{
    words_of, split_alphabetic, u64_to_string, spec_decimal, lex_le, str_le, lemma_lex_total,
    lemma_lex_trans, lemma_lex_refl,
};

verus! {

/// First occurrence of each word, in text order.
pub open spec fn dedup_words(ws: Seq<Seq<char>>) -> Seq<Seq<char>>
    decreases ws.len(),
{
    if ws.len() == 0 {
        Seq::empty()
    } else {
        let d = dedup_words(ws.drop_last());
        if d.contains(ws.last()) {
            d
        } else {
            d.push(ws.last())
        }
    }
}

/// Whether some string of the list reads as `w`.
fn contains_string(v: &Vec<String>, w: &String) -> (r: bool)
    ensures
        r == v.deep_view().contains(w@),
{
    let mut i: usize = 0;
    while i < v.len()
        invariant
            i <= v@.len(),
            forall|j: int| 0 <= j < i ==> (#[trigger] v.deep_view()[j]) != w@,
        decreases v@.len() - i,
    {
        if v[i].eq(w) {
            proof {
                assert(v.deep_view()[i as int] == w@);
            }
            return true;
        }
        i += 1;
    }
    proof {
        if v.deep_view().contains(w@) {
            let j = choose|j: int| 0 <= j < v.deep_view().len() && v.deep_view()[j] == w@;
            assert(v.deep_view()[j] != w@);
        }
    }
    false
}

/// One record per distinct word of the contents, first occurrences in text
/// order, each valued with the file's name.
pub fn map(filename: String, contents: String) -> (r: Vec<KeyValue>)
    ensures
        kvs_view(r@) == dedup_words(words_of(contents@)).map_values(
            |w: Seq<char>| (w, filename@),
        ),
{
    let words = split_alphabetic(contents.as_str());
    let mut distinct: Vec<String> = Vec::new();
    let mut i: usize = 0;
    while i < words.len()
        invariant
            i <= words@.len(),
            words.deep_view() == words_of(contents@),
            words.deep_view().len() == words@.len(),
            distinct.deep_view() == dedup_words(words.deep_view().take(i as int)),
        decreases words@.len() - i,
    {
        proof {
            assert(words.deep_view().take(i as int + 1).drop_last() =~= words.deep_view().take(
                i as int,
            ));
            assert(words.deep_view().take(i as int + 1).last() == words.deep_view()[i as int]);
        }
        let w = &words[i];
        if !contains_string(&distinct, w) {
            let ghost before = distinct.deep_view();
            distinct.push(w.clone());
            proof {
                assert(distinct.deep_view() =~= before.push(w@));
            }
        }
        i += 1;
    }
    proof {
        assert(words.deep_view().take(words@.len() as int) =~= words.deep_view());
    }
    let mut r: Vec<KeyValue> = Vec::new();
    let mut k: usize = 0;
    while k < distinct.len()
        invariant
            k <= distinct@.len(),
            distinct.deep_view() == dedup_words(words_of(contents@)),
            distinct.deep_view().len() == distinct@.len(),
            kvs_view(r@).len() == k,
            forall|j: int|
                0 <= j < k ==> (#[trigger] kvs_view(r@)[j]) == (
                distinct.deep_view()[j],
                filename@,
            ),
        decreases distinct@.len() - k,
    {
        let ghost ddv = distinct.deep_view();
        let ghost rv_before = kvs_view(r@);
        r.push(KeyValue { key: distinct[k].clone(), value: filename.clone() });
        proof {
            assert(r@.last()@ == (ddv[k as int], filename@));
            assert forall|j: int|
                0 <= j < k + 1 implies (#[trigger] kvs_view(r@)[j]) == (ddv[j], filename@) by {
                assert(kvs_view(r@)[j] == r@[j]@);
                if j < k {
                    assert(r@[j]@ == rv_before[j]);
                }
            }
        }
        k += 1;
    }
    proof {
        assert(kvs_view(r@) =~= dedup_words(words_of(contents@)).map_values(
            |w: Seq<char>| (w, filename@),
        ));
    }
    r
}

/// Stable insertion of a string into an ordered run.
pub open spec fn spec_insert_str(s: Seq<Seq<char>>, x: Seq<char>) -> Seq<Seq<char>>
    decreases s.len(),
{
    if s.len() == 0 {
        seq![x]
    } else if lex_le(s.last(), x) {
        s.push(x)
    } else {
        spec_insert_str(s.drop_last(), x).push(s.last())
    }
}

/// Stable insertion sort of strings.
pub open spec fn spec_sort_strs(s: Seq<Seq<char>>) -> Seq<Seq<char>>
    decreases s.len(),
{
    if s.len() == 0 {
        Seq::empty()
    } else {
        spec_insert_str(spec_sort_strs(s.drop_last()), s.last())
    }
}

/// A run of strings that never descends.
pub open spec fn sorted_strs(s: Seq<Seq<char>>) -> bool {
    forall|i: int, j: int| 0 <= i < j < s.len() ==> lex_le(#[trigger] s[i], #[trigger] s[j])
}

proof fn lemma_spec_insert_str_len(s: Seq<Seq<char>>, x: Seq<char>)
    ensures
        spec_insert_str(s, x).len() == s.len() + 1,
    decreases s.len(),
{
    if s.len() > 0 && !lex_le(s.last(), x) {
        lemma_spec_insert_str_len(s.drop_last(), x);
    }
}

proof fn lemma_spec_insert_str_positions(s: Seq<Seq<char>>, x: Seq<char>, i: int)
    requires
        0 <= i < spec_insert_str(s, x).len(),
    ensures
        spec_insert_str(s, x)[i] == x || exists|k: int|
            0 <= k < s.len() && spec_insert_str(s, x)[i] == s[k],
    decreases s.len(),
{
    lemma_spec_insert_str_len(s, x);
    if s.len() == 0 {
    } else if lex_le(s.last(), x) {
    } else {
        lemma_spec_insert_str_len(s.drop_last(), x);
        if i < spec_insert_str(s.drop_last(), x).len() {
            lemma_spec_insert_str_positions(s.drop_last(), x, i);
            if spec_insert_str(s, x)[i] != x {
                let k = choose|k: int|
                    0 <= k < s.drop_last().len() && spec_insert_str(s.drop_last(), x)[i]
                        == s.drop_last()[k];
                assert(spec_insert_str(s, x)[i] == s[k]);
            }
        } else {
            assert(spec_insert_str(s, x)[i] == s[s.len() - 1]);
        }
    }
}

proof fn lemma_spec_insert_str_sorted(s: Seq<Seq<char>>, x: Seq<char>)
    requires
        sorted_strs(s),
    ensures
        sorted_strs(spec_insert_str(s, x)),
        spec_insert_str(s, x).len() == s.len() + 1,
        spec_insert_str(s, x).to_multiset() == s.to_multiset().insert(x),
    decreases s.len(),
{
    broadcast use vstd::seq_lib::group_seq_properties;

    let out = spec_insert_str(s, x);
    if s.len() == 0 {
        assert(out =~= Seq::empty().push(x));
        assert(out.to_multiset() =~= s.to_multiset().insert(x));
    } else if lex_le(s.last(), x) {
        assert forall|i: int, j: int| 0 <= i < j < out.len() implies lex_le(
            #[trigger] out[i],
            #[trigger] out[j],
        ) by {
            if j == out.len() - 1 {
                if i < s.len() - 1 {
                    lemma_lex_trans(s[i], s.last(), x);
                }
            }
        }
        assert(out.to_multiset() =~= s.to_multiset().insert(x));
    } else {
        let dl = s.drop_last();
        assert(sorted_strs(dl)) by {
            assert(forall|i: int| 0 <= i < dl.len() ==> dl[i] == s[i]);
        }
        lemma_spec_insert_str_sorted(dl, x);
        lemma_spec_insert_str_len(dl, x);
        let inner = spec_insert_str(dl, x);
        lemma_lex_total(s.last(), x);
        assert forall|i: int| 0 <= i < inner.len() implies lex_le(
            #[trigger] inner[i],
            s.last(),
        ) by {
            lemma_spec_insert_str_positions(dl, x, i);
            if inner[i] == x {
                assert(lex_le(x, s.last()));
            } else {
                let k = choose|k: int| 0 <= k < dl.len() && inner[i] == dl[k];
                lemma_lex_refl(dl[k]);
                if k < dl.len() - 1 {
                    assert(lex_le(dl[k], s[s.len() - 2]));
                } else {
                    assert(dl[k] == s[s.len() - 2]);
                }
                lemma_lex_trans(dl[k], s[s.len() - 2], s.last());
            }
        }
        assert(sorted_strs(out)) by {
            assert(forall|i: int| 0 <= i < inner.len() ==> out[i] == inner[i]);
            assert(out.last() == s.last());
        }
        assert(dl.to_multiset().insert(x).insert(s.last()) =~= dl.to_multiset().insert(
            s.last(),
        ).insert(x));
        assert(s =~= dl.push(s.last()));
        assert(out.to_multiset() == s.to_multiset().insert(x));
    }
}

/// The sorted values are exactly the given values, in ascending order:
/// what the reduce result's comma-separated list holds.
pub proof fn lemma_spec_sort_strs_sorted(s: Seq<Seq<char>>)
    ensures
        sorted_strs(spec_sort_strs(s)),
        spec_sort_strs(s).len() == s.len(),
        spec_sort_strs(s).to_multiset() == s.to_multiset(),
    decreases s.len(),
{
    broadcast use vstd::seq_lib::group_seq_properties;

    if s.len() > 0 {
        lemma_spec_sort_strs_sorted(s.drop_last());
        lemma_spec_insert_str_sorted(spec_sort_strs(s.drop_last()), s.last());
        assert(s =~= s.drop_last().push(s.last()));
    }
}

/// Sort strings, stably, into lexicographic order.
pub fn sort_strings(values: &Vec<String>) -> (r: Vec<String>)
    ensures
        r.deep_view() == spec_sort_strs(values.deep_view()),
{
    let ghost vv = values.deep_view();
    let mut out: Vec<String> = Vec::new();
    let mut i: usize = 0;
    while i < values.len()
        invariant
            i <= values@.len(),
            vv == values.deep_view(),
            vv.len() == values@.len(),
            out.deep_view() == spec_sort_strs(vv.take(i as int)),
        decreases values@.len() - i,
    {
        let x = values[i].clone();
        let ghost xv = x@;
        let ghost before = out.deep_view();
        let mut j = out.len();
        let mut stop = false;
        proof {
            assert(before.take(j as int) =~= before);
            assert(spec_insert_str(before, xv) + before.skip(j as int) =~= spec_insert_str(
                before,
                xv,
            ));
        }
        while j > 0 && !stop
            invariant
                j <= out@.len(),
                out.deep_view() == before,
                out.deep_view().len() == out@.len(),
                x@ == xv,
                stop ==> j > 0 && lex_le(before[j as int - 1], xv),
                spec_insert_str(before, xv) == spec_insert_str(before.take(j as int), xv)
                    + before.skip(j as int),
            decreases (if stop {
                0int
            } else {
                j as int + 1
            }),
        {
            if str_le(out[j - 1].as_str(), x.as_str()) {
                stop = true;
            } else {
                proof {
                    let t = before.take(j as int);
                    assert(t.last() == before[j as int - 1]);
                    assert(!lex_le(t.last(), xv));
                    assert(t.drop_last() =~= before.take(j as int - 1));
                    assert(spec_insert_str(before.take(j as int - 1), xv).push(
                        before[j as int - 1],
                    ) + before.skip(j as int) =~= spec_insert_str(before.take(j as int - 1), xv)
                        + before.skip(j as int - 1));
                }
                j -= 1;
            }
        }
        proof {
            let t = before.take(j as int);
            if j > 0 {
                assert(t.last() == before[j as int - 1]);
                assert(lex_le(t.last(), xv));
                assert(spec_insert_str(t, xv) =~= t.push(xv));
            } else {
                assert(t.len() == 0);
            }
            assert(spec_insert_str(before, xv) =~= before.take(j as int).push(xv) + before.skip(
                j as int,
            ));
        }
        out.insert(j, x);
        proof {
            assert(out.deep_view() =~= spec_insert_str(before, xv));
            assert(vv.take(i as int + 1).drop_last() =~= vv.take(i as int));
            assert(vv.take(i as int + 1).last() == vv[i as int]);
        }
        i += 1;
    }
    proof {
        assert(vv.take(values@.len() as int) =~= vv);
    }
    out
}

/// The values joined by commas, in order.
pub open spec fn spec_join_comma(vs: Seq<Seq<char>>) -> Seq<char>
    decreases vs.len(),
{
    if vs.len() == 0 {
        Seq::empty()
    } else if vs.len() == 1 {
        vs[0]
    } else {
        spec_join_comma(vs.drop_last()) + seq![','] + vs.last()
    }
}

/// The count of a key's values and the sorted values joined by commas,
/// separated by one space; the key plays no part.
pub fn reduce(_key: String, values: Vec<String>) -> (r: String)
    ensures
        r@ == spec_decimal(values@.len()) + seq![' '] + spec_join_comma(
            spec_sort_strs(values.deep_view()),
        ),
{
    let sorted = sort_strings(&values);
    let mut r = u64_to_string(values.len() as u64);
    r.append(" ");
    proof {
        reveal_strlit(" ");
        assert(" "@ =~= seq![' ']);
        assert(values.deep_view().len() == values@.len());
    }
    let ghost sv = sorted.deep_view();
    let ghost head = spec_decimal(values@.len()) + seq![' '];
    let mut k: usize = 0;
    while k < sorted.len()
        invariant
            k <= sorted@.len(),
            sv == sorted.deep_view(),
            sv.len() == sorted@.len(),
            r@ == head + spec_join_comma(sv.take(k as int)),
        decreases sorted@.len() - k,
    {
        if k > 0 {
            r.append(",");
            proof {
                reveal_strlit(",");
                assert(","@ =~= seq![',']);
            }
        }
        r.append(sorted[k].as_str());
        proof {
            assert(sv.take(k as int + 1).drop_last() =~= sv.take(k as int));
            assert(sv.take(k as int + 1).last() == sv[k as int]);
            if k == 0 {
                assert(head + Seq::<char>::empty() =~= head);
                assert(sv.take(1)[0] == sv[0]);
                assert(r@ =~= head + spec_join_comma(sv.take(1)));
            } else {
                assert(r@ =~= head + spec_join_comma(sv.take(k as int + 1)));
            }
        }
        k += 1;
    }
    proof {
        assert(sv.take(sorted@.len() as int) =~= sv);
        if sorted@.len() == 0 {
            assert(head + spec_join_comma(sv) =~= head);
        }
    }
    r
}

} // verus!
