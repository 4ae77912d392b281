//! The worker's task pipeline, as pure computation: partitioning map
//! output by key hash, sorting and grouping a reducer's records, rendering
//! the output file, and naming the files involved. Reading, writing and
//! renaming the files, and the RPC calls around them, happen outside the
//! library; they hand these functions plain values.

use vstd::prelude::*;
use crate::models::{KeyValue, kvs_view};
use crate::hash::{bucket_spec, bucket_for};
use crate::strings::{
    lex_le, lemma_lex_total, lemma_lex_trans, lemma_lex_refl, str_le, u64_to_string,
    spec_decimal, concat3,
};

verus! {

/// The records of one bucket: the subsequence of records whose key hashes
/// to reducer `p`, in input order.
pub open spec fn spec_bucket(
    records: Seq<(Seq<char>, Seq<char>)>,
    n_reduce: u32,
    p: u32,
) -> Seq<(Seq<char>, Seq<char>)>
    decreases records.len(),
{
    if records.len() == 0 {
        Seq::empty()
    } else {
        spec_bucket(records.drop_last(), n_reduce, p) + (if bucket_spec(
            records.last().0,
            n_reduce,
        ) == p {
            seq![records.last()]
        } else {
            Seq::empty()
        })
    }
}

/// Partition records among `n_reduce` buckets: bucket `p` receives exactly
/// the records whose key hashes to `p`, keeping their order — every record
/// lands in exactly the one bucket its key names.
pub fn partition_records(records: &Vec<KeyValue>, n_reduce: u32) -> (buckets: Vec<Vec<KeyValue>>)
    requires
        n_reduce >= 1,
    ensures
        buckets@.len() == n_reduce,
        forall|p: int|
            0 <= p < n_reduce ==> kvs_view(#[trigger] buckets@[p]@) == spec_bucket(
                kvs_view(records@),
                n_reduce,
                p as u32,
            ),
{
    let ghost rv = kvs_view(records@);
    let mut buckets: Vec<Vec<KeyValue>> = Vec::new();
    let mut p: u32 = 0;
    while p < n_reduce
        invariant
            n_reduce >= 1,
            p <= n_reduce,
            rv == kvs_view(records@),
            buckets@.len() == p,
            forall|q: int|
                0 <= q < p ==> kvs_view(#[trigger] buckets@[q]@) == spec_bucket(
                    rv,
                    n_reduce,
                    q as u32,
                ),
        decreases n_reduce - p,
    {
        let mut bucket: Vec<KeyValue> = Vec::new();
        let mut i: usize = 0;
        while i < records.len()
            invariant
                n_reduce >= 1,
                rv == kvs_view(records@),
                i <= records@.len(),
                rv.len() == records@.len(),
                kvs_view(bucket@) == spec_bucket(rv.take(i as int), n_reduce, p),
            decreases records@.len() - i,
        {
            proof {
                assert(rv.take(i as int + 1).drop_last() =~= rv.take(i as int));
                assert(rv.take(i as int + 1).last() == rv[i as int]);
            }
            let h = bucket_for(records[i].key.as_str(), n_reduce);
            if h == p {
                bucket.push(records[i].duplicate());
                proof {
                    assert(kvs_view(bucket@) =~= spec_bucket(
                        rv.take(i as int + 1),
                        n_reduce,
                        p,
                    ));
                }
            } else {
                proof {
                    assert(kvs_view(bucket@) =~= spec_bucket(
                        rv.take(i as int + 1),
                        n_reduce,
                        p,
                    ));
                }
            }
            i += 1;
        }
        proof {
            assert(rv.take(records@.len() as int) =~= rv);
        }
        buckets.push(bucket);
        p += 1;
    }
    buckets
}

/// Exactly one reducer is responsible for a record: it sits in bucket `p`
/// exactly when it is in the input and its key hashes to `p`.
pub proof fn lemma_bucket_membership(
    records: Seq<(Seq<char>, Seq<char>)>,
    n_reduce: u32,
    p: u32,
    kv: (Seq<char>, Seq<char>),
)
    ensures
        spec_bucket(records, n_reduce, p).contains(kv) <==> (records.contains(kv) && bucket_spec(
            kv.0,
            n_reduce,
        ) == p),
    decreases records.len(),
{
    if records.len() == 0 {
        assert(!records.contains(kv));
        assert(!spec_bucket(records, n_reduce, p).contains(kv));
    } else {
        let dl = records.drop_last();
        lemma_bucket_membership(dl, n_reduce, p, kv);
        let b = spec_bucket(records, n_reduce, p);
        let bdl = spec_bucket(dl, n_reduce, p);
        if b.contains(kv) {
            let i = choose|i: int| 0 <= i < b.len() && b[i] == kv;
            if i < bdl.len() {
                assert(bdl.contains(kv));
                assert(records[choose|j: int| 0 <= j < dl.len() && dl[j] == kv] == kv);
            } else {
                assert(kv == records.last());
            }
        }
        if records.contains(kv) && bucket_spec(kv.0, n_reduce) == p {
            let j = choose|j: int| 0 <= j < records.len() && records[j] == kv;
            if j < records.len() - 1 {
                assert(dl[j] == kv);
                assert(bdl.contains(kv));
                let i = choose|i: int| 0 <= i < bdl.len() && bdl[i] == kv;
                assert(b[i] == kv);
            } else {
                assert(b[b.len() - 1] == kv);
            }
        }
    }
}

/// With one reducer, every record is in bucket zero: the bucket is the
/// whole input.
pub proof fn lemma_partition_single_reducer(records: Seq<(Seq<char>, Seq<char>)>)
    ensures
        spec_bucket(records, 1, 0) == records,
    decreases records.len(),
{
    if records.len() > 0 {
        lemma_partition_single_reducer(records.drop_last());
        crate::hash::lemma_single_reducer_bucket(records.last().0);
        assert(spec_bucket(records, 1, 0) =~= records);
    } else {
        assert(spec_bucket(records, 1, 0) =~= records);
    }
}

/// Stable insertion of a record into a key-sorted run: the record goes
/// after every record whose key is at or below its own.
pub open spec fn spec_insert_kv(
    s: Seq<(Seq<char>, Seq<char>)>,
    x: (Seq<char>, Seq<char>),
) -> Seq<(Seq<char>, Seq<char>)>
    decreases s.len(),
{
    if s.len() == 0 {
        seq![x]
    } else if lex_le(s.last().0, x.0) {
        s.push(x)
    } else {
        spec_insert_kv(s.drop_last(), x).push(s.last())
    }
}

/// Stable insertion sort of records by key.
pub open spec fn spec_sort_kvs(s: Seq<(Seq<char>, Seq<char>)>) -> Seq<(Seq<char>, Seq<char>)>
    decreases s.len(),
{
    if s.len() == 0 {
        Seq::empty()
    } else {
        spec_insert_kv(spec_sort_kvs(s.drop_last()), s.last())
    }
}

/// A run of records whose keys never descend.
pub open spec fn sorted_by_key(s: Seq<(Seq<char>, Seq<char>)>) -> bool {
    forall|i: int, j: int| 0 <= i < j < s.len() ==> lex_le((#[trigger] s[i]).0, (#[trigger] s[j]).0)
}

proof fn lemma_spec_insert_kv_len(s: Seq<(Seq<char>, Seq<char>)>, x: (Seq<char>, Seq<char>))
    ensures
        spec_insert_kv(s, x).len() == s.len() + 1,
    decreases s.len(),
{
    if s.len() > 0 && !lex_le(s.last().0, x.0) {
        lemma_spec_insert_kv_len(s.drop_last(), x);
    }
}

proof fn lemma_spec_insert_kv_sorted(s: Seq<(Seq<char>, Seq<char>)>, x: (Seq<char>, Seq<char>))
    requires
        sorted_by_key(s),
    ensures
        sorted_by_key(spec_insert_kv(s, x)),
        spec_insert_kv(s, x).len() == s.len() + 1,
        spec_insert_kv(s, x).to_multiset() == s.to_multiset().insert(x),
    decreases s.len(),
{
    broadcast use vstd::seq_lib::group_seq_properties;

    let out = spec_insert_kv(s, x);
    if s.len() == 0 {
        assert(out =~= Seq::empty().push(x));
        assert(out.to_multiset() =~= s.to_multiset().insert(x));
    } else if lex_le(s.last().0, x.0) {
        assert forall|i: int, j: int| 0 <= i < j < out.len() implies lex_le(
            (#[trigger] out[i]).0,
            (#[trigger] out[j]).0,
        ) by {
            if j == out.len() - 1 {
                if i < s.len() - 1 {
                    lemma_lex_trans(s[i].0, s.last().0, x.0);
                }
            }
        }
        assert(out.to_multiset() =~= s.to_multiset().insert(x));
    } else {
        let dl = s.drop_last();
        assert(sorted_by_key(dl)) by {
            assert(forall|i: int| 0 <= i < dl.len() ==> dl[i] == s[i]);
        }
        lemma_spec_insert_kv_sorted(dl, x);
        lemma_spec_insert_kv_len(dl, x);
        let inner = spec_insert_kv(dl, x);
        lemma_lex_total(s.last().0, x.0);
        // every key in the inner run is at or below the displaced last key
        assert forall|i: int| 0 <= i < inner.len() implies lex_le(
            (#[trigger] inner[i]).0,
            s.last().0,
        ) by {
            lemma_spec_insert_kv_positions(dl, x, i);
            if inner[i] == x {
                assert(lex_le(x.0, s.last().0));
            } else {
                let k = choose|k: int| 0 <= k < dl.len() && inner[i] == dl[k];
                lemma_lex_refl(dl[k].0);
                if k < dl.len() - 1 {
                    assert(lex_le(dl[k].0, s[s.len() - 2].0));
                } else {
                    assert(dl[k] == s[s.len() - 2]);
                }
                lemma_lex_trans(dl[k].0, s[s.len() - 2].0, s.last().0);
            }
        }
        assert(sorted_by_key(out)) by {
            assert(forall|i: int| 0 <= i < inner.len() ==> out[i] == inner[i]);
            assert(out.last() == s.last());
        }
        assert(dl.to_multiset().insert(x).insert(s.last()) =~= dl.to_multiset().insert(
            s.last(),
        ).insert(x));
        assert(s =~= dl.push(s.last()));
        assert(out.to_multiset() == s.to_multiset().insert(x));
    }
}

/// Every element of an insertion's result is the inserted record or one of
/// the run's own.
proof fn lemma_spec_insert_kv_positions(
    s: Seq<(Seq<char>, Seq<char>)>,
    x: (Seq<char>, Seq<char>),
    i: int,
)
    requires
        0 <= i < spec_insert_kv(s, x).len(),
    ensures
        spec_insert_kv(s, x)[i] == x || exists|k: int|
            0 <= k < s.len() && spec_insert_kv(s, x)[i] == s[k],
    decreases s.len(),
{
    lemma_spec_insert_kv_len(s, x);
    if s.len() == 0 {
    } else if lex_le(s.last().0, x.0) {
    } else {
        lemma_spec_insert_kv_len(s.drop_last(), x);
        if i < spec_insert_kv(s.drop_last(), x).len() {
            lemma_spec_insert_kv_positions(s.drop_last(), x, i);
            if spec_insert_kv(s, x)[i] != x {
                let k = choose|k: int|
                    0 <= k < s.drop_last().len() && spec_insert_kv(s.drop_last(), x)[i]
                        == s.drop_last()[k];
                assert(spec_insert_kv(s, x)[i] == s[k]);
            }
        } else {
            assert(spec_insert_kv(s, x)[i] == s[s.len() - 1]);
        }
    }
}

/// The sort of a run is key-sorted and holds the same records.
pub proof fn lemma_spec_sort_kvs_sorted(s: Seq<(Seq<char>, Seq<char>)>)
    ensures
        sorted_by_key(spec_sort_kvs(s)),
        spec_sort_kvs(s).len() == s.len(),
        spec_sort_kvs(s).to_multiset() == s.to_multiset(),
    decreases s.len(),
{
    broadcast use vstd::seq_lib::group_seq_properties;

    if s.len() > 0 {
        lemma_spec_sort_kvs_sorted(s.drop_last());
        lemma_spec_insert_kv_sorted(spec_sort_kvs(s.drop_last()), s.last());
        assert(s =~= s.drop_last().push(s.last()));
    }
}

/// Sort records by key, stably: the unique result of inserting each record
/// in turn after all keys at or below its own.
pub fn sort_records(records: &Vec<KeyValue>) -> (r: Vec<KeyValue>)
    ensures
        kvs_view(r@) == spec_sort_kvs(kvs_view(records@)),
        sorted_by_key(kvs_view(r@)),
        kvs_view(r@).to_multiset() == kvs_view(records@).to_multiset(),
{
    let ghost rv = kvs_view(records@);
    let mut out: Vec<KeyValue> = Vec::new();
    let mut i: usize = 0;
    while i < records.len()
        invariant
            i <= records@.len(),
            rv == kvs_view(records@),
            rv.len() == records@.len(),
            kvs_view(out@) == spec_sort_kvs(rv.take(i as int)),
        decreases records@.len() - i,
    {
        let kv = records[i].duplicate();
        let ghost x = kv@;
        let ghost before = kvs_view(out@);
        let mut j = out.len();
        let mut stop = false;
        proof {
            assert(before.take(j as int) =~= before);
            assert(spec_insert_kv(before, x) + before.skip(j as int) =~= spec_insert_kv(
                before,
                x,
            ));
        }
        while j > 0 && !stop
            invariant
                j <= out@.len(),
                kvs_view(out@) == before,
                kv@ == x,
                stop ==> j > 0 && lex_le(before[j as int - 1].0, x.0),
                spec_insert_kv(before, x) == spec_insert_kv(before.take(j as int), x) + before.skip(
                    j as int,
                ),
            decreases (if stop { 0int } else { j as int + 1 }),
        {
            if str_le(out[j - 1].key.as_str(), kv.key.as_str()) {
                stop = true;
            } else {
                proof {
                    let t = before.take(j as int);
                    assert(t.last() == before[j as int - 1]);
                    assert(!lex_le(t.last().0, x.0));
                    assert(t.drop_last() =~= before.take(j as int - 1));
                    assert(spec_insert_kv(before.take(j as int - 1), x).push(
                        before[j as int - 1],
                    ) + before.skip(j as int) =~= spec_insert_kv(before.take(j as int - 1), x)
                        + before.skip(j as int - 1));
                }
                j -= 1;
            }
        }
        proof {
            let t = before.take(j as int);
            if j > 0 {
                assert(t.last() == before[j as int - 1]);
                assert(lex_le(t.last().0, x.0));
                assert(spec_insert_kv(t, x) =~= t.push(x));
            } else {
                assert(t.len() == 0);
            }
            assert(spec_insert_kv(before, x) =~= before.take(j as int).push(x) + before.skip(
                j as int,
            ));
        }
        out.insert(j, kv);
        proof {
            assert(kvs_view(out@) =~= spec_insert_kv(before, x));
            assert(rv.take(i as int + 1).drop_last() =~= rv.take(i as int));
        }
        i += 1;
    }
    proof {
        assert(rv.take(records@.len() as int) =~= rv);
        lemma_spec_sort_kvs_sorted(rv);
    }
    out
}

/// The pairs a single group stands for: its key with each of its values.
pub open spec fn spec_group_pairs(g: (Seq<char>, Seq<Seq<char>>)) -> Seq<(Seq<char>, Seq<char>)> {
    g.1.map_values(|v: Seq<char>| (g.0, v))
}

/// The records a list of groups stands for, in order.
pub open spec fn spec_expand(groups: Seq<(Seq<char>, Seq<Seq<char>>)>) -> Seq<
    (Seq<char>, Seq<char>),
>
    decreases groups.len(),
{
    if groups.len() == 0 {
        Seq::empty()
    } else {
        spec_expand(groups.drop_last()) + spec_group_pairs(groups.last())
    }
}

/// Strictly below: at or below, and different.
pub open spec fn lex_lt(a: Seq<char>, b: Seq<char>) -> bool {
    lex_le(a, b) && a != b
}

/// The view of a group list.
pub open spec fn groups_view(v: Seq<(String, Vec<String>)>) -> Seq<(Seq<char>, Seq<Seq<char>>)> {
    v.map_values(|g: (String, Vec<String>)| (g.0@, g.1.deep_view()))
}

/// Group a key-sorted run of records into runs of equal keys: the groups
/// expand back to exactly the input, every group holds at least one value,
/// and the groups' keys strictly ascend — one group per distinct key.
pub fn group_by_key(sorted: &Vec<KeyValue>) -> (groups: Vec<(String, Vec<String>)>)
    requires
        sorted_by_key(kvs_view(sorted@)),
    ensures
        spec_expand(groups_view(groups@)) == kvs_view(sorted@),
        forall|g: int| 0 <= g < groups@.len() ==> (#[trigger] groups_view(groups@)[g]).1.len() > 0,
        forall|g1: int, g2: int|
            0 <= g1 < g2 < groups@.len() ==> lex_lt(
                (#[trigger] groups_view(groups@)[g1]).0,
                (#[trigger] groups_view(groups@)[g2]).0,
            ),
{
    let ghost sv = kvs_view(sorted@);
    let mut groups: Vec<(String, Vec<String>)> = Vec::new();
    let mut left: usize = 0;
    while left < sorted.len()
        invariant
            sorted_by_key(sv),
            sv == kvs_view(sorted@),
            sv.len() == sorted@.len(),
            left <= sorted@.len(),
            spec_expand(groups_view(groups@)) == sv.take(left as int),
            left == 0 ==> groups@.len() == 0,
            left > 0 && left < sv.len() ==> groups@.len() > 0 && lex_lt(
                groups_view(groups@).last().0,
                sv[left as int].0,
            ),
            forall|g: int|
                0 <= g < groups@.len() ==> (#[trigger] groups_view(groups@)[g]).1.len() > 0,
            forall|g1: int, g2: int|
                0 <= g1 < g2 < groups@.len() ==> lex_lt(
                    (#[trigger] groups_view(groups@)[g1]).0,
                    (#[trigger] groups_view(groups@)[g2]).0,
                ),
        decreases sorted@.len() - left,
    {
        let key = sorted[left].key.clone();
        let mut values: Vec<String> = Vec::new();
        values.push(sorted[left].value.clone());
        let mut right: usize = left + 1;
        while right < sorted.len() && sorted[right].key.eq(&key)
            invariant
                sv == kvs_view(sorted@),
                sv.len() == sorted@.len(),
                left < right <= sorted@.len(),
                key@ == sv[left as int].0,
                forall|m: int| left <= m < right ==> (#[trigger] sv[m]).0 == key@,
                values@.len() == right - left,
                forall|m: int|
                    0 <= m < right - left ==> (#[trigger] values@[m])@ == sv[left + m].1,
            decreases sorted@.len() - right,
        {
            values.push(sorted[right].value.clone());
            right += 1;
        }
        let ghost old_groups = groups_view(groups@);
        groups.push((key, values));
        proof {
            let gv = groups_view(groups@);
            assert(gv.drop_last() =~= old_groups);
            let sub = sv.subrange(left as int, right as int);
            assert forall|m: int| 0 <= m < sub.len() implies spec_group_pairs(gv.last())[m] == sub[m] by {
                assert(values@[m]@ == sv[left + m].1);
                assert(sv[left + m].0 == key@);
                assert(sub[m] =~~= (key@, values@[m]@));
            }
            assert(spec_group_pairs(gv.last()) =~= sub);
            assert(sv.take(right as int) =~= sv.take(left as int) + sub);
            assert(spec_expand(gv) == sv.take(right as int));
            if right < sorted@.len() {
                // the run stopped at a different key, and order makes it
                // strictly larger
                assert(sv[right as int].0 != key@);
                assert(lex_le(sv[left as int].0, sv[right as int].0));
                assert(lex_lt(gv.last().0, sv[right as int].0));
            }
            if old_groups.len() > 0 {
                assert(lex_lt(old_groups.last().0, sv[left as int].0));
                assert(gv.last().0 == sv[left as int].0);
            }
            assert forall|g: int| 0 <= g < gv.len() implies (#[trigger] gv[g]).1.len() > 0 by {
                if g < gv.len() - 1 {
                    assert(gv[g] == old_groups[g]);
                } else {
                    assert(gv[g] == gv.last());
                }
            }
            assert forall|g1: int, g2: int|
                0 <= g1 < g2 < gv.len() implies lex_lt(
                (#[trigger] gv[g1]).0,
                (#[trigger] gv[g2]).0,
            ) by {
                assert(gv[g1] == old_groups[g1]);
                if g2 == gv.len() - 1 {
                    assert(gv[g2] == gv.last());
                    assert(old_groups[g1] == old_groups[old_groups.len() - 1] || lex_lt(
                        old_groups[g1].0,
                        old_groups.last().0,
                    ));
                    if g1 < g2 - 1 {
                        lemma_lex_trans(old_groups[g1].0, old_groups.last().0, gv.last().0);
                        assert(gv[g1].0 != gv[g2].0) by {
                            if gv[g1].0 == gv[g2].0 {
                                crate::strings::lemma_lex_antisym(
                                    old_groups.last().0,
                                    gv.last().0,
                                );
                            }
                        }
                    } else {
                        assert(old_groups[g1] == old_groups.last());
                    }
                } else {
                    assert(gv[g2] == old_groups[g2]);
                }
            }
        }
        left = right;
    }
    proof {
        assert(sv.take(sorted@.len() as int) =~= sv);
    }
    groups
}

/// One output line per group: the key, one space, the reduce result, and a
/// newline.
pub open spec fn spec_render(pairs: Seq<(Seq<char>, Seq<char>)>) -> Seq<char>
    decreases pairs.len(),
{
    if pairs.len() == 0 {
        Seq::empty()
    } else {
        spec_render(pairs.drop_last()) + pairs.last().0 + seq![' '] + pairs.last().1 + seq![
            '\n',
        ]
    }
}

/// The view of (key, reduce result) pairs.
pub open spec fn pairs_view(v: Seq<(String, String)>) -> Seq<(Seq<char>, Seq<char>)> {
    v.map_values(|p: (String, String)| (p.0@, p.1@))
}

/// Render a reducer's output file: for each (key, result) pair in order,
/// the line `key result`.
pub fn render_output(pairs: &Vec<(String, String)>) -> (r: String)
    ensures
        r@ == spec_render(pairs_view(pairs@)),
{
    let mut r = String::new();
    let mut i: usize = 0;
    while i < pairs.len()
        invariant
            i <= pairs@.len(),
            r@ == spec_render(pairs_view(pairs@).take(i as int)),
        decreases pairs@.len() - i,
    {
        let p = &pairs[i];
        r.append(p.0.as_str());
        r.append(" ");
        r.append(p.1.as_str());
        r.append("\n");
        proof {
            reveal_strlit(" ");
            reveal_strlit("\n");
            let pv = pairs_view(pairs@);
            assert(" "@ =~= seq![' ']);
            assert("\n"@ =~= seq!['\n']);
            assert(pv.take(i as int + 1).drop_last() =~= pv.take(i as int));
            assert(r@ =~= spec_render(pv.take(i as int + 1)));
        }
        i += 1;
    }
    proof {
        assert(pairs_view(pairs@).take(pairs@.len() as int) =~= pairs_view(pairs@));
    }
    r
}

/// `mr-<mapId>-<reduceId>`: the name of one intermediate file.
pub open spec fn spec_intermediate_file_name(m: u32, r: u32) -> Seq<char> {
    "mr-"@ + spec_decimal(m as nat) + "-"@ + spec_decimal(r as nat)
}

pub fn intermediate_file_name(m: u32, r: u32) -> (name: String)
    ensures
        name@ == spec_intermediate_file_name(m, r),
{
    let mid = u64_to_string(m as u64);
    let mut name = concat3("mr-", mid.as_str(), "-");
    let rid = u64_to_string(r as u64);
    name.append(rid.as_str());
    name
}

/// `mr-out-<reduceId>`: the name of one final output file.
pub open spec fn spec_output_file_name(r: u32) -> Seq<char> {
    "mr-out-"@ + spec_decimal(r as nat)
}

pub fn output_file_name(r: u32) -> (name: String)
    ensures
        name@ == spec_output_file_name(r),
{
    let rid = u64_to_string(r as u64);
    let mut name = "mr-out-".to_owned();
    name.append(rid.as_str());
    name
}

/// A file's path under a directory.
pub open spec fn spec_joined(dir: Seq<char>, name: Seq<char>) -> Seq<char> {
    dir + "/"@ + name
}

pub fn join_path(dir: &str, name: &str) -> (path: String)
    ensures
        path@ == spec_joined(dir@, name@),
{
    concat3(dir, "/", name)
}

/// The directory that holds the job's intermediate files.
pub open spec fn spec_intermediate_dir(output_path: Seq<char>) -> Seq<char> {
    output_path + "/intermediate"@
}

pub fn intermediate_dir(output_path: &str) -> (dir: String)
    ensures
        dir@ == spec_intermediate_dir(output_path@),
{
    let mut dir = output_path.to_owned();
    dir.append("/intermediate");
    dir
}

/// The staging directory one map task writes under before renaming:
/// `<output>/intermediate/tmp-<taskId>-<ts>`.
pub open spec fn spec_map_staging_dir(output_path: Seq<char>, task_id: u32, ts: u64) -> Seq<char> {
    spec_intermediate_dir(output_path) + "/tmp-"@ + spec_decimal(task_id as nat) + "-"@
        + spec_decimal(ts as nat)
}

pub fn map_staging_dir(output_path: &str, task_id: u32, ts: u64) -> (dir: String)
    ensures
        dir@ == spec_map_staging_dir(output_path@, task_id, ts),
{
    let mut dir = intermediate_dir(output_path);
    dir.append("/tmp-");
    let tid = u64_to_string(task_id as u64);
    dir.append(tid.as_str());
    dir.append("-");
    let tss = u64_to_string(ts);
    dir.append(tss.as_str());
    dir
}

/// The directory that holds the job's final outputs.
pub open spec fn spec_output_dir(output_path: Seq<char>) -> Seq<char> {
    output_path + "/output"@
}

pub fn output_dir(output_path: &str) -> (dir: String)
    ensures
        dir@ == spec_output_dir(output_path@),
{
    let mut dir = output_path.to_owned();
    dir.append("/output");
    dir
}

/// The staging directory one reduce task writes under before renaming:
/// `<output>/output/tmp-<ts>`.
pub open spec fn spec_reduce_staging_dir(output_path: Seq<char>, ts: u64) -> Seq<char> {
    spec_output_dir(output_path) + "/tmp-"@ + spec_decimal(ts as nat)
}

pub fn reduce_staging_dir(output_path: &str, ts: u64) -> (dir: String)
    ensures
        dir@ == spec_reduce_staging_dir(output_path@, ts),
{
    let mut dir = output_dir(output_path);
    dir.append("/tmp-");
    let tss = u64_to_string(ts);
    dir.append(tss.as_str());
    dir
}

/// Everything one map task will write for one reducer: the file's name,
/// where to stage it, where it finally lives, and its encoded contents.
pub struct MapOutputPlan {
    pub reduce_id: u32,
    pub file_name: String,
    pub staging_path: String,
    pub final_path: String,
    pub contents: String,
}

/// The whole write plan of one map task at staging time `ts`: one entry
/// per reducer whose bucket is non-empty, in ascending reducer order, with
/// the bucket's canonical encoding and the paths of the staging convention.
/// A bucket that received no record produces no entry and no file.
pub fn plan_map_task(
    records: &Vec<KeyValue>,
    task_id: u32,
    n_reduce: u32,
    output_path: &str,
    ts: u64,
) -> (plan: Vec<MapOutputPlan>)
    requires
        n_reduce >= 1,
    ensures
        forall|k: int|
            0 <= k < plan@.len() ==> {
                let e = #[trigger] plan@[k];
                &&& e.reduce_id < n_reduce
                &&& spec_bucket(kvs_view(records@), n_reduce, e.reduce_id).len() > 0
                &&& e.contents@ == crate::codec::spec_encode_records(
                    spec_bucket(kvs_view(records@), n_reduce, e.reduce_id),
                )
                &&& e.file_name@ == spec_intermediate_file_name(task_id, e.reduce_id)
                &&& e.staging_path@ == spec_joined(
                    spec_map_staging_dir(output_path@, task_id, ts),
                    spec_intermediate_file_name(task_id, e.reduce_id),
                )
                &&& e.final_path@ == spec_joined(
                    spec_intermediate_dir(output_path@),
                    spec_intermediate_file_name(task_id, e.reduce_id),
                )
            },
        forall|k1: int, k2: int|
            0 <= k1 < k2 < plan@.len() ==> (#[trigger] plan@[k1]).reduce_id < (
            #[trigger] plan@[k2]).reduce_id,
        forall|p: u32|
            p < n_reduce && spec_bucket(kvs_view(records@), n_reduce, p).len() > 0 ==> exists|
                k: int,
            | 0 <= k < plan@.len() && (#[trigger] plan@[k]).reduce_id == p,
{
    let buckets = partition_records(records, n_reduce);
    let staging = map_staging_dir(output_path, task_id, ts);
    let inter = intermediate_dir(output_path);
    let mut plan: Vec<MapOutputPlan> = Vec::new();
    let mut p: u32 = 0;
    while p < n_reduce
        invariant
            n_reduce >= 1,
            p <= n_reduce,
            buckets@.len() == n_reduce,
            staging@ == spec_map_staging_dir(output_path@, task_id, ts),
            inter@ == spec_intermediate_dir(output_path@),
            forall|q: int|
                0 <= q < n_reduce ==> kvs_view(#[trigger] buckets@[q]@) == spec_bucket(
                    kvs_view(records@),
                    n_reduce,
                    q as u32,
                ),
            forall|k: int|
                0 <= k < plan@.len() ==> {
                    let e = #[trigger] plan@[k];
                    &&& e.reduce_id < p
                    &&& spec_bucket(kvs_view(records@), n_reduce, e.reduce_id).len() > 0
                    &&& e.contents@ == crate::codec::spec_encode_records(
                        spec_bucket(kvs_view(records@), n_reduce, e.reduce_id),
                    )
                    &&& e.file_name@ == spec_intermediate_file_name(task_id, e.reduce_id)
                    &&& e.staging_path@ == spec_joined(
                        spec_map_staging_dir(output_path@, task_id, ts),
                        spec_intermediate_file_name(task_id, e.reduce_id),
                    )
                    &&& e.final_path@ == spec_joined(
                        spec_intermediate_dir(output_path@),
                        spec_intermediate_file_name(task_id, e.reduce_id),
                    )
                },
            forall|k1: int, k2: int|
                0 <= k1 < k2 < plan@.len() ==> (#[trigger] plan@[k1]).reduce_id < (
                #[trigger] plan@[k2]).reduce_id,
            forall|q: u32|
                q < p && spec_bucket(kvs_view(records@), n_reduce, q).len() > 0 ==> exists|k: int|
                    0 <= k < plan@.len() && (#[trigger] plan@[k]).reduce_id == q,
        decreases n_reduce - p,
    {
        if buckets[p as usize].len() > 0 {
            let name = intermediate_file_name(task_id, p);
            let entry = MapOutputPlan {
                reduce_id: p,
                file_name: name.clone(),
                staging_path: join_path(staging.as_str(), name.as_str()),
                final_path: join_path(inter.as_str(), name.as_str()),
                contents: crate::codec::encode_records(&buckets[p as usize]),
            };
            let ghost n_before = plan@.len() as int;
            let ghost plan_before = plan@;
            plan.push(entry);
            proof {
                assert(plan@[n_before].reduce_id == p);
                assert forall|q: u32|
                    q < p + 1 && spec_bucket(kvs_view(records@), n_reduce, q).len() > 0 implies
                    exists|k: int|
                        0 <= k < plan@.len() && (#[trigger] plan@[k]).reduce_id == q by {
                    if q < p {
                        let k0 = choose|k: int|
                            0 <= k < plan_before.len() && (#[trigger] plan_before[k]).reduce_id
                                == q;
                        assert(plan@[k0] == plan_before[k0]);
                        assert(plan@[k0].reduce_id == q);
                    } else {
                        assert(plan@[n_before].reduce_id == q);
                    }
                }
            }
        } else {
            proof {
                assert(kvs_view(buckets@[p as int]@).len() == 0);
            }
        }
        p += 1;
    }
    plan
}

/// The completion report's file list for a map plan: each planned
/// reducer's id with the file's final path.
pub fn completion_files(plan: &Vec<MapOutputPlan>) -> (files: Vec<(u32, String)>)
    ensures
        files@.len() == plan@.len(),
        forall|k: int|
            0 <= k < plan@.len() ==> (#[trigger] files@[k]).0 == plan@[k].reduce_id && files@[k].1@
                == plan@[k].final_path@,
{
    let mut files: Vec<(u32, String)> = Vec::new();
    let mut i: usize = 0;
    while i < plan.len()
        invariant
            i <= plan@.len(),
            files@.len() == i,
            forall|k: int|
                0 <= k < i ==> (#[trigger] files@[k]).0 == plan@[k].reduce_id && files@[k].1@
                    == plan@[k].final_path@,
        decreases plan@.len() - i,
    {
        let e = &plan[i];
        files.push((e.reduce_id, e.final_path.clone()));
        i += 1;
    }
    files
}

} // verus!
