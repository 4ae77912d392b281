use map_reduce::KeyValue;
use map_reduce::codec::{encode_records, decode_records};
use map_reduce::worker::{
    partition_records, sort_records, group_by_key, render_output, plan_map_task, completion_files,
    intermediate_file_name, output_file_name, join_path, intermediate_dir, map_staging_dir,
    output_dir, reduce_staging_dir,
};
use map_reduce::{wc, indexer};

fn kv(k: &str, v: &str) -> KeyValue {
    KeyValue { key: k.to_string(), value: v.to_string() }
}

fn run_reduce(
    intermediate: Vec<KeyValue>,
    reduce: fn(String, Vec<String>) -> String,
) -> String {
    let sorted = sort_records(&intermediate);
    let groups = group_by_key(&sorted);
    let mut pairs: Vec<(String, String)> = Vec::new();
    for (key, values) in groups {
        let out = reduce(key.clone(), values);
        pairs.push((key, out));
    }
    render_output(&pairs)
}

#[test]
fn word_count_one_file_one_reducer() {
    // input "a b a", one reducer: everything lands in bucket 0 and the
    // output counts each word
    let records = wc::map("a.txt".to_string(), "a b a".to_string());
    let buckets = partition_records(&records, 1);
    assert_eq!(buckets.len(), 1);
    assert_eq!(buckets[0].len(), 3);
    let encoded = encode_records(&buckets[0]);
    let decoded = decode_records(&encoded).unwrap();
    let output = run_reduce(decoded, wc::reduce);
    assert_eq!(output, "a 2\nb 1\n");
}

#[test]
fn indexer_two_files_two_reducers() {
    // f1 = "x y", f2 = "y z": each word's line lands in the one output of
    // its hash bucket, `y` lists both files, and lines are ordered by key
    let m1 = indexer::map("f1".to_string(), "x y".to_string());
    let m2 = indexer::map("f2".to_string(), "y z".to_string());
    let b1 = partition_records(&m1, 2);
    let b2 = partition_records(&m2, 2);
    let mut outputs: Vec<String> = Vec::new();
    for p in 0..2usize {
        let mut intermediate: Vec<KeyValue> = Vec::new();
        for bucket in [&b1[p], &b2[p]] {
            if !bucket.is_empty() {
                let encoded = encode_records(bucket);
                intermediate.extend(decode_records(&encoded).unwrap());
            }
        }
        outputs.push(run_reduce(intermediate, indexer::reduce));
    }
    // every line is in the output of the bucket its key hashed to
    let mut lines: Vec<(usize, &str)> = Vec::new();
    for (p, out) in outputs.iter().enumerate() {
        for line in out.lines() {
            lines.push((p, line));
        }
    }
    let bucket_of = |key: &str| -> usize {
        for p in 0..2usize {
            if b1[p].iter().any(|r| r.key == key) || b2[p].iter().any(|r| r.key == key) {
                return p;
            }
        }
        unreachable!()
    };
    assert!(lines.contains(&(bucket_of("x"), "x 1 f1")));
    assert!(lines.contains(&(bucket_of("y"), "y 2 f1,f2")));
    assert!(lines.contains(&(bucket_of("z"), "z 1 f2")));
    assert_eq!(lines.len(), 3);
    // within each output the lines ascend by key
    for out in &outputs {
        let keys: Vec<&str> = out.lines().map(|l| l.split(' ').next().unwrap()).collect();
        let mut sorted_keys = keys.clone();
        sorted_keys.sort();
        assert_eq!(keys, sorted_keys);
    }
}

#[test]
fn same_job_twice_gives_identical_outputs() {
    let run = || {
        let records = wc::map("a.txt".to_string(), "the quick brown fox the fox".to_string());
        let buckets = partition_records(&records, 3);
        let mut outs: Vec<String> = Vec::new();
        for b in &buckets {
            let encoded = encode_records(b);
            let decoded = decode_records(&encoded).unwrap();
            outs.push(run_reduce(decoded, wc::reduce));
        }
        outs
    };
    assert_eq!(run(), run());
}

#[test]
fn every_key_lands_in_exactly_one_bucket() {
    let records = wc::map("f".to_string(), "pear plum apple pear fig".to_string());
    let buckets = partition_records(&records, 4);
    let mut seen: Vec<(String, usize)> = Vec::new();
    for (p, b) in buckets.iter().enumerate() {
        for r in b {
            seen.push((r.key.clone(), p));
        }
    }
    assert_eq!(seen.len(), 5);
    for (key, p) in &seen {
        for (key2, p2) in &seen {
            if key == key2 {
                assert_eq!(p, p2);
            }
        }
    }
}

#[test]
fn single_reducer_takes_every_record() {
    let records = vec![kv("a", "1"), kv("b", "2"), kv("c", "3")];
    let buckets = partition_records(&records, 1);
    assert_eq!(buckets.len(), 1);
    assert_eq!(buckets[0].len(), 3);
    for (i, r) in buckets[0].iter().enumerate() {
        assert_eq!(r.key, records[i].key);
        assert_eq!(r.value, records[i].value);
    }
}

#[test]
fn codec_round_trips_plain_and_escaped_text() {
    let records = vec![kv("a", "1"), kv("quo\"te", "back\\slash"), kv("", "")];
    let encoded = encode_records(&records);
    let decoded = decode_records(&encoded).unwrap();
    assert_eq!(decoded.len(), records.len());
    for (d, r) in decoded.iter().zip(records.iter()) {
        assert_eq!(d.key, r.key);
        assert_eq!(d.value, r.value);
    }
}

#[test]
fn codec_matches_the_wire_format() {
    let records = vec![kv("a", "1"), kv("b", "2")];
    let encoded = encode_records(&records);
    assert_eq!(encoded, "[{\"key\":\"a\",\"value\":\"1\"},{\"key\":\"b\",\"value\":\"2\"}]");
    let empty: Vec<KeyValue> = Vec::new();
    assert_eq!(encode_records(&empty), "[]");
    assert_eq!(decode_records("[]").unwrap().len(), 0);
}

#[test]
fn codec_refuses_malformed_text() {
    assert!(decode_records("").is_none());
    assert!(decode_records("[").is_none());
    assert!(decode_records("{}").is_none());
    assert!(decode_records("[{\"key\":\"a\"}]").is_none());
    assert!(decode_records("[{\"key\":\"a\",\"value\":\"1\"}] ").is_none());
    assert!(decode_records("[{\"key\":\"a\",\"value\":\"1\"}").is_none());
}

#[test]
fn map_plan_names_and_skips_empty_buckets() {
    let records = wc::map("a.txt".to_string(), "a b a".to_string());
    let plan = plan_map_task(&records, 7, 1, "out", 123);
    assert_eq!(plan.len(), 1);
    assert_eq!(plan[0].reduce_id, 0);
    assert_eq!(plan[0].file_name, "mr-7-0");
    assert_eq!(plan[0].staging_path, "out/intermediate/tmp-7-123/mr-7-0");
    assert_eq!(plan[0].final_path, "out/intermediate/mr-7-0");
    let decoded = decode_records(&plan[0].contents).unwrap();
    assert_eq!(decoded.len(), 3);
    let files = completion_files(&plan);
    assert_eq!(files, vec![(0, "out/intermediate/mr-7-0".to_string())]);
    // a map with no records plans no files at all
    let empty_plan = plan_map_task(&Vec::new(), 0, 5, "out", 9);
    assert_eq!(empty_plan.len(), 0);
}

#[test]
fn path_helpers_follow_the_staging_convention() {
    assert_eq!(intermediate_file_name(3, 5), "mr-3-5");
    assert_eq!(output_file_name(7), "mr-out-7");
    assert_eq!(join_path("d", "n"), "d/n");
    assert_eq!(intermediate_dir("out"), "out/intermediate");
    assert_eq!(map_staging_dir("out", 2, 40), "out/intermediate/tmp-2-40");
    assert_eq!(output_dir("out"), "out/output");
    assert_eq!(reduce_staging_dir("out", 40), "out/output/tmp-40");
}

#[test]
fn reduce_pipeline_sorts_and_groups_by_key() {
    let intermediate = vec![kv("b", "x"), kv("a", "y"), kv("b", "z"), kv("a", "w")];
    let sorted = sort_records(&intermediate);
    let keys: Vec<&str> = sorted.iter().map(|r| r.key.as_str()).collect();
    assert_eq!(keys, vec!["a", "a", "b", "b"]);
    let groups = group_by_key(&sorted);
    assert_eq!(groups.len(), 2);
    assert_eq!(groups[0].0, "a");
    assert_eq!(groups[0].1, vec!["y".to_string(), "w".to_string()]);
    assert_eq!(groups[1].0, "b");
    assert_eq!(groups[1].1, vec!["x".to_string(), "z".to_string()]);
}

#[test]
fn wc_reduce_counts_and_indexer_reduce_lists() {
    assert_eq!(wc::reduce("k".to_string(), vec!["1".to_string(), "1".to_string()]), "2");
    assert_eq!(
        indexer::reduce("y".to_string(), vec!["f2".to_string(), "f1".to_string()]),
        "2 f1,f2"
    );
    assert_eq!(indexer::reduce("x".to_string(), vec![]), "0 ");
}

#[test]
fn indexer_map_emits_each_word_once() {
    let records = indexer::map("f1".to_string(), "x y x,y x".to_string());
    let pairs: Vec<(String, String)> =
        records.into_iter().map(|r| (r.key, r.value)).collect();
    assert_eq!(
        pairs,
        vec![("x".to_string(), "f1".to_string()), ("y".to_string(), "f1".to_string())]
    );
}

#[test]
fn render_writes_one_line_per_group() {
    let pairs = vec![("a".to_string(), "2".to_string()), ("b".to_string(), "1".to_string())];
    assert_eq!(render_output(&pairs), "a 2\nb 1\n");
    assert_eq!(render_output(&Vec::new()), "");
}
