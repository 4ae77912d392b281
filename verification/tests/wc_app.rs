use std::collections::HashMap;
use map_reduce::wc::reduce;

#[test]
fn test_map() {
    let c = map_reduce::wc::map(
        "".to_string(),
        "there are the contents here passed from the test class".to_string(),
    );
    let mut grouped: HashMap<String, Vec<String>> = HashMap::new();
    c.into_iter()
        .map(|pair| (pair.key, pair.value))
        .for_each(|(key, value)| grouped.entry(key).or_insert(Vec::new()).push(value));
    let result = grouped
        .into_iter()
        .map(|(key, value)| (key.clone(), reduce(key, value)))
        .collect::<HashMap<_, _>>();
    println!("{result:?}");
    assert_eq!(result.get("the"), Some(&"2".to_string()));
    assert_eq!(result.len(), 9);
}
