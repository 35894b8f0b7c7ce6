use std::collections::HashMap;

use noir_core::keyed::Key;
use noir_core::stream::{KeyedStream, Stream};

fn collect(replicas: &[Vec<(String, u64)>]) -> HashMap<String, u64> {
    let mut m = HashMap::new();
    for r in replicas {
        for (k, v) in r {
            assert!(m.insert(k.clone(), *v).is_none());
        }
    }
    m
}

#[test]
fn keyed_reduce() {
    let pairs: Vec<(String, u64)> = vec![
        ("a".to_string(), 1),
        ("b".to_string(), 2),
        ("a".to_string(), 3),
        ("b".to_string(), 4),
        ("a".to_string(), 5),
    ];
    let res = KeyedStream::new(vec![pairs]).reduce(|x, y| x + y);
    assert_eq!(res.replicas[0], vec![("a".to_string(), 9), ("b".to_string(), 6)]);
}

#[test]
fn group_by_then_reduce() {
    let reps: Vec<Vec<(String, u64)>> = vec![
        vec![("a".to_string(), 1), ("b".to_string(), 2)],
        vec![("a".to_string(), 3), ("b".to_string(), 4), ("a".to_string(), 5)],
    ];
    let res = Stream::new(reps).group_by_reduce(|p: &(String, u64)| p.0.clone(), |x, y| (x.0, x.1 + y.1));
    assert_eq!(res.replicas.len(), 2);
    let flat: Vec<Vec<(String, u64)>> =
        res.replicas.iter().map(|r| r.iter().map(|(_, v)| v.clone()).collect()).collect();
    let m = collect(&flat);
    assert_eq!(m.len(), 2);
    assert_eq!(m["a"], 9);
    assert_eq!(m["b"], 6);
}

#[test]
fn wordcount() {
    let text = "the quick brown fox the lazy dog the";
    let words: Vec<(String, u64)> = text.split_whitespace().map(|w| (w.to_lowercase(), 1)).collect();
    let half = words.len() / 2;
    let reps = vec![words[..half].to_vec(), words[half..].to_vec(), Vec::new()];
    let res = Stream::new(reps).group_by_reduce(|p: &(String, u64)| p.0.clone(), |x, y| (x.0, x.1 + y.1));
    let flat: Vec<Vec<(String, u64)>> =
        res.replicas.iter().map(|r| r.iter().map(|(_, v)| v.clone()).collect()).collect();
    let m = collect(&flat);
    let expected: HashMap<String, u64> =
        [("the", 3), ("quick", 1), ("brown", 1), ("fox", 1), ("lazy", 1), ("dog", 1)]
            .iter()
            .map(|(k, v)| (k.to_string(), *v))
            .collect();
    assert_eq!(m, expected);
}

#[test]
fn keys_land_on_fingerprint_replica() {
    let reps: Vec<Vec<u64>> = vec![vec![1, 2, 3, 4, 5, 6], vec![6, 5, 4], vec![7, 1]];
    let res = Stream::new(reps).group_by_reduce(|x: &u64| *x, |x, y| x + y);
    for (d, r) in res.replicas.iter().enumerate() {
        for (k, _) in r {
            assert_eq!((k.fingerprint() % 3) as usize, d);
        }
    }
    assert_eq!(res.replicas[0], vec![(3, 3), (6, 12)]);
}

#[test]
fn string_fingerprint_is_fnv1a() {
    assert_eq!("".to_string().fingerprint(), 0xcbf29ce484222325);
    assert_eq!("a".to_string().fingerprint(), 0xaf63dc4c8601ec8c);
    assert!("the".to_string().same_key(&"the".to_string()));
    assert!(!"the".to_string().same_key(&"fox".to_string()));
}
