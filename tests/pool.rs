use megumax::pool::dedup_keys;
use megumax::{KeyLookUpError, Pool};

#[test]
fn capture_flag() {
    let pool = Pool::default_rule();
    let content = "/[color]/foo/[shape]";

    let result = pool.capture(content);
    let expect = vec!["[color]".to_string(), "[shape]".into()];

    assert_eq!(result, expect);
}

#[test]
fn template_resource() {
    let mut pool = Pool::default_rule();
    pool.append("[color]".to_string(), "red".to_string());
    pool.append("[color]".to_string(), "green".to_string());
    pool.append("[color]".to_string(), "blue".to_string());
    pool.append("[color]".to_string(), "yellow".to_string());

    let path = "/foo/[color]_wool.mcfunction";

    let mut resources = pool.template_resources(path.to_string()).unwrap();

    let mut result: Vec<String> = Vec::new();
    while let Some(r) = resources.next() {
        result.push(r.path);
    }
    let expect: Vec<String> = vec![
        "/foo/red_wool.mcfunction",
        "/foo/green_wool.mcfunction",
        "/foo/blue_wool.mcfunction",
        "/foo/yellow_wool.mcfunction",
    ]
    .into_iter()
    .map(String::from)
    .collect();

    assert_eq!(result, expect);
}

#[test]
fn empty_template() {
    let pool = Pool::default_rule();
    let path = "/dummy";
    let mut resources = pool.template_resources(path.to_string()).unwrap();
    let mut result: Vec<String> = Vec::new();
    while let Some(r) = resources.next() {
        result.push(r.path);
    }
    let expect: Vec<String> = vec!["/dummy"].into_iter().map(String::from).collect();

    assert_eq!(result, expect)
}

#[test]
fn resource_bindings_carry_key_and_index() {
    let mut pool = Pool::default_rule();
    for color in ["red", "green", "blue", "yellow"] {
        pool.append("[color]".to_string(), color.to_string());
    }
    let mut resources = pool.template_resources("/foo/[color]_wool".to_string()).unwrap();
    let mut n = 0;
    let colors = ["red", "green", "blue", "yellow"];
    while let Some(r) = resources.next() {
        assert_eq!(r.path, format!("/foo/{}_wool", colors[n]));
        assert_eq!(r.template.get(&"[color]".to_string()), Some(&colors[n].to_string()));
        assert_eq!(r.template.get(&"[nth]".to_string()), Some(&n.to_string()));
        assert_eq!(r.template.len(), 2);
        n += 1;
    }
    assert_eq!(n, 4);
}

#[test]
fn no_placeholder_single_resource_only_index() {
    let mut pool = Pool::default_rule();
    pool.append("[color]".to_string(), "red".to_string());
    pool.append("[color]".to_string(), "blue".to_string());
    let mut resources = pool.template_resources("/dummy".to_string()).unwrap();
    let first = resources.next().unwrap();
    assert_eq!(first.path, "/dummy");
    assert_eq!(first.template.len(), 1);
    assert_eq!(first.template.get(&"[nth]".to_string()), Some(&"0".to_string()));
    assert!(resources.next().is_none());
}

#[test]
fn index_key_counts_past_nine() {
    let mut pool = Pool::default_rule();
    for i in 0..12 {
        pool.append("[n]".to_string(), format!("v{}", i));
    }
    let mut resources = pool.template_resources("[n].txt".to_string()).unwrap();
    let mut n = 0;
    while let Some(r) = resources.next() {
        assert_eq!(r.path, format!("v{}.txt", n));
        assert_eq!(r.template.get(&"[nth]".to_string()), Some(&n.to_string()));
        n += 1;
    }
    assert_eq!(n, 12);
}

#[test]
fn missing_key_fails_naming_it() {
    let mut pool = Pool::default_rule();
    pool.append("[color]".to_string(), "red".to_string());
    let result = pool.template_resources("/[color]/[shape]".to_string());
    match result {
        Err(e) => assert_eq!(e.key(), "[shape]"),
        Ok(_) => panic!("expected a key lookup error"),
    }
}

#[test]
fn intersect_fails_on_first_missing_key() {
    let mut pool = Pool::default_rule();
    pool.append("a".to_string(), "1".to_string());
    let keys = vec!["a".to_string(), "b".to_string(), "c".to_string()];
    let err = pool.intersect(&keys).unwrap_err();
    assert_eq!(err, KeyLookUpError::new("b".to_string()));
}

#[test]
fn intersect_returns_lists_in_key_order() {
    let mut pool = Pool::default_rule();
    pool.insert("x".to_string(), vec!["1".to_string(), "2".to_string()]);
    pool.append("y".to_string(), "3".to_string());
    let keys = vec!["y".to_string(), "x".to_string()];
    let lists = pool.intersect(&keys).unwrap();
    assert_eq!(lists.len(), 2);
    assert_eq!(lists[0], &["3".to_string()][..]);
    assert_eq!(lists[1], &["1".to_string(), "2".to_string()][..]);
}

#[test]
fn insert_overwrites_and_append_extends() {
    let mut pool = Pool::default_rule();
    pool.append("k".to_string(), "a".to_string());
    pool.append("k".to_string(), "a".to_string());
    assert_eq!(pool.get(&"k".to_string()).unwrap().len(), 2);
    pool.insert("k".to_string(), vec!["z".to_string()]);
    assert_eq!(pool.get(&"k".to_string()), Some(&["z".to_string()][..]));
    assert_eq!(pool.get(&"other".to_string()), None);
}

#[test]
fn capture_keeps_first_occurrence_order() {
    let pool = Pool::default_rule();
    let result = pool.capture("[b]/[a]/[b]-[c]_[a]");
    assert_eq!(result, vec!["[b]".to_string(), "[a]".to_string(), "[c]".to_string()]);
    assert!(pool.capture("no keys here").is_empty());
}

#[test]
fn duplicate_key_in_path_binds_once() {
    let mut pool = Pool::default_rule();
    pool.append("[c]".to_string(), "r".to_string());
    pool.append("[c]".to_string(), "g".to_string());
    let mut resources = pool.template_resources("[c]/[c].txt".to_string()).unwrap();
    let mut paths = Vec::new();
    while let Some(r) = resources.next() {
        paths.push(r.path);
    }
    assert_eq!(paths, vec!["r/r.txt".to_string(), "g/g.txt".to_string()]);
}

#[test]
fn dedup_keys_keeps_first() {
    let found = vec!["x".to_string(), "y".to_string(), "x".to_string(), "z".to_string(), "y".to_string()];
    assert_eq!(dedup_keys(&found), vec!["x".to_string(), "y".to_string(), "z".to_string()]);
    assert!(dedup_keys(&Vec::new()).is_empty());
}

#[test]
fn custom_rule_and_invalid_rule() {
    let mut pool = Pool::new("(<[a-z]+>)".to_string()).unwrap();
    pool.append("<k>".to_string(), "v".to_string());
    assert_eq!(pool.capture("a<k>b[x]"), vec!["<k>".to_string()]);
    assert!(Pool::new("(".to_string()).is_none());
}
