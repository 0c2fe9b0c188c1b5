use megumax::{variant, Variant};

#[test]
fn produce_variants() {
    let list = vec![vec!['a', 'b', 'c'], vec!['0', '1'], vec!['♥']];

    let mut variant = variant(&list);
    let mut result: Vec<Vec<char>> = Vec::new();
    while let Some(c) = variant.next() {
        result.push(c.into_iter().copied().collect());
    }

    let expect = vec![
        vec!['a', '0', '♥'],
        vec!['a', '1', '♥'],
        vec!['b', '0', '♥'],
        vec!['b', '1', '♥'],
        vec!['c', '0', '♥'],
        vec!['c', '1', '♥'],
    ];

    assert_eq!(result, expect)
}

#[test]
fn variant_empty_input() {
    let mut variant = Variant::<()>::new(vec![]);
    let mut result = 0;
    while variant.next().is_some() {
        result += 1;
    }
    assert_eq!(result, 1);
}

#[test]
fn empty_input_yields_one_empty_combination() {
    let mut variant = Variant::<u8>::new(vec![]);
    assert_eq!(variant.total_size(), 1);
    assert_eq!(variant.next(), Some(vec![]));
    assert_eq!(variant.next(), None);
    assert_eq!(variant.next(), None);
}

#[test]
fn empty_list_yields_nothing() {
    let list = vec![vec![1u8, 2], vec![], vec![3]];
    let mut variant = variant(&list);
    assert_eq!(variant.total_size(), 0);
    assert_eq!(variant.next(), None);
    assert_eq!(variant.next(), None);
}

#[test]
fn total_size_is_product() {
    let list = vec![vec![1u8, 2, 3], vec![4, 5], vec![6, 7, 8, 9]];
    let mut variant = variant(&list);
    assert_eq!(variant.total_size(), 24);
    let mut count = 0;
    let mut seen: Vec<Vec<u8>> = Vec::new();
    while let Some(c) = variant.next() {
        let c: Vec<u8> = c.into_iter().copied().collect();
        assert_eq!(c.len(), 3);
        assert!(!seen.contains(&c));
        seen.push(c);
        count += 1;
    }
    assert_eq!(count, 24);
    assert_eq!(seen[0], vec![1, 4, 6]);
    assert_eq!(seen[1], vec![1, 4, 7]);
    assert_eq!(seen[4], vec![1, 5, 6]);
    assert_eq!(seen[23], vec![3, 5, 9]);
}

#[test]
fn single_input_in_order() {
    let list = vec![vec!["x", "y", "z"]];
    let mut variant = variant(&list);
    let mut result = Vec::new();
    while let Some(c) = variant.next() {
        result.push(*c[0]);
    }
    assert_eq!(result, vec!["x", "y", "z"]);
}
