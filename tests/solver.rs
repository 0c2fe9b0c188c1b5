use megumax::{Pool, Solver, Template};

#[test]
fn solve_color() {
    let mut pool = Pool::default_rule();
    pool.append("color".to_string(), "red".to_string());
    pool.append("color".to_string(), "blue".to_string());
    pool.append("shape".to_string(), "circle".to_string());
    pool.append("shape".to_string(), "square".to_string());

    let keys: &[String] = &["color".into()];
    let list = pool.intersect(keys).unwrap();
    let mut solver = Solver::new(list, keys.to_vec());

    let mut result: Vec<Template> = Vec::new();
    while let Some(t) = solver.next() {
        result.push(t);
    }
    let expect = vec![
        Template::default().insert("color".into(), "red".into()),
        Template::default().insert("color".into(), "blue".into()),
    ];

    assert_eq!(result, expect);
}

#[test]
fn solve_shape() {
    let mut pool = Pool::default_rule();
    pool.append("color".to_string(), "red".to_string());
    pool.append("color".to_string(), "blue".to_string());
    pool.append("shape".to_string(), "circle".to_string());
    pool.append("shape".to_string(), "square".to_string());

    let keys: &[String] = &["shape".into()];
    let list = pool.intersect(keys).unwrap();
    let mut solver = Solver::new(list, keys.to_vec());

    let mut result: Vec<Template> = Vec::new();
    while let Some(t) = solver.next() {
        result.push(t);
    }
    let expect = vec![
        Template::default().insert("shape".into(), "circle".into()),
        Template::default().insert("shape".into(), "square".into()),
    ];

    assert_eq!(result, expect);
}

#[test]
fn solve_both() {
    let mut pool = Pool::default_rule();
    pool.append("color".to_string(), "red".to_string());
    pool.append("color".to_string(), "blue".to_string());
    pool.append("shape".to_string(), "circle".to_string());
    pool.append("shape".to_string(), "square".to_string());

    let keys: &[String] = &["color".into(), "shape".into()];
    let list = pool.intersect(keys).unwrap();
    let mut solver = Solver::new(list, keys.to_vec());

    let mut result: Vec<Template> = Vec::new();
    while let Some(t) = solver.next() {
        result.push(t);
    }
    let expect = vec![
        Template::default()
            .insert("color".into(), "red".into())
            .insert("shape".into(), "circle".into()),
        Template::default()
            .insert("color".into(), "red".into())
            .insert("shape".into(), "square".into()),
        Template::default()
            .insert("color".into(), "blue".into())
            .insert("shape".into(), "circle".into()),
        Template::default()
            .insert("color".into(), "blue".into())
            .insert("shape".into(), "square".into()),
    ];

    assert_eq!(result, expect);
}

#[test]
fn solver_empty_input() {
    let keys = vec![];
    let list = vec![];
    let mut solver = Solver::new(list, keys);

    let mut result: Vec<Template> = Vec::new();
    while let Some(t) = solver.next() {
        result.push(t);
    }
    let expect = vec![Template::default()];

    assert_eq!(result, expect);
}

#[test]
fn solver_binding_values() {
    let colors = vec!["red".to_string(), "blue".to_string()];
    let sizes = vec!["1".to_string(), "2".to_string(), "3".to_string()];
    let mut solver = Solver::new(
        vec![colors.as_slice(), sizes.as_slice()],
        vec!["[c]".to_string(), "[s]".to_string()],
    );
    let mut count = 0;
    let mut last = None;
    while let Some(t) = solver.next() {
        assert_eq!(t.len(), 2);
        count += 1;
        last = Some(t);
    }
    assert_eq!(count, 6);
    let last = last.unwrap();
    assert_eq!(last.get(&"[c]".to_string()), Some(&"blue".to_string()));
    assert_eq!(last.get(&"[s]".to_string()), Some(&"3".to_string()));
}
