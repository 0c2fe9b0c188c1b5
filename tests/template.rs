use megumax::{Resource, Template};

#[test]
fn equality_ignores_insertion_order() {
    let a = Template::default()
        .insert("x".into(), "1".into())
        .insert("y".into(), "2".into());
    let b = Template::default()
        .insert("y".into(), "2".into())
        .insert("x".into(), "1".into());
    assert_eq!(a, b);
    let c = Template::default().insert("x".into(), "1".into());
    assert_ne!(a, c);
    let d = Template::default()
        .insert("x".into(), "1".into())
        .insert("y".into(), "3".into());
    assert_ne!(a, d);
}

#[test]
fn set_overwrites_value() {
    let mut t = Template::default();
    t.set("k".into(), "a".into());
    t.set("k".into(), "b".into());
    assert_eq!(t.len(), 1);
    assert_eq!(t.get(&"k".to_string()), Some(&"b".to_string()));
}

#[test]
fn replace_every_occurrence() {
    let t = Template::default()
        .insert("[color]".into(), "red".into())
        .insert("[n]".into(), "7".into());
    assert_eq!(t.replace("[color]-[n]-[color]"), "red-7-red");
}

#[test]
fn replace_in_insertion_order() {
    let t = Template::default()
        .insert("[a]".into(), "[b]".into())
        .insert("[b]".into(), "x".into());
    assert_eq!(t.replace("[a]"), "x");
    let u = Template::default()
        .insert("[b]".into(), "x".into())
        .insert("[a]".into(), "[b]".into());
    assert_eq!(u.replace("[a]"), "[b]");
}

#[test]
fn apply_without_keys_is_identity() {
    let t = Template::default().insert("[color]".into(), "red".into());
    assert_eq!(t.replace("plain text"), "plain text");
    let empty = Template::default();
    assert_eq!(empty.replace("[color] anything"), "[color] anything");
    assert_eq!(empty.replace(""), "");
}

#[test]
fn template_new_binds_in_turn() {
    let t = Template::new(vec![
        ("a".to_string(), "1".to_string()),
        ("b".to_string(), "2".to_string()),
        ("a".to_string(), "3".to_string()),
    ]);
    assert_eq!(t.len(), 2);
    assert_eq!(t.get(&"a".to_string()), Some(&"3".to_string()));
    let entries = t.entries();
    assert_eq!(entries[0], ("a".to_string(), "3".to_string()));
    assert_eq!(entries[1], ("b".to_string(), "2".to_string()));
}

#[test]
fn resource_replace_uses_binding() {
    let r = Resource::new(
        "out".to_string(),
        Template::default().insert("[k]".into(), "v".into()),
    );
    assert_eq!(r.replace("a[k]b"), "avb");
    assert_eq!(r.path, "out");
}
