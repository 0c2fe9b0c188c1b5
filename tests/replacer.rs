use megumax::replacer::surround_key_with_braces;
use megumax::{Handle, Replacer};

#[test]
fn braces_around_key() {
    let (k, v) = surround_key_with_braces(("key".to_string(), "value".to_string()));
    assert_eq!(k, "{{key}}");
    assert_eq!(v, "value");
}

#[test]
fn replacer_from_config_and_apply() {
    let r = Replacer::from_config(vec![
        ("name".to_string(), "world".to_string()),
        ("x".to_string(), "1".to_string()),
    ]);
    let keys = r.keys();
    assert_eq!(keys[0], ("{{name}}".to_string(), "world".to_string()));
    let h = r.apply(Handle("hello {{name}} {{x}} {{y}}".to_string()));
    assert_eq!(h.inner(), "hello world 1 {{y}}");
}

#[test]
fn replacer_insert_returns_previous() {
    let mut r = Replacer::new();
    assert_eq!(r.insert("key".to_string(), "foo".to_string()), None);
    assert_eq!(r.insert("key".to_string(), "bar".to_string()), Some("foo".to_string()));
    let path = Handle("{{key}}.mcfunction".to_string()).into_path(&r);
    assert_eq!(path, "bar.mcfunction");
}

#[test]
fn handle_into_string() {
    let h = Handle("abc".to_string());
    assert_eq!(h.clone().into_string(), "abc");
    assert_eq!(Handle::default().inner(), "");
}
