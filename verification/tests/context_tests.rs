//! Tests for the rendering context: the key-value operations and the
//! order-independence of the content hash.

use staticweaver::Context;

#[test]
fn test_new_context() {
    let context = Context::new();
    assert!(context.is_empty());
}

#[test]
fn context_test_with_capacity() {
    let context = Context::with_capacity(10);
    assert!(context.capacity() >= 10);
}

#[test]
fn test_set_and_get() {
    let mut context = Context::new();
    context.set("key".to_string(), "value".to_string());
    assert_eq!(context.get("key"), Some(&"value".to_string()));
}

#[test]
fn test_get_mut() {
    let mut context = Context::new();
    context.set("key".to_string(), "value".to_string());
    if let Some(value) = context.get_mut("key") {
        *value = "new_value".to_string();
    }
    assert_eq!(context.get("key"), Some(&"new_value".to_string()));
}

#[test]
fn context_test_remove() {
    let mut context = Context::new();
    context.set("key".to_string(), "value".to_string());
    assert_eq!(context.remove("key"), Some("value".to_string()));
    assert_eq!(context.get("key"), None);
}

#[test]
fn test_hash() {
    let mut context1 = Context::new();
    context1.set("key1".to_string(), "value1".to_string());

    let mut context2 = Context::new();
    context2.set("key1".to_string(), "value1".to_string());

    assert_eq!(context1.hash(), context2.hash());

    context2.set("key2".to_string(), "value2".to_string());
    assert_ne!(context1.hash(), context2.hash());
}

#[test]
fn test_hash_order_independent() {
    let mut context1 = Context::new();
    context1.set("key1".to_string(), "value1".to_string());
    context1.set("key2".to_string(), "value2".to_string());

    let mut context2 = Context::new();
    context2.set("key2".to_string(), "value2".to_string());
    context2.set("key1".to_string(), "value1".to_string());

    assert_eq!(context1.hash(), context2.hash());
}

#[test]
fn context_test_from_iterator() {
    let pairs = vec![
        ("key1".to_string(), "value1".to_string()),
        ("key2".to_string(), "value2".to_string()),
    ];
    let context: Context = Context::from_pairs(pairs);
    assert_eq!(context.get("key1"), Some(&"value1".to_string()));
    assert_eq!(context.get("key2"), Some(&"value2".to_string()));
}

#[test]
fn test_extend() {
    let mut context = Context::new();
    context.extend(vec![
        ("key1".to_string(), "value1".to_string()),
        ("key2".to_string(), "value2".to_string()),
    ]);
    assert_eq!(context.get("key1"), Some(&"value1".to_string()));
    assert_eq!(context.get("key2"), Some(&"value2".to_string()));
}

#[test]
fn context_test_iter() {
    let mut context = Context::new();
    context.set("key1".to_string(), "value1".to_string());
    context.set("key2".to_string(), "value2".to_string());

    let mut pairs: Vec<(&String, &String)> = context.iter();
    pairs.sort_by(|a, b| a.0.cmp(b.0));

    assert_eq!(
        pairs,
        vec![
            (&"key1".to_string(), &"value1".to_string()),
            (&"key2".to_string(), &"value2".to_string()),
        ]
    );
}

#[test]
fn context_test_clear() {
    let mut context = Context::new();
    context.set("key1".to_string(), "value1".to_string());
    context.set("key2".to_string(), "value2".to_string());
    assert_eq!(context.len(), 2);

    context.clear();
    assert!(context.is_empty());
}

#[test]
fn test_set_overwrites() {
    let mut context = Context::new();
    context.set("key".to_string(), "first".to_string());
    context.set("key".to_string(), "second".to_string());
    assert_eq!(context.len(), 1);
    assert_eq!(context.get("key"), Some(&"second".to_string()));
}
