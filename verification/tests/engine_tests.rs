//! Tests for the engine: template rendering with default and custom
//! delimiters, every syntax-error kind, page options, and the cached page
//! path fed from in-memory template text.

use staticweaver::engine::is_url;
use staticweaver::{Context, Engine, EngineError, PageOptions};

fn create_engine() -> Engine {
    Engine::new("dummy/path", 60_000)
}

fn create_basic_context() -> Context {
    let mut context = Context::new();
    context.set("name".to_string(), "World".to_string());
    context.set("greeting".to_string(), "Hello".to_string());
    context
}

#[test]
fn test_render_template() {
    let mut engine = Engine::new("", 60_000);
    engine.set_delimiters("<<", ">>");
    let mut context = Context::new();
    context.set("name".to_string(), "Alice".to_string());
    context.set("greeting".to_string(), "Hello".to_string());

    let template = "<<greeting>>, <<name>>!";
    let result = engine.render_template(template, &context).unwrap();
    assert_eq!(result, "Hello, Alice!");
}

#[test]
fn test_render_template_empty() {
    let engine = Engine::new("", 60_000);
    let context = Context::new();

    let template = "";
    let result = engine.render_template(template, &context);
    assert!(matches!(result, Err(EngineError::InvalidTemplate(_))));
}

#[test]
fn engine_test_render_template_invalid_syntax() {
    let mut engine = Engine::new("", 60_000);
    engine.set_delimiters("{{", "}}");
    let context = Context::new();
    let template = "Hello, {name}!";
    let result = engine.render_template(template, &context);
    assert!(
        matches!(result, Err(EngineError::InvalidTemplate(msg)) if msg.contains("single '{'"))
    );
}

#[test]
fn test_render_template_custom_delimiters() {
    let mut engine = Engine::new("", 60_000);
    engine.set_delimiters("<<", ">>");
    let mut context = Context::new();
    context.set("name".to_string(), "Alice".to_string());
    context.set("greeting".to_string(), "Hello".to_string());

    let template = "<<greeting>>, <<name>>!";
    let result = engine.render_template(template, &context).unwrap();
    assert_eq!(result, "Hello, Alice!");

    let invalid_template = "Hello, <name>!";
    let result = engine.render_template(invalid_template, &context);
    assert!(
        matches!(result, Err(EngineError::InvalidTemplate(msg)) if msg.contains("single '<'"))
    );
}

#[test]
fn test_render_template_unresolved_tag() {
    let engine = Engine::new("", 60_000);
    let context = Context::new();

    let template = "Hello, {{name}}!";
    let result = engine.render_template(template, &context);
    assert!(matches!(result, Err(EngineError::Render(_))));
}

#[test]
fn test_is_url() {
    assert!(is_url("http://example.com"));
    assert!(is_url("https://example.com"));
    assert!(!is_url("file:///path/to/file"));
    assert!(!is_url("/local/path"));
}

#[test]
fn test_render_template_escaped_delimiters() {
    let mut engine = Engine::new("", 60_000);
    engine.set_delimiters("{{", "}}");
    let mut context = Context::new();
    context.set("name".to_string(), "Alice".to_string());

    let template = "Hello, {{name}}!";
    let result = engine.render_template(template, &context).unwrap();
    assert_eq!(result, "Hello, Alice!");

    let template = "Hello, {{name}}! Welcome, {{name}}!";
    let result = engine.render_template(template, &context).unwrap();
    assert_eq!(result, "Hello, Alice! Welcome, Alice!");
}

#[test]
fn test_engine_render_template() {
    let engine = create_engine();
    let context = create_basic_context();
    let template = "{{greeting}}, {{name}}!";
    let result = engine.render_template(template, &context).unwrap();
    assert_eq!(result, "Hello, World!");
}

#[test]
fn test_engine_render_template_unresolved_tags() {
    let engine = create_engine();
    let context = Context::new();
    let template = "{{greeting}}, {{name}}!";
    let result = engine.render_template(template, &context);
    assert!(
        matches!(result, Err(EngineError::Render(msg)) if msg == "Unresolved template tag: greeting")
    );
}

#[test]
fn test_engine_render_empty_template() {
    let engine = create_engine();
    let context = Context::new();
    let template = "";
    let result = engine.render_template(template, &context);
    assert!(
        matches!(result, Err(EngineError::InvalidTemplate(msg)) if msg == "Template is empty")
    );
}

#[test]
fn test_engine_render_special_characters_in_context() {
    let engine = create_engine();
    let mut context = Context::new();
    context.set("name".to_string(), "<script>alert('XSS')</script>".to_string());
    context.set("greeting".to_string(), "&".to_string());
    let template = "{{greeting}} {{name}}";
    let result = engine.render_template(template, &context).unwrap();
    assert_eq!(result, "& <script>alert('XSS')</script>");
}

#[test]
fn test_engine_large_context() {
    let engine = create_engine();
    let mut context = Context::new();
    for i in 0..1000 {
        context.set(format!("key{}", i), format!("value{}", i));
    }

    let mut template = String::new();
    for i in 0..1000 {
        template.push_str(&format!("{{{{key{}}}}}", i));
    }

    let result = engine.render_template(&template, &context).unwrap();
    let mut expected_result = String::new();
    for i in 0..1000 {
        expected_result.push_str(&format!("value{}", i));
    }

    assert_eq!(result, expected_result);
}

#[test]
fn test_page_options_new() {
    let options = PageOptions::new();
    assert!(options.elements.is_empty());
}

#[test]
fn test_page_options_set_get() {
    let mut options = PageOptions::new();
    options.set("title".to_string(), "My Title".to_string());
    assert_eq!(options.get("title"), Some(&"My Title".to_string()));
    assert_eq!(options.get("non_existent"), None);
}

#[test]
fn test_page_options_large_context() {
    let mut options = PageOptions::new();
    for i in 0..1000 {
        let key = format!("key{}", i);
        let value = format!("value{}", i);
        options.set(key, value);
    }
    assert_eq!(options.get("key999"), Some(&"value999".to_string()));
    assert_eq!(options.get("key1000"), None);
}

#[test]
fn test_render_template_invalid_format() {
    let engine = create_engine();
    let context = create_basic_context();
    let template = "{greeting}, {name}!";
    let result = engine.render_template(template, &context);
    assert!(matches!(result, Err(EngineError::InvalidTemplate(_))));
}

#[test]
fn engine_tests_test_render_template_invalid_syntax() {
    let engine = create_engine();
    let context = create_basic_context();
    let invalid_template = "Hello, {{name";
    let result = engine.render_template(invalid_template, &context);
    assert!(
        matches!(result, Err(EngineError::InvalidTemplate(msg)) if msg == "Unclosed template tag")
    );
}

#[test]
fn test_render_large_template() {
    let engine = create_engine();
    let large_template = "Hello, {{name}}".repeat(1000);
    let context = create_basic_context();
    let result = engine.render_template(&large_template, &context).unwrap();
    assert_eq!(result, "Hello, World".repeat(1000));
}

#[test]
fn test_render_template_empty_template() {
    let engine = create_engine();
    let context = create_basic_context();
    let empty_template = "";
    let result = engine.render_template(empty_template, &context);
    assert!(
        matches!(result, Err(EngineError::InvalidTemplate(msg)) if msg == "Template is empty")
    );
}

#[test]
fn test_clear_cache() {
    let mut engine = Engine::new("templates", 3_600_000);

    let _ = engine.render_cache.insert("key1".to_string(), "value1".to_string());
    assert!(!engine.render_cache.is_empty());

    engine.clear_cache();
    assert!(engine.render_cache.is_empty());
}

#[test]
fn test_set_max_cache_size() {
    let mut engine = Engine::new("templates", 3_600_000);

    let _ = engine.render_cache.insert("key1".to_string(), "value1".to_string());
    let _ = engine.render_cache.insert("key2".to_string(), "value2".to_string());
    assert_eq!(engine.render_cache.len(), 2);

    engine.set_max_cache_size(1);
    assert!(engine.render_cache.is_empty());
}

#[test]
fn test_render_template_nested_delimiters() {
    let engine = create_engine();
    let mut context = Context::new();
    context.set("a{{b".to_string(), "X".to_string());
    let template = "{{a{{b}}c}}";
    let result = engine.render_template(template, &context);
    assert!(
        matches!(result, Err(EngineError::InvalidTemplate(msg)) if msg == "Nested delimiters are not allowed")
    );
}

#[test]
fn test_render_template_whitespace_only() {
    let engine = create_engine();
    let context = Context::new();
    let result = engine.render_template("   \t\n", &context);
    assert!(
        matches!(result, Err(EngineError::InvalidTemplate(msg)) if msg == "Template is empty")
    );
}

#[test]
fn test_render_template_whitespace_in_key() {
    let engine = create_engine();
    let mut context = Context::new();
    context.set(" name ".to_string(), "Alice".to_string());
    let result = engine.render_template("x{{ name }}y", &context).unwrap();
    assert_eq!(result, "xAlicey");
    let result = engine.render_template("x{{name}}y", &context);
    assert!(matches!(result, Err(EngineError::Render(_))));
}

#[test]
fn test_page_cache_key_format() {
    let mut context = Context::new();
    context.set("key".to_string(), "value".to_string());
    let key = Engine::page_cache_key(&context, "home");
    assert_eq!(key, format!("home:{}", context.hash()));
}

#[test]
fn test_cached_page_round_trip() {
    let mut engine = Engine::new("unused", 3_600_000);
    let mut context = Context::new();
    context.set("greeting".to_string(), "Hello".to_string());
    context.set("name".to_string(), "Alice".to_string());

    assert_eq!(engine.cached_page(&context, "page"), None);

    let rendered = engine
        .finish_page(&context, "page", "{{greeting}}, {{name}}!")
        .unwrap();
    assert_eq!(rendered, "Hello, Alice!");

    assert_eq!(engine.cached_page(&context, "page"), Some("Hello, Alice!".to_string()));
    assert_eq!(engine.cached_page(&context, "other"), None);
}

#[test]
fn test_finish_page_error_caches_nothing() {
    let mut engine = Engine::new("unused", 3_600_000);
    let context = Context::new();
    let result = engine.finish_page(&context, "page", "{{missing}}");
    assert!(matches!(result, Err(EngineError::Render(_))));
    assert!(engine.render_cache.is_empty());
}

#[test]
fn test_render_scenario_greeting() {
    let engine = create_engine();
    let mut context = Context::new();
    context.set("greeting".to_string(), "Hello".to_string());
    context.set("name".to_string(), "Alice".to_string());
    let result = engine.render_template("{{greeting}}, {{name}}!", &context).unwrap();
    assert_eq!(result, "Hello, Alice!");
}

#[test]
fn test_render_scenario_unresolved() {
    let engine = create_engine();
    let context = Context::new();
    let result = engine.render_template("{{unresolved}}", &context);
    assert!(
        matches!(result, Err(EngineError::Render(msg)) if msg.contains("Unresolved template tag: unresolved"))
    );
}

#[test]
fn test_render_output_length() {
    let engine = create_engine();
    let mut context = Context::new();
    context.set("k".to_string(), "xyz".to_string());
    let result = engine.render_template("a{{k}}b", &context).unwrap();
    assert_eq!(result, "axyzb");
    assert_eq!(result.len(), 2 + 3);
}

#[test]
fn test_render_deterministic() {
    let engine = create_engine();
    let context = create_basic_context();
    let first = engine.render_template("{{greeting}}, {{name}}!", &context).unwrap();
    let second = engine.render_template("{{greeting}}, {{name}}!", &context).unwrap();
    assert_eq!(first, second);

    let e1 = engine.render_template("Hello, {{name", &context);
    let e2 = engine.render_template("Hello, {{name", &context);
    assert!(matches!(e1, Err(EngineError::InvalidTemplate(_))));
    assert!(matches!(e2, Err(EngineError::InvalidTemplate(_))));
}
