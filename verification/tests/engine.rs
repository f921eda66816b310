//! Placeholder scanning, cross-references, variable generation and JSON
//! serialization, exercised on concrete values.

use nugget::json::{JsonValue, to_json_string};
use nugget::maps::{JsonMap, StrMap};
use nugget::placeholder::{Resolver, replace_simple_placeholders};
use nugget::crossref::resolve_cross_references;
use nugget::types::{ObjectStore, StoredObject, VariableConfig};
use nugget::vars::{generate_variable_value, generate_variables, validate_variable_parameters};
use nugget::pattern::{extract_path_parameters, path_matches_pattern};

fn jstr(s: &str) -> JsonValue {
    JsonValue::Str(s.to_string())
}

fn jobj(fields: Vec<(&str, JsonValue)>) -> JsonValue {
    JsonValue::Obj(fields.into_iter().map(|(k, v)| (k.to_string(), v)).collect())
}

fn var_config(t: &str) -> VariableConfig {
    VariableConfig {
        var_type: t.to_string(),
        default: None,
        prefix: None,
        min: None,
        max: None,
    }
}

#[test]
fn serializes_scalars_and_nesting() {
    assert_eq!(to_json_string(&JsonValue::Null), "null");
    assert_eq!(to_json_string(&JsonValue::Bool(true)), "true");
    assert_eq!(to_json_string(&JsonValue::Bool(false)), "false");
    assert_eq!(to_json_string(&JsonValue::Int(0)), "0");
    assert_eq!(to_json_string(&JsonValue::Int(-17)), "-17");
    assert_eq!(to_json_string(&JsonValue::Int(i64::MIN)), "-9223372036854775808");
    assert_eq!(to_json_string(&JsonValue::Int(i64::MAX)), "9223372036854775807");
    assert_eq!(to_json_string(&JsonValue::Num("2.5".to_string())), "2.5");
    assert_eq!(to_json_string(&jstr("hi")), "\"hi\"");
    let v = jobj(vec![
        ("a", JsonValue::Arr(vec![JsonValue::Int(1), JsonValue::Int(2)])),
        ("b", jobj(vec![("c", JsonValue::Null)])),
    ]);
    assert_eq!(to_json_string(&v), "{\"a\":[1,2],\"b\":{\"c\":null}}");
}

#[test]
fn serializes_escaped_strings() {
    assert_eq!(to_json_string(&jstr("a\"b")), "\"a\\\"b\"");
    assert_eq!(to_json_string(&jstr("a\\b")), "\"a\\\\b\"");
    assert_eq!(to_json_string(&jstr("a\nb\tc\rd")), "\"a\\nb\\tc\\rd\"");
    assert_eq!(to_json_string(&jstr("\u{8}\u{c}")), "\"\\b\\f\"");
    assert_eq!(to_json_string(&jstr("\u{1}")), "\"\\u0001\"");
    assert_eq!(to_json_string(&jstr("\u{1f}")), "\"\\u001f\"");
}

#[test]
fn whole_string_placeholder_keeps_json_type() {
    let mut vars = JsonMap::new();
    vars.insert(
        "items".to_string(),
        JsonValue::Arr(vec![jstr("laptop"), jstr("mouse")]),
    );
    let template = jobj(vec![("items", jstr("{items}"))]);
    let out = replace_simple_placeholders(&template, &Resolver::Variables(&vars));
    assert_eq!(to_json_string(&out), "{\"items\":[\"laptop\",\"mouse\"]}");
}

#[test]
fn embedded_placeholder_splices_text() {
    let mut vars = JsonMap::new();
    vars.insert("name".to_string(), jstr("waffle"));
    vars.insert("n".to_string(), JsonValue::Int(3));
    let template = jstr("hello {name}, you have {n} items");
    let out = replace_simple_placeholders(&template, &Resolver::Variables(&vars));
    assert_eq!(to_json_string(&out), "\"hello waffle, you have 3 items\"");
}

#[test]
fn declined_placeholder_passes_through_unchanged() {
    let vars = JsonMap::new();
    let template = jstr("{unknown} and {also.unknown}");
    let out = replace_simple_placeholders(&template, &Resolver::Variables(&vars));
    assert_eq!(to_json_string(&out), "\"{unknown} and {also.unknown}\"");
}

#[test]
fn unmatched_brace_ends_the_scan() {
    let mut vars = JsonMap::new();
    vars.insert("a".to_string(), jstr("X"));
    let template = jstr("{a} then {open");
    let out = replace_simple_placeholders(&template, &Resolver::Variables(&vars));
    assert_eq!(to_json_string(&out), "\"X then {open\"");
}

#[test]
fn extracts_path_parameters() {
    let params = extract_path_parameters("/orders/{id}/items/{n}", "/orders/42/items/7");
    assert_eq!(params.get("id").map(|s| s.as_str()), Some("42"));
    assert_eq!(params.get("n").map(|s| s.as_str()), Some("7"));
    assert!(params.get("other").is_none());
}

#[test]
fn extraction_requires_equal_segment_counts() {
    let params = extract_path_parameters("/orders/{id}", "/orders/42/extra");
    assert!(params.get("id").is_none());
}

#[test]
fn matches_patterns_segment_by_segment() {
    assert!(path_matches_pattern("/orders/{id}", "/orders/42"));
    assert!(path_matches_pattern("/a/{x}/c", "/a/b/c"));
    assert!(!path_matches_pattern("/a/{x}/c", "/a/b/d"));
    assert!(!path_matches_pattern("/a/{x}", "/a/b/c"));
    assert!(!path_matches_pattern("/orders", "/users"));
}

#[test]
fn bulk_reference_returns_all_data_in_insertion_order() {
    let mut store = ObjectStore::new();
    store.append(
        "orders",
        StoredObject {
            id: "1".to_string(),
            data: jobj(vec![("customer", jstr("John Doe"))]),
        },
    );
    store.append(
        "orders",
        StoredObject {
            id: "2".to_string(),
            data: jobj(vec![("customer", jstr("Jane Smith"))]),
        },
    );
    let out = resolve_cross_references(&jstr("{objects.orders}"), &store);
    assert_eq!(
        to_json_string(&out),
        "[{\"customer\":\"John Doe\"},{\"customer\":\"Jane Smith\"}]"
    );
}

#[test]
fn field_reference_collects_per_object_values() {
    let mut store = ObjectStore::new();
    store.append(
        "orders",
        StoredObject {
            id: "1".to_string(),
            data: jobj(vec![("customer", jstr("John Doe")), ("total", JsonValue::Int(1200))]),
        },
    );
    store.append(
        "orders",
        StoredObject {
            id: "2".to_string(),
            data: jobj(vec![("customer", jstr("Jane Smith"))]),
        },
    );
    let out = resolve_cross_references(&jstr("{objects.orders.customer}"), &store);
    assert_eq!(to_json_string(&out), "[\"John Doe\",\"Jane Smith\"]");
    // objects missing the path are skipped
    let out = resolve_cross_references(&jstr("{objects.orders.total}"), &store);
    assert_eq!(to_json_string(&out), "[1200]");
}

#[test]
fn singular_reference_finds_object_by_id() {
    let mut store = ObjectStore::new();
    store.append(
        "orders",
        StoredObject {
            id: "abc".to_string(),
            data: jobj(vec![
                ("items", JsonValue::Arr(vec![jstr("laptop"), jstr("mouse")])),
                ("customer", jstr("John Doe")),
            ]),
        },
    );
    let out = resolve_cross_references(&jstr("{objects.orders[abc]}"), &store);
    assert_eq!(
        to_json_string(&out),
        "{\"items\":[\"laptop\",\"mouse\"],\"customer\":\"John Doe\"}"
    );
    let out = resolve_cross_references(&jstr("{objects.orders[abc].items}"), &store);
    assert_eq!(to_json_string(&out), "[\"laptop\",\"mouse\"]");
    let out = resolve_cross_references(&jstr("{objects.orders[abc].customer}"), &store);
    assert_eq!(to_json_string(&out), "\"John Doe\"");
}

#[test]
fn missing_bucket_or_id_passes_through() {
    let store = ObjectStore::new();
    let out = resolve_cross_references(&jstr("{objects.orders}"), &store);
    assert_eq!(to_json_string(&out), "\"{objects.orders}\"");
    let mut store = ObjectStore::new();
    store.append(
        "orders",
        StoredObject { id: "1".to_string(), data: jobj(vec![]) },
    );
    let out = resolve_cross_references(&jstr("{objects.orders[nope]}"), &store);
    assert_eq!(to_json_string(&out), "\"{objects.orders[nope]}\"");
    let out = resolve_cross_references(&jstr("{objects.orders[1].missing}"), &store);
    assert_eq!(to_json_string(&out), "\"{objects.orders[1].missing}\"");
}

#[test]
fn nested_field_paths_walk_objects() {
    let mut store = ObjectStore::new();
    store.append(
        "users",
        StoredObject {
            id: "u1".to_string(),
            data: jobj(vec![("profile", jobj(vec![("name", jstr("Ada"))]))]),
        },
    );
    let out = resolve_cross_references(&jstr("{objects.users[u1].profile.name}"), &store);
    assert_eq!(to_json_string(&out), "\"Ada\"");
}

#[test]
fn uuid_variable_is_canonical_hyphenated() {
    let cfg = var_config("uuid");
    let mut warnings = Vec::new();
    let v = generate_variable_value(&cfg, &mut warnings);
    assert!(warnings.is_empty());
    let s = match v {
        JsonValue::Str(s) => s,
        _ => panic!("uuid variable should be a string"),
    };
    assert_eq!(s.len(), 36, "UUID should be 36 characters");
    assert!(s.contains('-'), "UUID should contain hyphens");
    let parts: Vec<&str> = s.split('-').collect();
    assert_eq!(parts.len(), 5, "UUID should have 5 parts separated by hyphens");
    assert_eq!(parts[0].len(), 8);
    assert_eq!(parts[1].len(), 4);
    assert_eq!(parts[2].len(), 4);
    assert_eq!(parts[3].len(), 4);
    assert_eq!(parts[4].len(), 12);
}

#[test]
fn uuid_variables_differ_between_calls() {
    let cfg = var_config("uuid");
    let mut warnings = Vec::new();
    let a = generate_variable_value(&cfg, &mut warnings);
    let b = generate_variable_value(&cfg, &mut warnings);
    assert_ne!(to_json_string(&a), to_json_string(&b), "UUIDs should be different");
}

#[test]
fn integer_variable_honours_min_max() {
    let mut cfg = var_config("integer");
    cfg.min = Some(10);
    cfg.max = Some(100);
    let mut warnings = Vec::new();
    for _ in 0..50 {
        let v = generate_variable_value(&cfg, &mut warnings);
        match v {
            JsonValue::Int(n) => {
                assert!(n >= 10, "value should be >= 10, got {}", n);
                assert!(n <= 100, "value should be <= 100, got {}", n);
            },
            _ => panic!("integer variable should be a number"),
        }
    }
    assert!(warnings.is_empty());
}

#[test]
fn integer_variable_with_equal_bounds_is_constant() {
    let mut cfg = var_config("integer");
    cfg.min = Some(7);
    cfg.max = Some(7);
    let mut warnings = Vec::new();
    let v = generate_variable_value(&cfg, &mut warnings);
    assert_eq!(to_json_string(&v), "7");
}

#[test]
fn inverted_integer_range_warns_and_falls_back() {
    let mut cfg = var_config("integer");
    cfg.min = Some(9);
    cfg.max = Some(2);
    let mut warnings = Vec::new();
    let v = generate_variable_value(&cfg, &mut warnings);
    match v {
        JsonValue::Int(n) => assert!(n >= 0 && n <= u32::MAX as i64),
        _ => panic!("fallback should still be a number"),
    }
    assert_eq!(
        warnings,
        vec![
            "Warning: min value (9) is greater than max value (2). Using default range."
                .to_string()
        ]
    );
}

#[test]
fn string_variable_takes_the_prefix() {
    let mut cfg = var_config("string");
    cfg.prefix = Some("SKU_".to_string());
    let mut warnings = Vec::new();
    let v = generate_variable_value(&cfg, &mut warnings);
    let s = match v {
        JsonValue::Str(s) => s,
        _ => panic!("string variable should be a string"),
    };
    assert!(s.starts_with("SKU_generated_"), "got {}", s);
    assert!(s.len() > "SKU_generated_".len());
    let bare = generate_variable_value(&var_config("string"), &mut warnings);
    let bs = match bare {
        JsonValue::Str(s) => s,
        _ => panic!(),
    };
    assert!(bs.starts_with("generated_"));
    assert!(!bs.starts_with("SKU_"));
}

#[test]
fn unknown_type_uses_default_or_fixed_string() {
    let mut cfg = var_config("timestamp");
    cfg.default = Some(jstr("2024-01-01"));
    let mut warnings = Vec::new();
    let v = generate_variable_value(&cfg, &mut warnings);
    assert_eq!(to_json_string(&v), "\"2024-01-01\"");
    let v = generate_variable_value(&var_config("timestamp"), &mut warnings);
    assert_eq!(to_json_string(&v), "\"default\"");
}

#[test]
fn unsupported_options_warn_once_each() {
    let mut cfg = var_config("uuid");
    cfg.prefix = Some("x".to_string());
    cfg.min = Some(1);
    let ws = validate_variable_parameters(&cfg);
    assert_eq!(
        ws,
        vec![
            "Warning: UUID type doesn't support 'prefix' parameter. Ignoring this parameter."
                .to_string(),
            "Warning: UUID type doesn't support 'min' parameter. Ignoring this parameter."
                .to_string(),
        ]
    );
    let mut cfg = var_config("unknowable");
    cfg.max = Some(2);
    let ws = validate_variable_parameters(&cfg);
    assert_eq!(
        ws,
        vec![
            "Warning: Unknown variable type 'unknowable'. Parameters may not be supported."
                .to_string()
        ]
    );
}

#[test]
fn generates_every_declared_variable() {
    let vars = vec![
        ("id".to_string(), var_config("uuid")),
        ("qty".to_string(), {
            let mut c = var_config("integer");
            c.min = Some(1);
            c.max = Some(5);
            c
        }),
    ];
    let mut warnings = Vec::new();
    let g = generate_variables(&vars, &mut warnings);
    assert!(g.get("id").is_some());
    assert!(g.get("qty").is_some());
    assert!(g.get("other").is_none());
}

#[test]
fn map_lookup_takes_latest_binding() {
    let mut m = StrMap::new();
    m.insert("k".to_string(), "first".to_string());
    m.insert("k".to_string(), "second".to_string());
    assert_eq!(m.get("k").map(|s| s.as_str()), Some("second"));
}

#[test]
fn object_get_walks_first_matching_field() {
    let v = jobj(vec![("a", JsonValue::Int(1)), ("b", JsonValue::Int(2))]);
    assert_eq!(to_json_string(v.get("b").unwrap()), "2");
    assert!(v.get("c").is_none());
    assert!(JsonValue::Int(3).get("a").is_none());
}

#[test]
fn bucket_whose_name_contains_a_dot_wins_over_field_form() {
    let mut store = ObjectStore::new();
    store.append(
        "a.b",
        StoredObject { id: "1".to_string(), data: jstr("dotted") },
    );
    store.append(
        "a",
        StoredObject {
            id: "2".to_string(),
            data: jobj(vec![("b", jstr("field"))]),
        },
    );
    // the whole content is tried as a bucket name first
    let out = resolve_cross_references(&jstr("{objects.a.b}"), &store);
    assert_eq!(to_json_string(&out), "[\"dotted\"]");
}

#[test]
fn absent_dotted_bucket_falls_through_to_the_field_form() {
    let mut store = ObjectStore::new();
    store.append(
        "a",
        StoredObject {
            id: "2".to_string(),
            data: jobj(vec![("b", jstr("field"))]),
        },
    );
    let out = resolve_cross_references(&jstr("{objects.a.b}"), &store);
    assert_eq!(to_json_string(&out), "[\"field\"]");
}

#[test]
fn embedded_splice_uses_json_text_for_non_strings() {
    let mut vars = JsonMap::new();
    vars.insert("a".to_string(), JsonValue::Arr(vec![JsonValue::Int(1)]));
    vars.insert("b".to_string(), JsonValue::Bool(true));
    let out = replace_simple_placeholders(
        &jstr("x {a} y {b}"),
        &Resolver::Variables(&vars),
    );
    assert_eq!(to_json_string(&out), "\"x [1] y true\"");
}

#[test]
fn payload_resolver_ignores_tokens_without_the_payload_prefix() {
    let payload = jobj(vec![("name", jstr("Ada"))]);
    let out = replace_simple_placeholders(
        &jstr("{name} but {payload.name}"),
        &Resolver::Payload(&payload, None),
    );
    assert_eq!(to_json_string(&out), "\"{name} but Ada\"");
}
