//! End-to-end pipeline scenarios: creating objects over POST, echoing
//! payload fields, cross-referencing stored objects, the GET auto-retrieval
//! shortcut, route lookup and status resolution.

use nugget::json::JsonValue;
use nugget::json::to_json_string;
use nugget::maps::JsonMap;
use nugget::types::{AppState, Config, ObjectStore, ResponseTemplate, Route, VariableConfig};
use nugget::pattern::find_matching_route;
use nugget::pipeline::{process_response, resolve_http_response, script_error_body,
    no_template_body, state_cleared_body, replace_path_parameters, interpolate_payload};
use nugget::pattern::extract_path_parameters;

fn jstr(s: &str) -> JsonValue {
    JsonValue::Str(s.to_string())
}

fn jobj(fields: Vec<(&str, JsonValue)>) -> JsonValue {
    JsonValue::Obj(fields.into_iter().map(|(k, v)| (k.to_string(), v)).collect())
}

fn var_config(t: &str) -> VariableConfig {
    VariableConfig {
        var_type: t.to_string(),
        default: None,
        prefix: None,
        min: None,
        max: None,
    }
}

fn route(method: &str, path: &str, body: JsonValue) -> Route {
    Route {
        path: path.to_string(),
        method: method.to_string(),
        response: Some(ResponseTemplate { status: None, body }),
        variables: None,
        lua_script: None,
        object_name: None,
        store_object: None,
    }
}

fn orders_post_route() -> Route {
    let mut r = route(
        "POST",
        "/orders",
        jobj(vec![
            ("id", jstr("{id}")),
            ("order_number", jstr("{order_number}")),
            ("items", jstr("{payload.items}")),
            ("customer", jstr("{payload.customer}")),
            ("total", jstr("{payload.total}")),
            ("status", jstr("pending")),
        ]),
    );
    let mut order_number = var_config("string");
    order_number.prefix = Some("ORD-".to_string());
    r.variables = Some(vec![
        ("id".to_string(), var_config("uuid")),
        ("order_number".to_string(), order_number),
    ]);
    r.object_name = Some("orders".to_string());
    r
}

fn fresh_state(routes: Vec<Route>, defaults: Vec<(&str, JsonValue)>) -> AppState {
    let mut d = JsonMap::new();
    for (k, v) in defaults {
        d.insert(k.to_string(), v);
    }
    AppState {
        config: Config { routes, defaults: Some(d) },
        storage: JsonMap::new(),
        objects: ObjectStore::new(),
        lua_state: JsonMap::new(),
    }
}

fn field_string(v: &JsonValue, key: &str) -> String {
    match v.get(key) {
        Some(JsonValue::Str(s)) => s.clone(),
        other => panic!("field {} should be a string, got {:?}", key, other.map(to_json_string)),
    }
}

#[test]
fn create_and_echo_defaults() {
    let post = orders_post_route();
    let mut state = fresh_state(vec![], vec![("customer", jstr("Anonymous")), ("total", JsonValue::Int(0))]);
    let mut warnings = Vec::new();
    let payload = jobj(vec![]);
    let body = process_response(&mut state, &post, "/orders", Some(&payload), &mut warnings);

    assert_eq!(field_string(&body, "customer"), "Anonymous");
    assert_eq!(to_json_string(body.get("total").unwrap()), "0");
    assert_eq!(field_string(&body, "status"), "pending");
    let id = field_string(&body, "id");
    assert_eq!(id.len(), 36, "id should be a 36-character UUID");
    assert!(field_string(&body, "order_number").starts_with("ORD-generated_"));
    assert!(warnings.is_empty());
}

#[test]
fn create_and_echo_payload_fields() {
    let post = orders_post_route();
    let mut state = fresh_state(vec![], vec![("customer", jstr("Anonymous")), ("total", JsonValue::Int(0))]);
    let mut warnings = Vec::new();
    let payload = jobj(vec![
        ("items", JsonValue::Arr(vec![jstr("laptop"), jstr("mouse")])),
        ("customer", jstr("John Doe")),
        ("total", JsonValue::Int(1200)),
    ]);
    let body = process_response(&mut state, &post, "/orders", Some(&payload), &mut warnings);
    assert_eq!(field_string(&body, "customer"), "John Doe");
    assert_eq!(to_json_string(body.get("total").unwrap()), "1200");
    assert_eq!(field_string(&body, "status"), "pending");
}

#[test]
fn cross_reference_bulk_returns_customers_in_insertion_order() {
    let post = orders_post_route();
    let report = route(
        "GET",
        "/reports/orders",
        jobj(vec![("customers", jstr("{objects.orders.customer}"))]),
    );
    let mut state = fresh_state(vec![], vec![("customer", jstr("Anonymous")), ("total", JsonValue::Int(0))]);
    let mut warnings = Vec::new();
    let p1 = jobj(vec![("customer", jstr("John Doe"))]);
    let p2 = jobj(vec![("customer", jstr("Jane Smith"))]);
    process_response(&mut state, &post, "/orders", Some(&p1), &mut warnings);
    process_response(&mut state, &post, "/orders", Some(&p2), &mut warnings);

    let body = process_response(&mut state, &report, "/reports/orders", None, &mut warnings);
    assert_eq!(
        to_json_string(body.get("customers").unwrap()),
        "[\"John Doe\",\"Jane Smith\"]"
    );
}

#[test]
fn cross_reference_by_id_through_path_parameter() {
    let post = orders_post_route();
    let items_route = route(
        "GET",
        "/inventory/order/{id}/items",
        jobj(vec![
            ("order_id", jstr("{path.id}")),
            ("items", jstr("{objects.orders[{path.id}].items}")),
            ("customer", jstr("{objects.orders[{path.id}].customer}")),
        ]),
    );
    let mut state = fresh_state(vec![], vec![("customer", jstr("Anonymous")), ("total", JsonValue::Int(0))]);
    let mut warnings = Vec::new();
    let p1 = jobj(vec![
        ("items", JsonValue::Arr(vec![jstr("laptop"), jstr("mouse")])),
        ("customer", jstr("John Doe")),
    ]);
    let created = process_response(&mut state, &post, "/orders", Some(&p1), &mut warnings);
    let id = field_string(&created, "id");

    let path = format!("/inventory/order/{}/items", id);
    let body = process_response(&mut state, &items_route, &path, None, &mut warnings);
    assert_eq!(field_string(&body, "order_id"), id);
    assert_eq!(to_json_string(body.get("items").unwrap()), "[\"laptop\",\"mouse\"]");
    assert_eq!(field_string(&body, "customer"), "John Doe");
}

#[test]
fn get_auto_retrieval_returns_the_stored_post_body() {
    let post = orders_post_route();
    let get_route = route(
        "GET",
        "/orders/{id}",
        jobj(vec![("note", jstr("this template is ignored for cached ids"))]),
    );
    let mut state = fresh_state(vec![], vec![("customer", jstr("Anonymous")), ("total", JsonValue::Int(0))]);
    let mut warnings = Vec::new();
    let payload = jobj(vec![("customer", jstr("John Doe"))]);
    let created = process_response(&mut state, &post, "/orders", Some(&payload), &mut warnings);
    let id = field_string(&created, "id");

    let path = format!("/orders/{}", id);
    let fetched = process_response(&mut state, &get_route, &path, None, &mut warnings);
    assert_eq!(
        to_json_string(&fetched),
        to_json_string(&created),
        "GET should return exactly the stored POST body"
    );

    // an id that was never created falls back to the route's template
    let other = process_response(&mut state, &get_route, "/orders/unknown", None, &mut warnings);
    assert_eq!(
        field_string(&other, "note"),
        "this template is ignored for cached ids"
    );
}

#[test]
fn store_object_false_skips_the_bucket_but_still_caches() {
    let mut post = orders_post_route();
    post.store_object = Some(false);
    let report = route(
        "GET",
        "/reports",
        jobj(vec![("all", jstr("{objects.orders}"))]),
    );
    let mut state = fresh_state(vec![], vec![]);
    let mut warnings = Vec::new();
    let payload = jobj(vec![("customer", jstr("X"))]);
    let created = process_response(&mut state, &post, "/orders", Some(&payload), &mut warnings);
    let id = field_string(&created, "id");

    // the bucket is absent, so the reference passes through
    let body = process_response(&mut state, &report, "/reports", None, &mut warnings);
    assert_eq!(to_json_string(body.get("all").unwrap()), "\"{objects.orders}\"");

    // the keyed cache was still written
    let get_route = route("GET", "/orders/{id}", jobj(vec![]));
    let path = format!("/orders/{}", id);
    let fetched = process_response(&mut state, &get_route, &path, None, &mut warnings);
    assert_eq!(to_json_string(&fetched), to_json_string(&created));
}

#[test]
fn clear_all_empties_every_map() {
    let post = orders_post_route();
    let report = route(
        "GET",
        "/reports",
        jobj(vec![("all", jstr("{objects.orders}"))]),
    );
    let mut state = fresh_state(vec![], vec![]);
    let mut warnings = Vec::new();
    let payload = jobj(vec![("customer", jstr("X"))]);
    process_response(&mut state, &post, "/orders", Some(&payload), &mut warnings);
    state.clear_all();
    let body = process_response(&mut state, &report, "/reports", None, &mut warnings);
    assert_eq!(to_json_string(body.get("all").unwrap()), "\"{objects.orders}\"");
}

#[test]
fn route_lookup_is_first_match_and_case_insensitive() {
    let config = Config {
        routes: vec![
            route("GET", "/a", jstr("first")),
            route("get", "/a", jstr("second")),
            route("POST", "/b/{x}", jstr("third")),
        ],
        defaults: None,
    };
    assert_eq!(find_matching_route(&config, "GET", "/a"), Some(0));
    assert_eq!(find_matching_route(&config, "gEt", "/a"), Some(0));
    assert_eq!(find_matching_route(&config, "POST", "/b/anything"), Some(2));
    assert_eq!(find_matching_route(&config, "DELETE", "/a"), None);
    assert_eq!(find_matching_route(&config, "GET", "/missing"), None);
}

#[test]
fn missing_template_yields_the_error_envelope() {
    let mut r = route("GET", "/none", JsonValue::Null);
    r.response = None;
    let mut state = fresh_state(vec![], vec![]);
    let mut warnings = Vec::new();
    let body = process_response(&mut state, &r, "/none", None, &mut warnings);
    assert_eq!(
        to_json_string(&body),
        "{\"error\":\"No response template defined\",\"status\":500}"
    );
    let (status, http_body) = resolve_http_response(&body, None);
    assert_eq!(status, 500);
    assert_eq!(to_json_string(&http_body), to_json_string(&body));
}

#[test]
fn fixed_bodies_have_their_documented_shapes() {
    assert_eq!(
        to_json_string(&script_error_body()),
        "{\"error\":\"Failed to execute Lua script\",\"status\":500}"
    );
    assert_eq!(
        to_json_string(&no_template_body()),
        "{\"error\":\"No response template defined\",\"status\":500}"
    );
    assert_eq!(
        to_json_string(&state_cleared_body()),
        "{\"status\":\"cleared\",\"message\":\"All stored state has been cleared\"}"
    );
}

#[test]
fn top_level_status_field_overrides_and_unwraps_body() {
    let body = jobj(vec![
        ("status", JsonValue::Int(401)),
        ("body", jobj(vec![("error", jstr("Unauthorized"))])),
    ]);
    let (status, out) = resolve_http_response(&body, Some(201));
    assert_eq!(status, 401);
    assert_eq!(to_json_string(&out), "{\"error\":\"Unauthorized\"}");

    let body = jobj(vec![("status", JsonValue::Int(500))]);
    let (status, out) = resolve_http_response(&body, None);
    assert_eq!(status, 500);
    assert_eq!(to_json_string(&out), "{\"status\":500}");

    let body = jobj(vec![("status", JsonValue::Int(99999))]);
    let (status, _) = resolve_http_response(&body, None);
    assert_eq!(status, 500, "out-of-range status falls back to 500");
}

#[test]
fn template_status_applies_when_body_has_none() {
    let body = jobj(vec![("ok", JsonValue::Bool(true))]);
    let (status, out) = resolve_http_response(&body, Some(201));
    assert_eq!(status, 201);
    assert_eq!(to_json_string(&out), "{\"ok\":true}");
    let (status, _) = resolve_http_response(&body, None);
    assert_eq!(status, 200);
}

#[test]
fn path_params_substitute_without_recursive_expansion() {
    let params = extract_path_parameters("/users/{id}/profile", "/users/123/profile");
    let template = jobj(vec![
        ("user_id", jstr("{path.id}")),
        ("link", jstr("/users/{path.id}/posts")),
    ]);
    let once = replace_path_parameters(&template, &params);
    assert_eq!(field_string(&once, "user_id"), "123");
    assert_eq!(field_string(&once, "link"), "/users/123/posts");
    let twice = replace_path_parameters(&once, &params);
    assert_eq!(
        to_json_string(&twice),
        to_json_string(&once),
        "applying the bindings again should change nothing"
    );
}

#[test]
fn unbound_path_params_stay_in_place() {
    let params = extract_path_parameters("/users/{id}", "/users/7");
    let template = jstr("{path.other} and {path.id}");
    let out = replace_path_parameters(&template, &params);
    assert_eq!(to_json_string(&out), "\"{path.other} and 7\"");
}

#[test]
fn payload_interpolation_prefers_payload_over_defaults() {
    let mut defaults = JsonMap::new();
    defaults.insert("customer".to_string(), jstr("Anonymous"));
    defaults.insert("total".to_string(), JsonValue::Int(0));
    let template = jobj(vec![
        ("customer", jstr("{payload.customer}")),
        ("total", jstr("{payload.total}")),
        ("note", jstr("{payload.note}")),
    ]);
    let payload = jobj(vec![("customer", jstr("Jane"))]);
    let out = interpolate_payload(&template, &payload, Some(&defaults));
    assert_eq!(field_string(&out, "customer"), "Jane");
    assert_eq!(to_json_string(out.get("total").unwrap()), "0");
    assert_eq!(field_string(&out, "note"), "{payload.note}");
}

#[test]
fn lowercase_post_method_still_generates_variables() {
    let mut post = orders_post_route();
    post.method = "post".to_string();
    let mut state = fresh_state(vec![], vec![]);
    let mut warnings = Vec::new();
    let body = process_response(&mut state, &post, "/orders", None, &mut warnings);
    assert_eq!(field_string(&body, "id").len(), 36);
}

#[test]
fn get_without_slash_free_path_skips_the_cache() {
    let get_route = route("GET", "/plain", jobj(vec![("ok", JsonValue::Bool(true))]));
    let mut state = fresh_state(vec![], vec![]);
    let mut warnings = Vec::new();
    let body = process_response(&mut state, &get_route, "plain", None, &mut warnings);
    assert_eq!(to_json_string(&body), "{\"ok\":true}");
}

#[test]
fn post_without_variables_interpolates_payload_only() {
    let echo = route(
        "POST",
        "/echo",
        jobj(vec![("who", jstr("{payload.who}"))]),
    );
    let mut state = fresh_state(vec![], vec![]);
    let mut warnings = Vec::new();
    let payload = jobj(vec![("who", jstr("me"))]);
    let body = process_response(&mut state, &echo, "/echo", Some(&payload), &mut warnings);
    assert_eq!(field_string(&body, "who"), "me");
    // nothing was stored
    let get_route = route("GET", "/echo/{id}", jobj(vec![("missed", JsonValue::Bool(true))]));
    let body = process_response(&mut state, &get_route, "/echo/me", None, &mut warnings);
    assert_eq!(to_json_string(&body), "{\"missed\":true}");
}
