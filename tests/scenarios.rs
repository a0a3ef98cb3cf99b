use juno_broker::broker::{Broker, Outbound};
use juno_broker::json::Json;
use juno_broker::version::SemanticVersion;

fn obj(fields: Vec<(&str, Json)>) -> Json {
    let mut j = Json::empty_object();
    for (k, v) in fields {
        j = j.with_field(k, v);
    }
    j
}

fn s(text: &str) -> Json {
    Json::string(text)
}

fn n(value: u64) -> Json {
    Json::uint(value)
}

fn broker() -> Broker {
    Broker::new("juno", SemanticVersion::parse("0.1.0").unwrap())
}

fn register(b: &mut Broker, conn: u128, id: &str, version: &str, deps: Vec<(&str, &str)>) -> Vec<Outbound> {
    let mut fields = vec![("type", n(1)), ("requestId", s(&format!("reg-{}", id))), ("moduleId", s(id)), ("version", s(version))];
    if !deps.is_empty() {
        fields.push(("dependencies", obj(deps.into_iter().map(|(k, v)| (k, s(v))).collect())));
    }
    b.handle_request(conn, obj(fields), 0)
}

fn declare(b: &mut Broker, conn: u128, rid: &str, function: &str) -> Vec<Outbound> {
    b.handle_request(conn, obj(vec![("type", n(9)), ("requestId", s(rid)), ("function", s(function))]), 0)
}

fn listen(b: &mut Broker, conn: u128, rid: &str, hook: &str) -> Vec<Outbound> {
    b.handle_request(conn, obj(vec![("type", n(5)), ("requestId", s(rid)), ("hook", s(hook))]), 0)
}

fn error_frame(rid: &str, code: u64) -> Json {
    obj(vec![("requestId", s(rid)), ("type", n(0)), ("error", n(code))])
}

fn is_registered(b: &Broker, id: &str) -> bool {
    b.get_module_by_id(id).map(|m| m.is_registered()).unwrap_or(false)
}

fn hook_of(frame: &Json) -> Option<&str> {
    frame.get_str("hook")
}

#[test]
fn simple_call_round_trip() {
    let mut b = broker();
    let out = register(&mut b, 1, "A", "1.0.0", vec![]);
    assert_eq!(out[0].to, 1);
    assert_eq!(out[0].frame, obj(vec![("requestId", s("reg-A")), ("type", n(2))]));
    assert_eq!(out[1].to, 1);
    assert_eq!(hook_of(&out[1].frame), Some("juno.activated"));
    register(&mut b, 2, "B", "1.0.0", vec![]);
    let out = declare(&mut b, 2, "d1", "echo");
    assert_eq!(out.len(), 1);
    assert_eq!(out[0].frame, obj(vec![("requestId", s("d1")), ("type", n(10)), ("function", s("echo"))]));

    let call = obj(vec![
        ("type", n(3)),
        ("requestId", s("r1")),
        ("function", s("B.echo")),
        ("arguments", obj(vec![("x", n(1))])),
    ]);
    let out = b.handle_request(1, call, 0);
    assert_eq!(out.len(), 1);
    assert_eq!(out[0].to, 2);
    let expected = obj(vec![
        ("type", n(3)),
        ("requestId", s("r1")),
        ("function", s("echo")),
        ("arguments", obj(vec![("x", n(1))])),
        ("caller", s("A")),
    ]);
    assert_eq!(out[0].frame, expected);
    assert_eq!(b.get_request_origin("r1"), Some("A"));

    let response = obj(vec![("type", n(4)), ("requestId", s("r1")), ("data", obj(vec![("y", n(2))]))]);
    let out = b.handle_request(2, response, 0);
    assert_eq!(out.len(), 1);
    assert_eq!(out[0].to, 1);
    assert_eq!(out[0].frame, obj(vec![("type", n(4)), ("requestId", s("r1")), ("data", obj(vec![("y", n(2))]))]));
    assert_eq!(b.pending_request_count(), 0);
    assert_eq!(b.get_request_origin("r1"), None);
}

#[test]
fn dependency_deferral() {
    let mut b = broker();
    let out = register(&mut b, 1, "X", "1.0.0", vec![("Y", "^1.0.0")]);
    assert_eq!(out.len(), 1);
    assert_eq!(out[0].frame, obj(vec![("requestId", s("reg-X")), ("type", n(2))]));
    assert!(!is_registered(&b, "X"));

    let out = register(&mut b, 2, "Y", "1.2.3", vec![]);
    assert!(is_registered(&b, "Y"));
    assert!(is_registered(&b, "X"));
    let to_x: Vec<&Outbound> = out.iter().filter(|o| o.to == 1).collect();
    assert_eq!(to_x.len(), 1);
    assert_eq!(to_x[0].frame.get_u64("type"), Some(8));
    assert_eq!(hook_of(&to_x[0].frame), Some("juno.activated"));
}

#[test]
fn dependency_deferral_announces_activation() {
    let mut b = broker();
    register(&mut b, 9, "L", "1.0.0", vec![]);
    listen(&mut b, 9, "h", "juno.moduleActivated");
    register(&mut b, 1, "X", "1.0.0", vec![("Y", "^1.0.0")]);
    let out = register(&mut b, 2, "Y", "1.2.3", vec![]);
    let announced: Vec<&Json> = out
        .iter()
        .filter(|o| o.to == 9 && hook_of(&o.frame) == Some("juno.moduleActivated"))
        .filter_map(|o| o.frame.get("data"))
        .collect();
    assert_eq!(announced.len(), 2);
    assert!(announced.contains(&&obj(vec![("moduleId", s("X"))])));
    assert!(announced.contains(&&obj(vec![("moduleId", s("Y"))])));
}

#[test]
fn version_mismatch() {
    let mut b = broker();
    register(&mut b, 1, "X", "1.0.0", vec![("Y", "^1.0.0")]);
    let out = register(&mut b, 2, "Y", "0.9.0", vec![]);
    assert!(is_registered(&b, "Y"));
    assert!(!is_registered(&b, "X"));
    assert!(out.iter().all(|o| o.to != 1));
    assert!(out.iter().all(|o| o.frame.get("data") != Some(&obj(vec![("moduleId", s("X"))]))));

    b.on_module_disconnected(2, 0);
    assert!(b.get_module_by_id("Y").is_none());
    let out = register(&mut b, 3, "Y", "1.2.3", vec![]);
    assert!(is_registered(&b, "X"));
    let to_x: Vec<&Outbound> = out.iter().filter(|o| o.to == 1).collect();
    assert_eq!(to_x.len(), 1);
    assert_eq!(hook_of(&to_x[0].frame), Some("juno.activated"));
}

#[test]
fn demotion_on_disconnect() {
    let mut b = broker();
    register(&mut b, 9, "L", "1.0.0", vec![]);
    listen(&mut b, 9, "h", "juno.moduleDeactivated");
    register(&mut b, 1, "A", "1.0.0", vec![]);
    register(&mut b, 2, "B", "1.0.0", vec![("A", "^1")]);
    assert!(is_registered(&b, "A"));
    assert!(is_registered(&b, "B"));
    let out = b.on_module_disconnected(1, 0);
    assert!(!is_registered(&b, "B"));
    let to_b: Vec<&Outbound> = out.iter().filter(|o| o.to == 2).collect();
    assert_eq!(to_b.len(), 1);
    assert_eq!(hook_of(&to_b[0].frame), Some("juno.deactivated"));
    let announced: Vec<&Outbound> = out
        .iter()
        .filter(|o| o.to == 9 && hook_of(&o.frame) == Some("juno.moduleDeactivated"))
        .collect();
    assert_eq!(announced.len(), 1);
    assert_eq!(announced[0].frame.get("data"), Some(&obj(vec![("moduleId", s("B"))])));
}

#[test]
fn disconnect_announces_connection_id() {
    let mut b = broker();
    register(&mut b, 9, "L", "1.0.0", vec![]);
    listen(&mut b, 9, "h", "juno.moduleDisconnected");
    register(&mut b, 1234, "A", "1.0.0", vec![]);
    let out = b.on_module_disconnected(1234, 0);
    assert_eq!(out.len(), 1);
    assert_eq!(out[0].to, 9);
    assert_eq!(out[0].frame.get("data"), Some(&obj(vec![("connectionId", s("1234"))])));
    assert_eq!(b.on_module_disconnected(77, 0).len(), 0);
}

#[test]
fn hook_fan_out() {
    let mut b = broker();
    register(&mut b, 1, "S", "1.0.0", vec![]);
    register(&mut b, 2, "L1", "1.0.0", vec![]);
    register(&mut b, 3, "L2", "1.0.0", vec![]);
    register(&mut b, 4, "Q", "1.0.0", vec![]);
    assert_eq!(listen(&mut b, 2, "h1", "S.evt")[0].frame, obj(vec![("requestId", s("h1")), ("type", n(6))]));
    listen(&mut b, 3, "h2", "S.evt");
    listen(&mut b, 4, "h3", "evt");
    let trigger = obj(vec![("type", n(7)), ("requestId", s("t1")), ("hook", s("evt")), ("data", obj(vec![("n", n(7))]))]);
    let out = b.handle_request(1, trigger, 1000);
    assert_eq!(out.len(), 3);
    for (o, to) in out.iter().take(2).zip([2u128, 3u128]) {
        assert_eq!(o.to, to);
        assert_eq!(o.frame.get_u64("type"), Some(8));
        assert_eq!(hook_of(&o.frame), Some("S.evt"));
        assert_eq!(o.frame.get("data"), Some(&obj(vec![("n", n(7))])));
        assert!(o.frame.get_str("requestId").unwrap().starts_with("juno"));
    }
    assert_ne!(out[0].frame.get_str("requestId"), out[1].frame.get_str("requestId"));
    assert_eq!(out[2].to, 1);
    assert_eq!(out[2].frame, obj(vec![("requestId", s("t1")), ("type", n(8))]));
}

#[test]
fn hijack_prevention() {
    let mut b = broker();
    register(&mut b, 1, "A", "1.0.0", vec![]);
    register(&mut b, 2, "B", "1.0.0", vec![]);
    register(&mut b, 3, "C", "1.0.0", vec![]);
    declare(&mut b, 2, "d", "f");
    let call = |rid: &str| obj(vec![("type", n(3)), ("requestId", s(rid)), ("function", s("B.f"))]);
    let out = b.handle_request(1, call("dup"), 0);
    assert_eq!(out[0].to, 2);
    assert_eq!(out[0].frame.get("arguments"), Some(&Json::empty_object()));
    let out = b.handle_request(3, call("dup"), 0);
    assert_eq!(out.len(), 1);
    assert_eq!(out[0].to, 3);
    assert_eq!(out[0].frame, error_frame("dup", 1));
    assert_eq!(b.get_request_origin("dup"), Some("A"));
    let out = b.handle_request(1, call("dup"), 0);
    assert_eq!(out[0].to, 2);
    assert_eq!(b.pending_request_count(), 1);
}

#[test]
fn duplicate_module_id_on_another_connection() {
    let mut b = broker();
    register(&mut b, 1, "A", "1.0.0", vec![]);
    let out = register(&mut b, 2, "A", "2.0.0", vec![]);
    assert_eq!(out.len(), 1);
    assert_eq!(out[0].to, 2);
    assert_eq!(out[0].frame, error_frame("reg-A", 7));
    let a = b.get_module_by_id("A").unwrap();
    assert_eq!(a.get_module_uuid(), 1);
    assert_eq!(a.get_version().as_str(), "1.0.0");
}

#[test]
fn second_registration_on_bound_connection() {
    let mut b = broker();
    register(&mut b, 1, "A", "1.0.0", vec![]);
    let out = register(&mut b, 1, "B", "1.0.0", vec![]);
    assert_eq!(out[0].frame, error_frame("reg-B", 7));
    assert!(b.get_module_by_id("B").is_none());
}

#[test]
fn response_without_origin_is_malformed() {
    let mut b = broker();
    register(&mut b, 1, "A", "1.0.0", vec![]);
    let out = b.handle_request(1, obj(vec![("type", n(4)), ("requestId", s("nope")), ("data", Json::empty_object())]), 0);
    assert_eq!(out.len(), 1);
    assert_eq!(out[0].to, 1);
    assert_eq!(out[0].frame, error_frame("nope", 0));
}

#[test]
fn unregistered_module_is_refused() {
    let mut b = broker();
    let out = declare(&mut b, 5, "d", "f");
    assert_eq!(out[0].frame, error_frame("d", 3));
    register(&mut b, 6, "W", "1.0.0", vec![("Missing", "^1")]);
    assert_eq!(declare(&mut b, 6, "d2", "f")[0].frame, error_frame("d2", 3));
    assert_eq!(listen(&mut b, 6, "h", "x.y")[0].frame, error_frame("h", 3));
    let call = obj(vec![("type", n(3)), ("requestId", s("c")), ("function", s("juno.listModules"))]);
    assert_eq!(b.handle_request(6, call, 0)[0].frame, error_frame("c", 3));
    let trigger = obj(vec![("type", n(7)), ("requestId", s("t")), ("hook", s("e"))]);
    assert_eq!(b.handle_request(6, trigger, 0)[0].frame, error_frame("t", 3));
    let response = obj(vec![("type", n(4)), ("requestId", s("r"))]);
    assert_eq!(b.handle_request(6, response, 0)[0].frame, error_frame("r", 3));
}

#[test]
fn declaring_twice_is_idempotent() {
    let mut b = broker();
    register(&mut b, 1, "A", "1.0.0", vec![]);
    let first = declare(&mut b, 1, "d1", "f");
    let second = declare(&mut b, 1, "d2", "f");
    assert_eq!(first[0].frame, obj(vec![("requestId", s("d1")), ("type", n(10)), ("function", s("f"))]));
    assert_eq!(second[0].frame, obj(vec![("requestId", s("d2")), ("type", n(10)), ("function", s("f"))]));
    let info = b.get_module_by_id("A").unwrap().summary();
    assert_eq!(info.get("declaredFunctions"), Some(&Json::Array(juno_broker::json::Items::Cons(
        Box::new(s("f")),
        Box::new(juno_broker::json::Items::Nil),
    ))));
}

#[test]
fn registering_a_hook_twice_is_idempotent() {
    let mut b = broker();
    register(&mut b, 1, "A", "1.0.0", vec![]);
    assert_eq!(listen(&mut b, 1, "h1", "B.e")[0].frame, obj(vec![("requestId", s("h1")), ("type", n(6))]));
    assert_eq!(listen(&mut b, 1, "h2", "B.e")[0].frame, obj(vec![("requestId", s("h2")), ("type", n(6))]));
    assert!(b.get_module_by_id("A").unwrap().is_hook_registered("B.e"));
    let info = b.get_module_by_id("A").unwrap().summary();
    assert_eq!(info.get("registeredHooks"), Some(&Json::Array(juno_broker::json::Items::Cons(
        Box::new(s("B.e")),
        Box::new(juno_broker::json::Items::Nil),
    ))));
}

#[test]
fn frames_without_type_or_request_id() {
    let mut b = broker();
    let out = b.handle_request(1, obj(vec![("requestId", s("x"))]), 0);
    assert_eq!(out[0].frame, error_frame("undefined", 2));
    let out = b.handle_request(1, obj(vec![("type", n(1))]), 0);
    assert_eq!(out[0].frame, error_frame("undefined", 1));
    let out = b.handle_request(1, obj(vec![("type", n(2)), ("requestId", s("x"))]), 0);
    assert_eq!(out[0].frame, error_frame("x", 2));
    let out = b.handle_request(1, obj(vec![("type", s("1")), ("requestId", s("x"))]), 0);
    assert_eq!(out[0].frame, error_frame("undefined", 2));
    let negative = Json::Number(juno_broker::json::JsonNumber::NegInt(-1));
    let out = b.handle_request(1, obj(vec![("type", negative), ("requestId", s("neg"))]), 0);
    assert_eq!(out.len(), 1);
    assert_eq!(out[0].frame, error_frame("neg", 2));
    let out = b.handle_request(1, obj(vec![("type", n(11)), ("requestId", s("eleven"))]), 0);
    assert_eq!(out[0].frame, error_frame("eleven", 2));
}

#[test]
fn malformed_registrations() {
    let mut b = broker();
    let no_version = obj(vec![("type", n(1)), ("requestId", s("m")), ("moduleId", s("A"))]);
    assert_eq!(b.handle_request(1, no_version, 0)[0].frame, error_frame("m", 0));
    assert_eq!(register(&mut b, 1, "A", "1.0", vec![])[0].frame, error_frame("reg-A", 0));
    assert_eq!(register(&mut b, 1, "A", "1.0.0", vec![("B", "not a req")])[0].frame, error_frame("reg-A", 0));
    let bad_dep = obj(vec![
        ("type", n(1)),
        ("requestId", s("m")),
        ("moduleId", s("A")),
        ("version", s("1.0.0")),
        ("dependencies", obj(vec![("B", n(1))])),
    ]);
    assert_eq!(b.handle_request(1, bad_dep, 0)[0].frame, error_frame("m", 0));
    assert!(b.get_module_by_id("A").is_none());
}

#[test]
fn call_errors() {
    let mut b = broker();
    register(&mut b, 1, "A", "1.0.0", vec![]);
    register(&mut b, 2, "B", "1.0.0", vec![]);
    register(&mut b, 3, "U", "1.0.0", vec![("Missing", "^1")]);
    declare(&mut b, 2, "d", "f");
    let call = |rid: &str, f: Json| obj(vec![("type", n(3)), ("requestId", s(rid)), ("function", f)]);
    assert_eq!(b.handle_request(1, call("a", n(3)), 0)[0].frame, error_frame("a", 0));
    assert_eq!(b.handle_request(1, call("b", s("Bf")), 0)[0].frame, error_frame("b", 5));
    assert_eq!(b.handle_request(1, call("c", s("B.f.g")), 0)[0].frame, error_frame("c", 5));
    assert_eq!(b.handle_request(1, call("d", s("Z.f")), 0)[0].frame, error_frame("d", 4));
    assert_eq!(b.handle_request(1, call("e", s("U.f")), 0)[0].frame, error_frame("e", 4));
    assert_eq!(b.handle_request(1, call("g", s("B.h")), 0)[0].frame, error_frame("g", 5));
    assert_eq!(b.pending_request_count(), 0);
}

#[test]
fn broker_introspection() {
    let mut b = broker();
    register(&mut b, 1, "A", "1.0.0", vec![]);
    register(&mut b, 2, "W", "2.0.0", vec![("Missing", "^1")]);
    let call = obj(vec![("type", n(3)), ("requestId", s("l")), ("function", s("juno.listModules"))]);
    let out = b.handle_request(1, call, 0);
    assert_eq!(out.len(), 1);
    assert_eq!(out[0].to, 1);
    assert_eq!(out[0].frame.get_u64("type"), Some(4));
    assert_eq!(out[0].frame.get_str("requestId"), Some("l"));
    let mut ids = vec![];
    let mut items = match out[0].frame.get("data") {
        Some(Json::Array(items)) => items,
        _ => panic!("listModules answers with an array"),
    };
    while let juno_broker::json::Items::Cons(head, tail) = items {
        ids.push(head.get_str("moduleId").unwrap().to_string());
        items = tail;
    }
    assert_eq!(ids, vec!["juno", "A", "W"]);
    assert_eq!(b.pending_request_count(), 0);

    let info = obj(vec![
        ("type", n(3)),
        ("requestId", s("i")),
        ("function", s("juno.getModuleInfo")),
        ("arguments", obj(vec![("moduleId", s("W"))])),
    ]);
    let out = b.handle_request(1, info, 0);
    let data = out[0].frame.get("data").unwrap();
    assert_eq!(data.get_str("moduleId"), Some("W"));
    assert_eq!(data.get_str("version"), Some("2.0.0"));
    assert_eq!(data.get("registered"), Some(&Json::Bool(false)));
    assert_eq!(data.get("dependencies"), Some(&obj(vec![("Missing", s("^1"))])));

    let unknown = obj(vec![
        ("type", n(3)),
        ("requestId", s("j")),
        ("function", s("juno.getModuleInfo")),
        ("arguments", obj(vec![("moduleId", s("Nobody"))])),
    ]);
    assert_eq!(b.handle_request(1, unknown, 0)[0].frame.get("data"), Some(&Json::Null));
}

#[test]
fn connection_ids_are_fresh() {
    let mut b = broker();
    register(&mut b, 1, "A", "1.0.0", vec![]);
    for _ in 0..20 {
        let id = b.new_connection_id();
        assert_ne!(id, 0);
        assert_ne!(id, 1);
    }
}

#[test]
fn pools_are_listed_by_flag() {
    let mut b = broker();
    register(&mut b, 1, "A", "1.0.0", vec![]);
    register(&mut b, 2, "W", "1.0.0", vec![("A", "^2")]);
    let registered: Vec<String> = b.get_registered_modules().iter().map(|m| m.get_module_id().clone()).collect();
    let unregistered: Vec<String> = b.get_unregistered_modules().iter().map(|m| m.get_module_id().clone()).collect();
    assert_eq!(registered, vec!["juno".to_string(), "A".to_string()]);
    assert_eq!(unregistered, vec!["W".to_string()]);
}

#[test]
fn chained_dependencies_settle_one_step_at_a_time() {
    let mut b = broker();
    register(&mut b, 1, "X", "1.0.0", vec![("Y", "^1")]);
    register(&mut b, 2, "Y", "1.0.0", vec![("Z", "^1")]);
    register(&mut b, 3, "Z", "1.0.0", vec![]);
    assert!(is_registered(&b, "Y"));
    assert!(!is_registered(&b, "X"));
}

#[test]
fn mutually_dependent_modules_stay_unregistered() {
    let mut b = broker();
    let out_a = register(&mut b, 1, "A", "1.0.0", vec![("B", "*")]);
    let out_b = register(&mut b, 2, "B", "1.0.0", vec![("A", "*")]);
    assert!(!is_registered(&b, "A"));
    assert!(!is_registered(&b, "B"));
    assert_eq!(out_a.len(), 1);
    assert_eq!(out_b.len(), 1);
}

#[test]
fn registration_announces_activation() {
    let mut b = broker();
    register(&mut b, 9, "L", "1.0.0", vec![]);
    listen(&mut b, 9, "h", "juno.moduleActivated");
    register(&mut b, 8, "Q", "1.0.0", vec![]);
    let out = register(&mut b, 1, "A", "1.0.0", vec![]);
    assert_eq!(out.len(), 3);
    assert_eq!(out[2].to, 9);
    assert_eq!(hook_of(&out[2].frame), Some("juno.moduleActivated"));
    assert_eq!(out[2].frame.get("data"), Some(&obj(vec![("moduleId", s("A"))])));
}
