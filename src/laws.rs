//! Laws of the broker that relate states and requests, proved from the
//! contracts of its operations.
use vstd::prelude::*;
use crate::broker::{
    bound, broker_functions, conn_index, has_origin, is_tracked, origin_index, origin_of, wf, BrokerView,
};
use crate::requests::{
    call_forwarded, call_post, caller_id, conn_registered, declare_post, new_module,
    register_hook_post, registration_post, response_post, str_field,
};
use crate::registry::{ids_unique, lemma_same_but_flags, lemma_settle_same_but_flags};
use crate::json::JsonView;
use crate::protocol::{declare_reply_frame, reply_frame, REGISTER_HOOK_RESPONSE};

verus! {

/// In every well-formed state module ids are unique across both pools,
/// connection ids are unique, connection 0 belongs to the broker's
/// pseudo-module and to nothing else, and that module is registered, has no
/// dependencies and declares `listModules` and `getModuleInfo`.
pub proof fn lemma_identities(b: BrokerView)
    requires
        wf(b),
    ensures
        forall|i: int, j: int|
            0 <= i < b.modules.len() && 0 <= j < b.modules.len() && i != j ==> #[trigger] b.modules[i].id
                != #[trigger] b.modules[j].id,
        forall|i: int, j: int|
            0 <= i < b.modules.len() && 0 <= j < b.modules.len() && i != j ==> #[trigger] b.modules[i].uuid
                != #[trigger] b.modules[j].uuid,
        forall|i: int| 0 <= i < b.modules.len() ==> (#[trigger] b.modules[i].uuid == 0 <==> i == 0),
        b.modules[0].id == b.name,
        b.modules[0].registered,
        b.modules[0].deps.len() == 0,
        b.modules[0].functions.contains("listModules"@),
        b.modules[0].functions.contains("getModuleInfo"@),
{
    assert(broker_functions()[0] == "listModules"@);
    assert(broker_functions()[1] == "getModuleInfo"@);
}

/// The module on a connection keeps its place when only its declared
/// functions or hooks change.
proof fn lemma_same_caller(a: BrokerView, b: BrokerView, conn: u128)
    requires
        wf(a),
        conn_registered(a, conn),
        b.modules.len() == a.modules.len(),
        forall|i: int|
            0 <= i < a.modules.len() ==> (#[trigger] b.modules[i]).uuid == a.modules[i].uuid
                && b.modules[i].registered == a.modules[i].registered && b.modules[i].id == a.modules[i].id,
    ensures
        conn_registered(b, conn),
        conn_index(b, conn) == conn_index(a, conn),
        caller_id(b, conn) == caller_id(a, conn),
{
    let c = conn_index(a, conn);
    assert(b.modules[c].uuid == conn);
    assert(bound(b, conn));
    let d = conn_index(b, conn);
    assert(b.modules[d].uuid == conn);
    assert(a.modules[d].uuid == conn);
}

/// Declaring the same function twice: the second declaration changes nothing,
/// and both are answered with a success frame.
pub proof fn lemma_declare_twice(
    a: BrokerView,
    b: BrokerView,
    c: BrokerView,
    conn: u128,
    rid1: Seq<char>,
    rid2: Seq<char>,
    req: JsonView,
    out1: Seq<(u128, JsonView)>,
    out2: Seq<(u128, JsonView)>,
)
    requires
        wf(a),
        conn_registered(a, conn),
        str_field(req, "function"@) is Some,
        declare_post(a, b, conn, rid1, req, out1),
        declare_post(b, c, conn, rid2, req, out2),
    ensures
        c.modules == b.modules,
        b.modules[conn_index(a, conn)].functions.contains(str_field(req, "function"@)->Some_0),
        out1 == seq![(conn, declare_reply_frame(rid1, str_field(req, "function"@)->Some_0))],
        out2 == seq![(conn, declare_reply_frame(rid2, str_field(req, "function"@)->Some_0))],
{
    let f = str_field(req, "function"@)->Some_0;
    let k = conn_index(a, conn);
    lemma_same_caller(a, b, conn);
    if !a.modules[k].functions.contains(f) {
        assert(b.modules[k].functions == a.modules[k].functions.push(f));
        assert(b.modules[k].functions[a.modules[k].functions.len() as int] == f);
    }
    assert(b.modules[k].functions.contains(f));
    assert(c.modules =~= b.modules);
}

/// Registering the same hook twice: the second registration changes
/// nothing, and both are answered with a success frame.
pub proof fn lemma_register_hook_twice(
    a: BrokerView,
    b: BrokerView,
    c: BrokerView,
    conn: u128,
    rid1: Seq<char>,
    rid2: Seq<char>,
    req: JsonView,
    out1: Seq<(u128, JsonView)>,
    out2: Seq<(u128, JsonView)>,
)
    requires
        wf(a),
        conn_registered(a, conn),
        str_field(req, "hook"@) is Some,
        register_hook_post(a, b, conn, rid1, req, out1),
        register_hook_post(b, c, conn, rid2, req, out2),
    ensures
        c.modules == b.modules,
        b.modules[conn_index(a, conn)].hooks.contains(str_field(req, "hook"@)->Some_0),
        out1 == seq![(conn, reply_frame(rid1, REGISTER_HOOK_RESPONSE))],
        out2 == seq![(conn, reply_frame(rid2, REGISTER_HOOK_RESPONSE))],
{
    let h = str_field(req, "hook"@)->Some_0;
    let k = conn_index(a, conn);
    lemma_same_caller(a, b, conn);
    if !a.modules[k].hooks.contains(h) {
        assert(b.modules[k].hooks == a.modules[k].hooks.push(h));
        assert(b.modules[k].hooks[a.modules[k].hooks.len() as int] == h);
    }
    assert(b.modules[k].hooks.contains(h));
    assert(c.modules =~= b.modules);
}

/// A call that the broker forwards leaves the ledger holding its request id
/// bound to the caller.
pub proof fn lemma_call_records_origin(
    a: BrokerView,
    b: BrokerView,
    conn: u128,
    rid: Seq<char>,
    req: JsonView,
    out: Seq<(u128, JsonView)>,
)
    requires
        wf(a),
        wf(b),
        call_forwarded(a, conn, rid, req),
        call_post(a, b, conn, rid, req, out),
    ensures
        origin_of(b, rid) == Some(caller_id(a, conn)),
{
    if has_origin(a, rid) {
        let k = origin_index(a, rid);
        assert(b.origins[k].0 == rid);
        let kb = origin_index(b, rid);
        assert(b.origins[kb].0 == rid);
    } else {
        let n = a.origins.len() as int;
        assert(b.origins[n] == (rid, caller_id(a, conn)));
        assert(has_origin(b, rid));
        let kb = origin_index(b, rid);
        assert(b.origins[kb].0 == rid);
        assert(kb == n);
    }
}

/// A response settles its call: afterwards the ledger no longer holds its
/// request id.
pub proof fn lemma_response_settles(
    a: BrokerView,
    b: BrokerView,
    conn: u128,
    rid: Seq<char>,
    req: JsonView,
    out: Seq<(u128, JsonView)>,
)
    requires
        wf(a),
        conn_registered(a, conn),
        has_origin(a, rid),
        response_post(a, b, conn, rid, req, out),
    ensures
        !has_origin(b, rid),
        b.origins == a.origins.remove(origin_index(a, rid)),
{
    let k = origin_index(a, rid);
    assert(a.origins[k].0 == rid);
    if has_origin(b, rid) {
        let j = origin_index(b, rid);
        assert(b.origins[j].0 == rid);
        let jj = if j < k { j } else { j + 1 };
        assert(b.origins[j] == a.origins[jj]);
    }
}

/// A registration keeps module ids unique across both pools, and a module it
/// starts tracking has an id that neither pool held before.
pub proof fn lemma_registration_fresh_id(
    a: BrokerView,
    b: BrokerView,
    conn: u128,
    rid: Seq<char>,
    req: JsonView,
    out: Seq<(u128, JsonView)>,
)
    requires
        wf(a),
        wf(b),
        registration_post(a, b, conn, rid, req, out),
    ensures
        ids_unique(b.modules),
        forall|i: int|
            0 <= i < b.modules.len() ==> is_tracked(a, #[trigger] b.modules[i].id) || (b.modules[i].id
                == str_field(req, "moduleId"@)->Some_0 && !is_tracked(a, b.modules[i].id)),
{
    if b.modules != a.modules {
        let m = a.modules.push(new_module(conn, req));
        lemma_settle_same_but_flags(m);
        lemma_same_but_flags(m, b.modules);
        assert forall|i: int| 0 <= i < b.modules.len() implies is_tracked(a, #[trigger] b.modules[i].id) || (
        b.modules[i].id == str_field(req, "moduleId"@)->Some_0 && !is_tracked(a, b.modules[i].id)) by {
            assert(b.modules[i].id == m[i].id);
            if i < a.modules.len() {
                assert(m[i] == a.modules[i]);
            }
        }
    } else {
        assert forall|i: int| 0 <= i < b.modules.len() implies is_tracked(a, #[trigger] b.modules[i].id) by {
            assert(a.modules[i].id == b.modules[i].id);
        }
    }
}

} // verus!
