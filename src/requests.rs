//! What each request does, stated over the broker's view: the errors it
//! answers with and when, how the pools and the ledger change, and the frames
//! it writes.
use vstd::prelude::*;
use crate::broker::{
    bound, conn_index, delivered, id_index, in_registered_pool, is_tracked, has_origin,
    origin_index, origin_of, qualified, empty_object, engine_output, module_id_data, BrokerView,
};
use crate::json::{field, put, JsonView};
use crate::module::{summary, ModuleView};
use crate::protocol::{
    call_reply_frame, declare_reply_frame, error_frame, reply_frame, splits_at,
    target_function, target_module, DECLARE_FUNCTION_REQUEST, DUPLICATE_MODULE,
    FUNCTION_CALL_REQUEST, FUNCTION_CALL_RESPONSE, INVALID_REQUEST_ID, MALFORMED_REQUEST,
    REGISTER_HOOK_REQUEST, REGISTER_HOOK_RESPONSE, REGISTER_MODULE_REQUEST,
    REGISTER_MODULE_RESPONSE, TRIGGER_HOOK_REQUEST, TRIGGER_HOOK_RESPONSE, UNKNOWN_FUNCTION,
    UNKNOWN_MODULE, UNKNOWN_REQUEST, UNREGISTERED_MODULE,
};
use crate::registry::{listeners, settle};
use crate::version::{is_semver_requirement, is_semver_version};

verus! {

/// The string member `key` of `j`.
pub open spec fn str_field(j: JsonView, key: Seq<char>) -> Option<Seq<char>> {
    match field(j, key) {
        Some(JsonView::Str(s)) => Some(s),
        _ => None,
    }
}

/// The registry (name, pools and ledger) is the same in `a` and `b`.
pub open spec fn same_registry(a: BrokerView, b: BrokerView) -> bool {
    a.name == b.name && a.modules == b.modules && a.origins == b.origins
}

/// Nothing changed but the error `code` was sent back on `conn`.
pub open spec fn error_only(
    a: BrokerView,
    b: BrokerView,
    out: Seq<(u128, JsonView)>,
    conn: u128,
    rid: Seq<char>,
    code: u64,
) -> bool {
    same_registry(a, b) && out == seq![(conn, error_frame(rid, code))]
}

/// The connection `conn` is bound to a module of the registered pool (the
/// broker's own connection 0 carries no requests).
pub open spec fn conn_registered(b: BrokerView, conn: u128) -> bool {
    conn != 0 && bound(b, conn) && b.modules[conn_index(b, conn)].registered
}

/// The id of the module on connection `conn`.
pub open spec fn caller_id(b: BrokerView, conn: u128) -> Seq<char> {
    b.modules[conn_index(b, conn)].id
}

/// The members of the `dependencies` object of a registration (none when it
/// is absent or not an object).
pub open spec fn deps_object(req: JsonView) -> Seq<(Seq<char>, JsonView)> {
    match field(req, "dependencies"@) {
        Some(JsonView::Object(fs)) => fs,
        _ => Seq::empty(),
    }
}

/// Every dependency value is a string holding a version requirement.
pub open spec fn deps_well_formed(fs: Seq<(Seq<char>, JsonView)>) -> bool {
    forall|k: int| 0 <= k < fs.len() ==> (#[trigger] fs[k]).1 is Str && is_semver_requirement(fs[k].1->Str_0)
}

pub open spec fn has_key(deps: Seq<(Seq<char>, Seq<char>)>, key: Seq<char>) -> bool {
    exists|i: int| 0 <= i < deps.len() && deps[i].0 == key
}

/// The dependencies a registration asks for, in order, the first entry of a
/// module id winning.
pub open spec fn dep_list(fs: Seq<(Seq<char>, JsonView)>) -> Seq<(Seq<char>, Seq<char>)>
    decreases fs.len(),
{
    if fs.len() == 0 {
        Seq::empty()
    } else {
        let rest = dep_list(fs.drop_last());
        if has_key(rest, fs.last().0) {
            rest
        } else {
            rest.push((fs.last().0, fs.last().1->Str_0))
        }
    }
}

/// The module a well-formed registration on `conn` creates.
pub open spec fn new_module(conn: u128, req: JsonView) -> ModuleView {
    let deps = dep_list(deps_object(req));
    ModuleView {
        registered: deps.len() == 0,
        uuid: conn,
        id: str_field(req, "moduleId"@)->Some_0,
        version: str_field(req, "version"@)->Some_0,
        deps,
        functions: Seq::empty(),
        hooks: Seq::empty(),
    }
}

/// A registration is malformed: `moduleId` or `version` is missing or not a
/// string, a dependency is not a requirement, or `version` is not a version.
pub open spec fn registration_malformed(req: JsonView) -> bool {
    str_field(req, "moduleId"@) is None || str_field(req, "version"@) is None || !deps_well_formed(
        deps_object(req),
    ) || !is_semver_version(str_field(req, "version"@)->Some_0)
}

/// What a registration request does.
pub open spec fn registration_post(
    a: BrokerView,
    b: BrokerView,
    conn: u128,
    rid: Seq<char>,
    req: JsonView,
    out: Seq<(u128, JsonView)>,
) -> bool {
    if registration_malformed(req) {
        error_only(a, b, out, conn, rid, MALFORMED_REQUEST)
    } else if is_tracked(a, str_field(req, "moduleId"@)->Some_0) || bound(a, conn) {
        error_only(a, b, out, conn, rid, DUPLICATE_MODULE)
    } else {
        &&& b.name == a.name
        &&& b.origins == a.origins
        &&& b.modules == settle(a.modules.push(new_module(conn, req)))
        &&& registration_output(out, a.modules.push(new_module(conn, req)), a.name, conn, rid)
    }
}

/// The frames of a registration that tracks `mods.last()` on `conn`: the
/// reply; for a module without dependencies, `activated` to it and the
/// `moduleActivated` announcement to the subscribers; then the dependency
/// engine's frames.
pub open spec fn registration_output(
    out: Seq<(u128, JsonView)>,
    mods: Seq<ModuleView>,
    name: Seq<char>,
    conn: u128,
    rid: Seq<char>,
) -> bool {
    let reply = seq![(conn, reply_frame(rid, REGISTER_MODULE_RESPONSE))];
    if mods.last().deps.len() == 0 {
        exists|s1: Seq<(u128, JsonView)>, s2: Seq<(u128, JsonView)>|
            #![trigger delivered(s1, reply, seq![conn], qualified(name, "activated"@), empty_object()), engine_output(s2, out, mods, name)]
            delivered(s1, reply, seq![conn], qualified(name, "activated"@), empty_object()) && delivered(
                s2,
                s1,
                listeners(mods, qualified(name, "moduleActivated"@), false),
                qualified(name, "moduleActivated"@),
                module_id_data(mods.last().id),
            ) && engine_output(s2, out, mods, name)
    } else {
        engine_output(reply, out, mods, name)
    }
}

/// `mods` with the module at `c` having `name` added to its declared
/// functions, unless it is there already.
pub open spec fn with_function(mods: Seq<ModuleView>, c: int, name: Seq<char>) -> Seq<ModuleView> {
    let m = mods[c];
    mods.update(
        c,
        ModuleView { functions: if m.functions.contains(name) { m.functions } else { m.functions.push(name) }, ..m },
    )
}

/// `mods` with the module at `c` listening for `hook`, once.
pub open spec fn with_hook(mods: Seq<ModuleView>, c: int, hook: Seq<char>) -> Seq<ModuleView> {
    let m = mods[c];
    mods.update(c, ModuleView { hooks: if m.hooks.contains(hook) { m.hooks } else { m.hooks.push(hook) }, ..m })
}

/// What a declare-function request does.
pub open spec fn declare_post(
    a: BrokerView,
    b: BrokerView,
    conn: u128,
    rid: Seq<char>,
    req: JsonView,
    out: Seq<(u128, JsonView)>,
) -> bool {
    if !conn_registered(a, conn) {
        error_only(a, b, out, conn, rid, UNREGISTERED_MODULE)
    } else if str_field(req, "function"@) is None {
        error_only(a, b, out, conn, rid, MALFORMED_REQUEST)
    } else {
        let f = str_field(req, "function"@)->Some_0;
        &&& b.name == a.name
        &&& b.origins == a.origins
        &&& b.modules == with_function(a.modules, conn_index(a, conn), f)
        &&& out == seq![(conn, declare_reply_frame(rid, f))]
    }
}

/// What a register-hook request does.
pub open spec fn register_hook_post(
    a: BrokerView,
    b: BrokerView,
    conn: u128,
    rid: Seq<char>,
    req: JsonView,
    out: Seq<(u128, JsonView)>,
) -> bool {
    if !conn_registered(a, conn) {
        error_only(a, b, out, conn, rid, UNREGISTERED_MODULE)
    } else if str_field(req, "hook"@) is None {
        error_only(a, b, out, conn, rid, MALFORMED_REQUEST)
    } else {
        &&& b.name == a.name
        &&& b.origins == a.origins
        &&& b.modules == with_hook(a.modules, conn_index(a, conn), str_field(req, "hook"@)->Some_0)
        &&& out == seq![(conn, reply_frame(rid, REGISTER_HOOK_RESPONSE))]
    }
}

/// The data of a hook trigger: its `data` member when that is an object,
/// else the empty object.
pub open spec fn hook_data(req: JsonView) -> JsonView {
    match field(req, "data"@) {
        Some(JsonView::Object(fs)) => JsonView::Object(fs),
        _ => JsonView::Object(Seq::empty()),
    }
}

/// What a trigger-hook request does.
pub open spec fn trigger_post(
    a: BrokerView,
    b: BrokerView,
    conn: u128,
    rid: Seq<char>,
    req: JsonView,
    out: Seq<(u128, JsonView)>,
) -> bool {
    if !conn_registered(a, conn) {
        error_only(a, b, out, conn, rid, UNREGISTERED_MODULE)
    } else if str_field(req, "hook"@) is None {
        error_only(a, b, out, conn, rid, MALFORMED_REQUEST)
    } else {
        let hook = qualified(caller_id(a, conn), str_field(req, "hook"@)->Some_0);
        let to = listeners(a.modules, hook, false);
        &&& b.name == a.name
        &&& b.origins == a.origins
        &&& b.modules == a.modules
        &&& out.len() == to.len() + 1
        &&& delivered(out.drop_last(), Seq::empty(), to, hook, hook_data(req))
        &&& out.last() == (conn, reply_frame(rid, TRIGGER_HOOK_RESPONSE))
    }
}

/// The ledger without the entry for `rid`.
pub open spec fn without_origin(a: BrokerView, rid: Seq<char>) -> Seq<(Seq<char>, Seq<char>)> {
    if has_origin(a, rid) {
        a.origins.remove(origin_index(a, rid))
    } else {
        a.origins
    }
}

/// What a function-response request does: the pending call is settled and
/// the response goes, unchanged, to its caller if that is still registered.
pub open spec fn response_post(
    a: BrokerView,
    b: BrokerView,
    conn: u128,
    rid: Seq<char>,
    req: JsonView,
    out: Seq<(u128, JsonView)>,
) -> bool {
    if !conn_registered(a, conn) {
        error_only(a, b, out, conn, rid, UNREGISTERED_MODULE)
    } else if !has_origin(a, rid) {
        error_only(a, b, out, conn, rid, MALFORMED_REQUEST)
    } else {
        let origin = origin_of(a, rid)->Some_0;
        &&& b.name == a.name
        &&& b.modules == a.modules
        &&& b.origins == without_origin(a, rid)
        &&& out == if in_registered_pool(a, origin) {
            seq![(a.modules[id_index(a, origin)].uuid, req)]
        } else {
            Seq::empty()
        }
    }
}

/// The summaries of the modules of `mods` whose registered flag is `registered`.
pub open spec fn summaries_where(mods: Seq<ModuleView>, registered: bool) -> Seq<JsonView>
    decreases mods.len(),
{
    if mods.len() == 0 {
        Seq::empty()
    } else {
        let rest = summaries_where(mods.drop_first(), registered);
        if mods[0].registered == registered {
            seq![summary(mods[0])] + rest
        } else {
            rest
        }
    }
}

/// `listModules`: the summaries of the registered pool, then of the
/// unregistered pool.
pub open spec fn module_list(mods: Seq<ModuleView>) -> JsonView {
    JsonView::Array(summaries_where(mods, true) + summaries_where(mods, false))
}

/// `getModuleInfo`: the summary of the module named by the `moduleId`
/// argument, or null.
pub open spec fn module_info(a: BrokerView, args: JsonView) -> JsonView {
    match str_field(args, "moduleId"@) {
        Some(id) => if is_tracked(a, id) {
            summary(a.modules[id_index(a, id)])
        } else {
            JsonView::Null
        },
        None => JsonView::Null,
    }
}

/// The arguments of a call: its `arguments` member, or null.
pub open spec fn call_arguments(req: JsonView) -> JsonView {
    match field(req, "arguments"@) {
        Some(v) => v,
        None => JsonView::Null,
    }
}

/// A call forwarded to its target: the request with `arguments` made an
/// object, `function` reduced to the function's name and `caller` set.
pub open spec fn forward_frame(req: JsonView, function: Seq<char>, caller: Seq<char>) -> JsonView {
    let fs = match req {
        JsonView::Object(fs) => fs,
        _ => Seq::empty(),
    };
    let with_args = match field(req, "arguments"@) {
        Some(JsonView::Object(_)) => fs,
        _ => put(fs, "arguments"@, JsonView::Object(Seq::empty())),
    };
    JsonView::Object(put(put(with_args, "function"@, JsonView::Str(function)), "caller"@, JsonView::Str(caller)))
}

/// A call that passes every check and names a module other than the broker:
/// it is forwarded to its target.
pub open spec fn call_forwarded(a: BrokerView, conn: u128, rid: Seq<char>, req: JsonView) -> bool {
    let name = str_field(req, "function"@)->Some_0;
    let target = target_module(name);
    &&& conn_registered(a, conn)
    &&& str_field(req, "function"@) is Some
    &&& exists|d: int| splits_at(name, d)
    &&& in_registered_pool(a, target)
    &&& a.modules[id_index(a, target)].functions.contains(target_function(name))
    &&& !(has_origin(a, rid) && origin_of(a, rid) != Some(caller_id(a, conn)))
    &&& target != a.name
}

/// What a function-call request does.
pub open spec fn call_post(
    a: BrokerView,
    b: BrokerView,
    conn: u128,
    rid: Seq<char>,
    req: JsonView,
    out: Seq<(u128, JsonView)>,
) -> bool {
    let name = str_field(req, "function"@)->Some_0;
    let target = target_module(name);
    let function = target_function(name);
    if !conn_registered(a, conn) {
        error_only(a, b, out, conn, rid, UNREGISTERED_MODULE)
    } else if str_field(req, "function"@) is None {
        error_only(a, b, out, conn, rid, MALFORMED_REQUEST)
    } else if !(exists|d: int| splits_at(name, d)) {
        error_only(a, b, out, conn, rid, UNKNOWN_FUNCTION)
    } else if !in_registered_pool(a, target) {
        error_only(a, b, out, conn, rid, UNKNOWN_MODULE)
    } else if !a.modules[id_index(a, target)].functions.contains(function) {
        error_only(a, b, out, conn, rid, UNKNOWN_FUNCTION)
    } else if has_origin(a, rid) && origin_of(a, rid) != Some(caller_id(a, conn)) {
        error_only(a, b, out, conn, rid, INVALID_REQUEST_ID)
    } else if target == a.name {
        &&& b.name == a.name
        &&& b.modules == a.modules
        &&& b.origins == without_origin(a, rid)
        &&& out == seq![
            (
                conn,
                call_reply_frame(
                    rid,
                    if function == "listModules"@ {
                        module_list(a.modules)
                    } else {
                        module_info(a, call_arguments(req))
                    },
                ),
            ),
        ]
    } else {
        &&& b.name == a.name
        &&& b.modules == a.modules
        &&& b.origins == if has_origin(a, rid) {
            a.origins
        } else {
            a.origins.push((rid, caller_id(a, conn)))
        }
        &&& out == seq![(a.modules[id_index(a, target)].uuid, forward_frame(req, function, caller_id(a, conn)))]
    }
}

/// The `type` of a request, when it is an integer.
pub open spec fn request_type(req: JsonView) -> Option<int> {
    match field(req, "type"@) {
        Some(JsonView::PosInt(n)) => Some(n as int),
        Some(JsonView::NegInt(n)) => Some(n as int),
        _ => None,
    }
}

/// What a request does: without an integer `type`, an `UNKNOWN_REQUEST`
/// error; without a string `requestId`, an `INVALID_REQUEST_ID` error (both
/// with the request id `undefined`); else the handler of its type, or an
/// `UNKNOWN_REQUEST` error for any other type.
pub open spec fn request_post(
    a: BrokerView,
    b: BrokerView,
    conn: u128,
    req: JsonView,
    out: Seq<(u128, JsonView)>,
) -> bool {
    match request_type(req) {
        None => error_only(a, b, out, conn, "undefined"@, UNKNOWN_REQUEST),
        Some(kind) => match str_field(req, "requestId"@) {
            None => error_only(a, b, out, conn, "undefined"@, INVALID_REQUEST_ID),
            Some(rid) => if kind == REGISTER_MODULE_REQUEST as int {
                registration_post(a, b, conn, rid, req, out)
            } else if kind == DECLARE_FUNCTION_REQUEST as int {
                declare_post(a, b, conn, rid, req, out)
            } else if kind == FUNCTION_CALL_REQUEST as int {
                call_post(a, b, conn, rid, req, out)
            } else if kind == FUNCTION_CALL_RESPONSE as int {
                response_post(a, b, conn, rid, req, out)
            } else if kind == REGISTER_HOOK_REQUEST as int {
                register_hook_post(a, b, conn, rid, req, out)
            } else if kind == TRIGGER_HOOK_REQUEST as int {
                trigger_post(a, b, conn, rid, req, out)
            } else {
                error_only(a, b, out, conn, rid, UNKNOWN_REQUEST)
            },
        },
    }
}

/// Every ledger entry of `b` was in `a`, or records a call by the module on
/// `conn`, which was registered in `a`.
pub open spec fn origins_from_registered_caller(a: BrokerView, b: BrokerView, conn: u128) -> bool {
    forall|k: int|
        0 <= k < b.origins.len() ==> a.origins.contains(#[trigger] b.origins[k]) || (conn_registered(a, conn)
            && b.origins[k].1 == caller_id(a, conn))
}

/// Every module of `b` that listens for hooks listened for the same ones in
/// `a`, or is the module on `conn`, which was registered in `a`.
pub open spec fn hooks_from_registered_owner(a: BrokerView, b: BrokerView, conn: u128) -> bool {
    forall|i: int|
        0 <= i < b.modules.len() && (#[trigger] b.modules[i]).hooks.len() > 0 ==> exists|j: int|
            0 <= j < a.modules.len() && a.modules[j].id == b.modules[i].id && (a.modules[j].hooks
                == b.modules[i].hooks || (conn_registered(a, conn) && j == conn_index(a, conn)))
}

} // verus!
