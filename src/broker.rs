//! The broker: the module registry, the request-origin ledger, the
//! dependency engine, hook delivery and the request dispatcher. Every
//! operation returns the frames to write, each addressed by connection id.
use vstd::prelude::*;
use vstd::set_lib::{lemma_int_range, lemma_len_subset, lemma_map_size, set_int_range};
use vstd::string::StringExecFns;
use crate::json::{put, same_text, view_items, Fields, Items, Json, JsonNumber, JsonView};
use crate::module::{dep_views, summary, Module, ModuleView};
use crate::protocol::{
    call_reply_message, decimal, decimal_string, declare_reply_message, error_message, hook_frame,
    hook_message, is_function_name, lemma_split_unique, reply_frame, reply_message, split_point, splits_at,
    target_function, target_module, DECLARE_FUNCTION_REQUEST, DUPLICATE_MODULE,
    FUNCTION_CALL_REQUEST, FUNCTION_CALL_RESPONSE, INVALID_REQUEST_ID, MALFORMED_REQUEST,
    REGISTER_HOOK_REQUEST, REGISTER_HOOK_RESPONSE, REGISTER_MODULE_REQUEST,
    REGISTER_MODULE_RESPONSE, TRIGGER_HOOK_REQUEST, TRIGGER_HOOK_RESPONSE, UNKNOWN_FUNCTION,
    UNKNOWN_MODULE, UNKNOWN_REQUEST, UNREGISTERED_MODULE,
};
use crate::registry::{
    consistent, free_registered, ids_unique, lemma_remove_keeps, lemma_same_but_flags,
    lemma_settle_consistent, lemma_settle_free_registered, lemma_settle_same_but_flags,
    lemma_shallow_same_but_flags, lemma_update_keeps, listeners, listens, promote, provides,
    same_but_flags, satisfied_by, settle, shallow, uuids_unique, with_registered,
};
use crate::version::{is_semver_requirement, Requirement, SemanticVersion};
use crate::requests::{
    
    call_post, caller_id, conn_registered, declare_post, dep_list, deps_object, deps_well_formed,
    has_key, hook_data, hooks_from_registered_owner, registration_output, request_type,
    module_info, module_list, new_module, origins_from_registered_caller, register_hook_post,
    registration_malformed, registration_post, request_post, response_post, str_field,
    summaries_where, trigger_post, with_function, with_hook,
};

verus! {

/// A frame to write to the connection `to`.
pub struct Outbound {
    pub to: u128,
    pub frame: Json,
}

/// The frames of `out`, as (connection, frame) pairs.
pub open spec fn sent(out: Seq<Outbound>) -> Seq<(u128, JsonView)> {
    out.map_values(|o: Outbound| (o.to, o.frame@))
}

/// The mathematical value of a [`Broker`].
pub struct BrokerView {
    /// The broker's own name, which is also its pseudo-module's id.
    pub name: Seq<char>,
    /// Every tracked module; the registered pool is those whose flag is set.
    /// The first is the broker's pseudo-module. The connection ledger is
    /// this sequence read by connection id.
    pub modules: Seq<ModuleView>,
    /// The request-origin ledger: request id and the id of the calling module.
    pub origins: Seq<(Seq<char>, Seq<char>)>,
    /// The last stamp used in a broker-made request id.
    pub stamp: u128,
}

/// The broker's state.
pub struct Broker {
    name: String,
    modules: Vec<Module>,
    origins: Vec<(String, String)>,
    stamp: u128,
}

pub open spec fn module_views(v: Seq<Module>) -> Seq<ModuleView> {
    v.map_values(|m: Module| m@)
}

pub open spec fn origin_views(v: Seq<(String, String)>) -> Seq<(Seq<char>, Seq<char>)> {
    v.map_values(|p: (String, String)| (p.0@, p.1@))
}

impl View for Broker {
    type V = BrokerView;

    closed spec fn view(&self) -> BrokerView {
        BrokerView {
            name: self.name@,
            modules: module_views(self.modules@),
            origins: origin_views(self.origins@),
            stamp: self.stamp,
        }
    }
}

/// The functions that the broker's pseudo-module declares.
pub open spec fn broker_functions() -> Seq<Seq<char>> {
    seq!["listModules"@, "getModuleInfo"@]
}

/// The broker's pseudo-module: registered, on connection 0, under the
/// broker's name, with no dependencies or hooks.
pub open spec fn is_broker_module(m: ModuleView, name: Seq<char>) -> bool {
    &&& m.registered
    &&& m.uuid == 0
    &&& m.id == name
    &&& m.deps.len() == 0
    &&& m.hooks.len() == 0
    &&& m.functions == broker_functions()
}

pub open spec fn origin_keys_unique(origins: Seq<(Seq<char>, Seq<char>)>) -> bool {
    forall|i: int, j: int|
        0 <= i < origins.len() && 0 <= j < origins.len() && i != j ==> #[trigger] origins[i].0 != #[trigger] origins[j].0
}

/// The broker's invariant: the pseudo-module comes first, module ids and
/// connection ids are unique (so connection 0 is the pseudo-module's alone),
/// dependency-free modules are registered, request ids in the ledger are unique.
pub open spec fn wf(b: BrokerView) -> bool {
    &&& b.modules.len() > 0
    &&& is_broker_module(b.modules[0], b.name)
    &&& ids_unique(b.modules)
    &&& uuids_unique(b.modules)
    &&& free_registered(b.modules)
    &&& origin_keys_unique(b.origins)
}

/// Some tracked module is bound to connection `conn`.
pub open spec fn bound(b: BrokerView, conn: u128) -> bool {
    exists|i: int| 0 <= i < b.modules.len() && b.modules[i].uuid == conn
}

/// The module bound to connection `conn`.
pub open spec fn conn_index(b: BrokerView, conn: u128) -> int {
    module_on(b.modules, conn)
}

pub open spec fn module_on(mods: Seq<ModuleView>, conn: u128) -> int {
    choose|i: int| 0 <= i < mods.len() && mods[i].uuid == conn
}

/// Some tracked module has the id `id`.
pub open spec fn is_tracked(b: BrokerView, id: Seq<char>) -> bool {
    exists|i: int| 0 <= i < b.modules.len() && b.modules[i].id == id
}

/// The module with the id `id`.
pub open spec fn id_index(b: BrokerView, id: Seq<char>) -> int {
    module_named(b.modules, id)
}

pub open spec fn module_named(mods: Seq<ModuleView>, id: Seq<char>) -> int {
    choose|i: int| 0 <= i < mods.len() && mods[i].id == id
}

/// The module with the id `id` is in the registered pool.
pub open spec fn in_registered_pool(b: BrokerView, id: Seq<char>) -> bool {
    is_tracked(b, id) && b.modules[id_index(b, id)].registered
}

/// The ledger holds the request id `rid`.
pub open spec fn has_origin(b: BrokerView, rid: Seq<char>) -> bool {
    exists|k: int| 0 <= k < b.origins.len() && b.origins[k].0 == rid
}

pub open spec fn origin_index(b: BrokerView, rid: Seq<char>) -> int {
    entry_for(b.origins, rid)
}

pub open spec fn entry_for(origins: Seq<(Seq<char>, Seq<char>)>, rid: Seq<char>) -> int {
    choose|k: int| 0 <= k < origins.len() && origins[k].0 == rid
}

/// The module that issued the pending call `rid`.
pub open spec fn origin_of(b: BrokerView, rid: Seq<char>) -> Option<Seq<char>> {
    if has_origin(b, rid) {
        Some(b.origins[origin_index(b, rid)].1)
    } else {
        None
    }
}

/// `owner.hook`.
pub open spec fn qualified(owner: Seq<char>, hook: Seq<char>) -> Seq<char> {
    owner + "."@ + hook
}

pub open spec fn next_stamp(stamp: u128) -> u128 {
    if stamp < u128::MAX {
        (stamp + 1) as u128
    } else {
        stamp
    }
}

/// `sent` is `before` followed by one hook frame for `hook` with `data` to
/// each connection of `to`, in order.
pub open spec fn delivered(
    sent: Seq<(u128, JsonView)>,
    before: Seq<(u128, JsonView)>,
    to: Seq<u128>,
    hook: Seq<char>,
    data: JsonView,
) -> bool {
    &&& sent.len() == before.len() + to.len()
    &&& sent.subrange(0, before.len() as int) == before
    &&& forall|k: int|
        0 <= k < to.len() ==> (#[trigger] sent[before.len() + k]).0 == to[k] && exists|rid: Seq<char>|
            sent[before.len() + k].1 == hook_frame(rid, hook, data)
}

/// The empty JSON object.
pub open spec fn empty_object() -> JsonView {
    JsonView::Object(Seq::empty())
}

/// `{moduleId}`: the data of a `moduleActivated` or `moduleDeactivated` announcement.
pub open spec fn module_id_data(id: Seq<char>) -> JsonView {
    JsonView::Object(seq![("moduleId"@, JsonView::Str(id))])
}

/// The connections of the modules of `mods` that `sel` selects, in order.
pub open spec fn conns_in(mods: Seq<ModuleView>, sel: Seq<bool>) -> Seq<u128>
    decreases sel.len(),
{
    if sel.len() == 0 {
        Seq::empty()
    } else {
        let rest = conns_in(mods, sel.drop_last());
        if sel.last() {
            rest.push(mods[sel.len() - 1].uuid)
        } else {
            rest
        }
    }
}

/// The ids of the modules of `mods` that `sel` selects, in order.
pub open spec fn ids_in(mods: Seq<ModuleView>, sel: Seq<bool>) -> Seq<Seq<char>>
    decreases sel.len(),
{
    if sel.len() == 0 {
        Seq::empty()
    } else {
        let rest = ids_in(mods, sel.drop_last());
        if sel.last() {
            rest.push(mods[sel.len() - 1].id)
        } else {
            rest
        }
    }
}

/// The modules that one run of the dependency engine promotes.
pub open spec fn promoted_flags(mods: Seq<ModuleView>) -> Seq<bool> {
    Seq::new(mods.len(), |i: int| !mods[i].registered && promote(mods)[i].registered)
}

/// The modules that one run of the dependency engine demotes.
pub open spec fn demoted_flags(mods: Seq<ModuleView>) -> Seq<bool> {
    Seq::new(mods.len(), |i: int| promote(mods)[i].registered && !settle(mods)[i].registered)
}

/// `sent` is `before` followed, for each id of `ids` in order, by one
/// delivery of `hook` with data `{moduleId: id}` to each connection of `to`.
pub open spec fn announced(
    sent: Seq<(u128, JsonView)>,
    before: Seq<(u128, JsonView)>,
    to: Seq<u128>,
    hook: Seq<char>,
    ids: Seq<Seq<char>>,
) -> bool
    decreases ids.len(),
{
    if ids.len() == 0 {
        sent == before
    } else {
        let mid = sent.subrange(0, sent.len() - to.len());
        &&& sent.len() >= to.len()
        &&& announced(mid, before, to, hook, ids.drop_last())
        &&& delivered(sent, mid, to, hook, module_id_data(ids.last()))
    }
}

/// The frames one run of the dependency engine over `mods` appends to
/// `before`, and nothing else: one forced `activated` to each promoted
/// module, then one forced `deactivated` to each demoted module, then a
/// `moduleActivated` announcement for each promoted module and a
/// `moduleDeactivated` announcement for each demoted one, delivered to the
/// subscribers in the pools as the engine leaves them.
pub open spec fn engine_output(
    before: Seq<(u128, JsonView)>,
    sent: Seq<(u128, JsonView)>,
    mods: Seq<ModuleView>,
    name: Seq<char>,
) -> bool {
    exists|s1: Seq<(u128, JsonView)>, s2: Seq<(u128, JsonView)>, s3: Seq<(u128, JsonView)>|
        #![trigger delivered(s2, s1, conns_in(mods, demoted_flags(mods)), qualified(name, "deactivated"@), empty_object()), announced(s3, s2, listeners(settle(mods), qualified(name, "moduleActivated"@), false), qualified(name, "moduleActivated"@), ids_in(mods, promoted_flags(mods)))]
        delivered(s1, before, conns_in(mods, promoted_flags(mods)), qualified(name, "activated"@), empty_object())
            && delivered(s2, s1, conns_in(mods, demoted_flags(mods)), qualified(name, "deactivated"@), empty_object())
            && announced(
            s3,
            s2,
            listeners(settle(mods), qualified(name, "moduleActivated"@), false),
            qualified(name, "moduleActivated"@),
            ids_in(mods, promoted_flags(mods)),
        ) && announced(
            sent,
            s3,
            listeners(settle(mods), qualified(name, "moduleDeactivated"@), false),
            qualified(name, "moduleDeactivated"@),
            ids_in(mods, demoted_flags(mods)),
        )
}

/// The frames of a disconnect after which `mods` remain: the dependency
/// engine's frames, then `moduleDisconnected` with the connection id to each
/// subscriber in the pools as the engine leaves them.
pub open spec fn disconnect_output(
    sent: Seq<(u128, JsonView)>,
    mods: Seq<ModuleView>,
    name: Seq<char>,
    conn: u128,
) -> bool {
    exists|s: Seq<(u128, JsonView)>|
        #![trigger engine_output(Seq::empty(), s, mods, name)]
        engine_output(Seq::empty(), s, mods, name) && delivered(
            sent,
            s,
            listeners(settle(mods), qualified(name, "moduleDisconnected"@), false),
            qualified(name, "moduleDisconnected"@),
            JsonView::Object(seq![("connectionId"@, JsonView::Str(decimal(conn as nat)))]),
        )
}

proof fn lemma_delivered_none(before: Seq<(u128, JsonView)>, hook: Seq<char>, data: JsonView)
    ensures
        delivered(before, before, Seq::empty(), hook, data),
{
    assert(before.subrange(0, before.len() as int) =~= before);
}

proof fn lemma_delivered_push(
    s: Seq<(u128, JsonView)>,
    mid: Seq<(u128, JsonView)>,
    before: Seq<(u128, JsonView)>,
    to: Seq<u128>,
    x: u128,
    hook: Seq<char>,
    data: JsonView,
)
    requires
        delivered(mid, before, to, hook, data),
        delivered(s, mid, seq![x], hook, data),
    ensures
        delivered(s, before, to.push(x), hook, data),
{
    let t = to.push(x);
    assert(s.subrange(0, before.len() as int) =~= mid.subrange(0, before.len() as int)) by {
        assert(s.subrange(0, mid.len() as int) == mid);
    }
    assert forall|k: int| 0 <= k < t.len() implies (#[trigger] s[before.len() + k]).0 == t[k] && exists|rid: Seq<char>|
        s[before.len() + k].1 == hook_frame(rid, hook, data) by {
        if k < to.len() {
            assert(s[before.len() + k] == s.subrange(0, mid.len() as int)[before.len() + k]);
            assert(mid[before.len() + k].0 == to[k]);
        } else {
            let z: int = 0;
            assert(before.len() + k == mid.len() + z);
            assert(s[mid.len() + z].0 == seq![x][z]);
        }
    }
}

proof fn lemma_announced_push(
    cur: Seq<(u128, JsonView)>,
    s: Seq<(u128, JsonView)>,
    before: Seq<(u128, JsonView)>,
    to: Seq<u128>,
    hook: Seq<char>,
    ids: Seq<Seq<char>>,
    id: Seq<char>,
)
    requires
        announced(cur, before, to, hook, ids),
        delivered(s, cur, to, hook, module_id_data(id)),
    ensures
        announced(s, before, to, hook, ids.push(id)),
{
    let ids2 = ids.push(id);
    assert(ids2.drop_last() =~= ids);
    assert(ids2.last() == id);
    assert(s.subrange(0, s.len() - to.len()) == cur);
}

proof fn lemma_selected_step(mods: Seq<ModuleView>, sel: Seq<bool>, i: int)
    requires
        0 <= i < sel.len(),
    ensures
        conns_in(mods, sel.subrange(0, i + 1)) == if sel[i] {
            conns_in(mods, sel.subrange(0, i)).push(mods[i].uuid)
        } else {
            conns_in(mods, sel.subrange(0, i))
        },
        ids_in(mods, sel.subrange(0, i + 1)) == if sel[i] {
            ids_in(mods, sel.subrange(0, i)).push(mods[i].id)
        } else {
            ids_in(mods, sel.subrange(0, i))
        },
{
    assert(sel.subrange(0, i + 1).drop_last() =~= sel.subrange(0, i));
    assert(sel.subrange(0, i + 1).last() == sel[i]);
}

proof fn lemma_selected_none(mods: Seq<ModuleView>, sel: Seq<bool>)
    ensures
        conns_in(mods, sel.subrange(0, 0)) == Seq::<u128>::empty(),
        ids_in(mods, sel.subrange(0, 0)) == Seq::<Seq<char>>::empty(),
        sel.subrange(0, sel.len() as int) == sel,
{
    assert(sel.subrange(0, 0) =~= Seq::<bool>::empty());
    assert(sel.subrange(0, sel.len() as int) =~= sel);
}

/// Relies on `rand::random`, which draws a value from the thread-local
/// generator; nothing is promised of the value drawn.
pub assume_specification<T>[ rand::random::<T> ]() -> (r: T)
    where
        rand::distributions::Standard: rand::distributions::Distribution<T>,
;

/// The connections `1..=n` cannot all be bound when only `n` modules are
/// tracked and one of them is the pseudo-module on connection 0.
proof fn lemma_free_connection_exists(b: BrokerView)
    requires
        wf(b),
        b.modules.len() < u128::MAX,
    ensures
        exists|d: int| 1 <= d <= b.modules.len() && !#[trigger] bound(b, d as u128),
{
    if forall|d: int| 1 <= d <= b.modules.len() ==> #[trigger] bound(b, d as u128) {
        lemma_no_free_connection_impossible(b);
    }
}

proof fn lemma_no_free_connection_impossible(b: BrokerView)
    requires
        wf(b),
        b.modules.len() < u128::MAX,
        forall|d: int| 1 <= d <= b.modules.len() ==> #[trigger] bound(b, d as u128),
    ensures
        b.modules.len() < 0,
{
    let n = b.modules.len() as int;
    let x = set_int_range(1, n + 1);
    let y = set_int_range(1, n);
    let f = |d: int| module_on(b.modules, d as u128);
    lemma_int_range(1, n + 1);
    lemma_int_range(1, n);
    assert forall|d: int| x.contains(d) implies #[trigger] f(d) >= 1 && f(d) < n && b.modules[f(d)].uuid == d as u128 by {
        assert(bound(b, d as u128));
        let i = module_on(b.modules, d as u128);
        assert(b.modules[i].uuid == d as u128);
        assert(i != 0);
    }
    assert(vstd::relations::injective_on(f, x)) by {
        assert forall|d1: int, d2: int| x.contains(d1) && x.contains(d2) && #[trigger] f(d1) == #[trigger] f(d2) implies d1 == d2 by {
            assert(b.modules[f(d1)].uuid == d1 as u128);
            assert(b.modules[f(d2)].uuid == d2 as u128);
        }
    }
    lemma_map_size(x, x.map(f), f);
    assert(x.map(f).subset_of(y)) by {
        assert forall|i: int| #[trigger] x.map(f).contains(i) implies y.contains(i) by {
            let d = choose|d: int| x.contains(d) && f(d) == i;
        }
    }
    lemma_len_subset(x.map(f), y);
}

/// Membership of the registered pool (`true`) or of the unregistered pool.
pub open spec fn in_pool(registered: bool) -> spec_fn(ModuleView) -> bool {
    |m: ModuleView| m.registered == registered
}

/// A single frame to `to`.
fn single(to: u128, frame: Json) -> (r: Vec<Outbound>)
    ensures
        sent(r@) == seq![(to, frame@)],
{
    let mut r: Vec<Outbound> = Vec::new();
    r.push(Outbound { to, frame });
    assert(sent(r@) =~= seq![(to, frame@)]);
    r
}

/// Whether `v` already holds a dependency on `key`.
fn has_dependency(v: &Vec<(String, Requirement)>, key: &str) -> (r: bool)
    ensures
        r == has_key(dep_views(v@), key@),
{
    let mut i: usize = 0;
    while i < v.len()
        invariant
            i <= v.len(),
            forall|j: int| 0 <= j < i ==> v@[j].0@ != key@,
        decreases v.len() - i,
    {
        if same_text(v[i].0.as_str(), key) {
            assert(dep_views(v@)[i as int].0 == key@);
            return true;
        }
        i += 1;
    }
    proof {
        if has_key(dep_views(v@), key@) {
            let j = choose|j: int| 0 <= j < dep_views(v@).len() && dep_views(v@)[j].0 == key@;
            assert(v@[j].0@ == key@);
        }
    }
    false
}

/// Reads the dependencies object of a registration: `None` unless every
/// value is a string holding a version requirement.
fn parse_dependencies(fields: &Fields) -> (r: Option<Vec<(String, Requirement)>>)
    ensures
        r is Some == deps_well_formed(fields@),
        r matches Some(v) ==> dep_views(v@) == dep_list(fields@),
{
    let ghost fs = fields@;
    let ghost mut i: int = 0;
    let mut cur: &Fields = fields;
    let mut deps: Vec<(String, Requirement)> = Vec::new();
    proof {
        assert(fs.subrange(0, fs.len() as int) =~= fs);
        assert(dep_views(deps@) =~= dep_list(fs.subrange(0, 0)));
    }
    loop
        invariant
            fs == fields@,
            0 <= i <= fs.len(),
            cur@ == fs.subrange(i, fs.len() as int),
            dep_views(deps@) == dep_list(fs.subrange(0, i)),
            deps_well_formed(fs.subrange(0, i)),
        decreases fs.len() - i,
    {
        match cur {
            Fields::Nil => {
                proof {
                    assert(cur@.len() == 0);
                    assert(i == fs.len());
                    assert(fs.subrange(0, i) =~= fs);
                }
                return Some(deps);
            },
            Fields::Cons(key, value, rest) => {
                proof {
                    assert(cur@ == seq![(key@, value@)] + rest@);
                    assert(i < fs.len());
                    assert(cur@[0] == fs[i]);
                    assert(fs[i] == (key@, value@));
                    assert(rest@ =~= fs.subrange(i + 1, fs.len() as int)) by {
                        assert(cur@.drop_first() =~= rest@);
                    }
                }
                let q = match &**value {
                    Json::Str(text) => match Requirement::parse(text.as_str()) {
                        Some(q) => q,
                        None => {
                            proof {
                                assert(!deps_well_formed(fs)) by {
                                    assert(fs[i].1 is Str && !is_semver_requirement(fs[i].1->Str_0));
                                }
                            }
                            return None;
                        },
                    },
                    _ => {
                        proof {
                            assert(!deps_well_formed(fs)) by {
                                assert(!(fs[i].1 is Str));
                            }
                        }
                        return None;
                    },
                };
                let ghost prefix = fs.subrange(0, i + 1);
                proof {
                    assert(prefix.drop_last() =~= fs.subrange(0, i));
                    assert(prefix.last() == fs[i]);
                    assert forall|k: int| 0 <= k < prefix.len() implies (#[trigger] prefix[k]).1 is Str
                        && is_semver_requirement(prefix[k].1->Str_0) by {
                        if k < i {
                            assert(prefix[k] == fs.subrange(0, i)[k]);
                        }
                    }
                }
                if !has_dependency(&deps, key.as_str()) {
                    deps.push((key.clone(), q));
                    assert(dep_views(deps@) =~= dep_list(fs.subrange(0, i)).push((key@, fs[i].1->Str_0)));
                }
                cur = &**rest;
                proof {
                    i = i + 1;
                }
            },
        }
    }
}

fn qualify(owner: &str, hook: &str) -> (r: String)
    ensures
        r@ == qualified(owner@, hook@),
{
    String::from_str(owner).concat(".").concat(hook)
}

impl Broker {
    /// A broker named `name` at `version`, whose registered pool holds its
    /// pseudo-module alone.
    pub fn new(name: &str, version: SemanticVersion) -> (r: Broker)
        ensures
            wf(r@),
            r@.name == name@,
            r@.modules.len() == 1,
            r@.modules[0].version == version@,
            consistent(r@.modules),
            r@.origins.len() == 0,
            r@.stamp == 0,
    {
        let mut m = Module::new(0, String::from_str(name), version);
        m.set_registered(true);
        m.declare_function(String::from_str("listModules"));
        m.declare_function(String::from_str("getModuleInfo"));
        let mut modules: Vec<Module> = Vec::new();
        modules.push(m);
        let r = Broker { name: String::from_str(name), modules, origins: Vec::new(), stamp: 0 };
        assert(m@.functions =~= broker_functions());
        assert(module_views(r.modules@) =~= seq![m@]);
        assert(origin_views(r.origins@) =~= Seq::empty());
        assert(satisfied_by(r@.modules, r@.modules[0]));
        r
    }

    /// The broker's name.
    pub fn name(&self) -> (r: &str)
        ensures
            r@ == self@.name,
    {
        self.name.as_str()
    }

    /// The position of the module bound to connection `conn`.
    fn position_of_uuid(&self, conn: u128) -> (r: Option<usize>)
        requires
            wf(self@),
        ensures
            r matches Some(i) ==> i < self@.modules.len() && self@.modules[i as int].uuid == conn
                && conn_index(self@, conn) == i && bound(self@, conn),
            r is None ==> !bound(self@, conn),
    {
        let mut i: usize = 0;
        while i < self.modules.len()
            invariant
                i <= self.modules.len(),
                forall|j: int| 0 <= j < i ==> self@.modules[j].uuid != conn,
                wf(self@),
            decreases self.modules.len() - i,
        {
            if self.modules[i].get_module_uuid() == conn {
                assert(self@.modules[i as int].uuid == conn);
                assert(bound(self@, conn));
                let ghost j = conn_index(self@, conn);
                assert(self@.modules[j].uuid == conn);
                assert(j == i);
                return Some(i);
            }
            i += 1;
        }
        None
    }

    /// The position of the module with the id `id`.
    fn position_of_id(&self, id: &str) -> (r: Option<usize>)
        requires
            wf(self@),
        ensures
            r matches Some(i) ==> i < self@.modules.len() && self@.modules[i as int].id == id@
                && id_index(self@, id@) == i && is_tracked(self@, id@),
            r is None ==> !is_tracked(self@, id@),
    {
        let mut i: usize = 0;
        while i < self.modules.len()
            invariant
                i <= self.modules.len(),
                forall|j: int| 0 <= j < i ==> self@.modules[j].id != id@,
                wf(self@),
            decreases self.modules.len() - i,
        {
            if same_text(self.modules[i].get_module_id().as_str(), id) {
                assert(self@.modules[i as int].id == id@);
                assert(is_tracked(self@, id@));
                let ghost j = id_index(self@, id@);
                assert(self@.modules[j].id == id@);
                assert(j == i);
                return Some(i);
            }
            i += 1;
        }
        None
    }

    /// The position in the ledger of the request id `rid`.
    fn position_of_origin(&self, rid: &str) -> (r: Option<usize>)
        requires
            wf(self@),
        ensures
            r matches Some(k) ==> k < self@.origins.len() && self@.origins[k as int].0 == rid@
                && origin_index(self@, rid@) == k && has_origin(self@, rid@),
            r is None ==> !has_origin(self@, rid@),
    {
        let mut k: usize = 0;
        while k < self.origins.len()
            invariant
                k <= self.origins.len(),
                forall|j: int| 0 <= j < k ==> self@.origins[j].0 != rid@,
                wf(self@),
            decreases self.origins.len() - k,
        {
            if same_text(self.origins[k].0.as_str(), rid) {
                assert(self@.origins[k as int].0 == rid@);
                assert(has_origin(self@, rid@));
                let ghost j = origin_index(self@, rid@);
                assert(self@.origins[j].0 == rid@);
                assert(j == k);
                return Some(k);
            }
            k += 1;
        }
        None
    }

    /// Moves the stamp up to the clock reading `now`.
    fn advance_clock(&mut self, now: u128)
        ensures
            final(self)@ == (BrokerView {
                stamp: if now > old(self)@.stamp { now } else { old(self)@.stamp },
                ..old(self)@
            }),
    {
        if now > self.stamp {
            self.stamp = now;
        }
    }

    /// A fresh request id: the broker's name followed by the next stamp.
    fn generate_request_id(&mut self) -> (r: String)
        ensures
            final(self)@ == (BrokerView { stamp: next_stamp(old(self)@.stamp), ..old(self)@ }),
            final(self).modules == old(self).modules,
            r@ == old(self)@.name + decimal(next_stamp(old(self)@.stamp) as nat),
    {
        if self.stamp < u128::MAX {
            self.stamp = self.stamp + 1;
        }
        let digits = decimal_string(self.stamp);
        String::from_str(self.name.as_str()).concat(digits.as_str())
    }

    /// Delivers `from.hook` with `data` to the connection `to`, whether or not
    /// it listens for it.
    fn trigger_hook_on(&mut self, from: &str, to: u128, hook: &str, data: Json, out: &mut Vec<Outbound>)
        ensures
            final(self)@ == (BrokerView { stamp: next_stamp(old(self)@.stamp), ..old(self)@ }),
            final(self).modules@.len() == old(self).modules@.len(),
            delivered(sent(final(out)@), sent(old(out)@), seq![to], qualified(from@, hook@), data@),
    {
        let hook_name = qualify(from, hook);
        let rid = self.generate_request_id();
        let ghost d = data@;
        let frame = hook_message(rid.as_str(), hook_name.as_str(), data);
        out.push(Outbound { to, frame });
        proof {
            let s = sent(out@);
            let b = sent(old(out)@);
            assert(s.subrange(0, b.len() as int) =~= b);
            assert(s[b.len() as int].1 == hook_frame(rid@, hook_name@, d));
        }
    }

    /// Delivers `owner.hook` with `data` to every registered module that
    /// listens for it, or to every registered module when `force` is set.
    fn trigger_hook(&mut self, owner: &str, hook: &str, data: &Json, force: bool, out: &mut Vec<Outbound>)
        ensures
            final(self)@.name == old(self)@.name,
            final(self)@.modules == old(self)@.modules,
            final(self).modules@.len() == old(self).modules@.len(),
            final(self)@.origins == old(self)@.origins,
            final(self)@.stamp >= old(self)@.stamp,
            delivered(
                sent(final(out)@),
                sent(old(out)@),
                listeners(old(self)@.modules, qualified(owner@, hook@), force),
                qualified(owner@, hook@),
                data@,
            ),
    {
        let hook_name = qualify(owner, hook);
        let ghost mods = self@.modules;
        let ghost before = sent(out@);
        proof {
            assert(mods.subrange(0, 0) =~= Seq::<ModuleView>::empty());
            assert(before.subrange(0, before.len() as int) =~= before);
        }
        let mut i: usize = 0;
        while i < self.modules.len()
            invariant
                i <= self.modules.len(),
                self@.name == old(self)@.name,
                self@.modules == mods,
                self.modules@.len() == mods.len(),
                mods == old(self)@.modules,
                self@.origins == old(self)@.origins,
                self@.stamp >= old(self)@.stamp,
                hook_name@ == qualified(owner@, hook@),
                delivered(sent(out@), before, listeners(mods.subrange(0, i as int), hook_name@, force), hook_name@, data@),
            decreases self.modules.len() - i,
        {
            let ghost prev = sent(out@);
            let ghost ls = listeners(mods.subrange(0, i as int), hook_name@, force);
            proof {
                assert(mods.subrange(0, i + 1).drop_last() =~= mods.subrange(0, i as int));
                assert(mods.subrange(0, i + 1).last() == mods[i as int]);
            }
            let m = &self.modules[i];
            let wanted = m.is_registered() && m.get_module_uuid() != 0 && (force || m.is_hook_registered(
                hook_name.as_str(),
            ));
            if wanted {
                let to = m.get_module_uuid();
                let rid = self.generate_request_id();
                let frame = hook_message(rid.as_str(), hook_name.as_str(), data.copy());
                out.push(Outbound { to, frame });
                proof {
                    let s = sent(out@);
                    let nls = ls.push(to);
                    assert(listeners(mods.subrange(0, i + 1), hook_name@, force) == nls);
                    assert(s.subrange(0, prev.len() as int) =~= prev);
                    assert(s.subrange(0, before.len() as int) =~= before) by {
                        assert(prev.subrange(0, before.len() as int) == before);
                    }
                    assert forall|k: int| 0 <= k < nls.len() implies (#[trigger] s[before.len() + k]).0
                        == nls[k] && exists|r: Seq<char>| s[before.len() + k].1 == hook_frame(r, hook_name@, data@) by {
                        if k < ls.len() {
                            assert(s[before.len() + k] == prev[before.len() + k]);
                        } else {
                            assert(s[before.len() + k].1 == hook_frame(rid@, hook_name@, data@));
                        }
                    }
                }
            } else {
                proof {
                    assert(listeners(mods.subrange(0, i + 1), hook_name@, force) == ls);
                }
            }
            i += 1;
        }
        proof {
            assert(mods.subrange(0, mods.len() as int) =~= mods);
        }
    }

    /// Whether registered modules meet every dependency of the module at `i`.
    fn dependencies_satisfied(&self, i: usize) -> (r: bool)
        requires
            wf(self@),
            i < self@.modules.len(),
        ensures
            r == satisfied_by(self@.modules, self@.modules[i as int]),
    {
        let ghost mods = self@.modules;
        let ghost m = mods[i as int];
        let deps = self.modules[i].get_dependencies();
        let mut k: usize = 0;
        while k < deps.len()
            invariant
                wf(self@),
                mods == self@.modules,
                i < mods.len(),
                m == mods[i as int],
                dep_views(deps@) == m.deps,
                k <= deps.len(),
                forall|kk: int|
                    0 <= kk < k ==> exists|j: int| 0 <= j < mods.len() && provides(mods[j], #[trigger] m.deps[kk]),
            decreases deps.len() - k,
        {
            let ghost dep = m.deps[k as int];
            assert(dep == (deps@[k as int].0@, deps@[k as int].1@));
            match self.position_of_id(deps[k].0.as_str()) {
                None => {
                    proof {
                        assert forall|j: int| 0 <= j < mods.len() implies !provides(mods[j], dep) by {
                            if provides(mods[j], dep) {
                                assert(mods[j].id == dep.0);
                            }
                        }
                        assert(!satisfied_by(mods, m));
                    }
                    return false;
                },
                Some(j) => {
                    let p = &self.modules[j];
                    if !p.is_registered() || !deps[k].1.matches(p.get_version()) {
                        proof {
                            assert(!provides(mods[j as int], dep));
                            assert forall|j2: int| 0 <= j2 < mods.len() implies !provides(mods[j2], dep) by {
                                if provides(mods[j2], dep) {
                                    assert(mods[j2].id == mods[j as int].id);
                                }
                            }
                            assert(!satisfied_by(mods, m));
                        }
                        return false;
                    }
                    assert(provides(mods[j as int], dep));
                },
            }
            k += 1;
        }
        true
    }

    /// Sets the registered flag of the module at `i`.
    fn set_module_registered(&mut self, i: usize, registered: bool)
        requires
            i < old(self)@.modules.len(),
        ensures
            final(self)@ == (BrokerView {
                modules: old(self)@.modules.update(i as int, with_registered(old(self)@.modules[i as int], registered)),
                ..old(self)@
            }),
            final(self).modules@.len() == old(self).modules@.len(),
    {
        self.modules[i].set_registered(registered);
        assert(module_views(self.modules@) =~= old(self)@.modules.update(
            i as int,
            with_registered(old(self)@.modules[i as int], registered),
        ));
    }

    /// The dependency engine. One promotion sweep judged against the pools as
    /// they are, then one demotion sweep judged against the pools after
    /// promotion; each promoted module is sent `activated` and each demoted one
    /// `deactivated`; last, `moduleActivated` and `moduleDeactivated` are
    /// announced for them.
    fn recalculate_all_module_dependencies(&mut self, out: &mut Vec<Outbound>)
        requires
            wf(old(self)@),
        ensures
            wf(final(self)@),
            final(self)@.name == old(self)@.name,
            final(self)@.modules == settle(old(self)@.modules),
            final(self)@.origins == old(self)@.origins,
            final(self)@.stamp >= old(self)@.stamp,
            engine_output(sent(old(out)@), sent(final(out)@), old(self)@.modules, old(self)@.name),
    {
        let ghost m0 = self@.modules;
        let ghost p = promote(m0);
        let ghost f = settle(m0);
        let ghost pf = promoted_flags(m0);
        let ghost df = demoted_flags(m0);
        let ghost out0 = sent(out@);
        let ghost act = qualified(old(self)@.name, "activated"@);
        let ghost deact = qualified(old(self)@.name, "deactivated"@);
        let ghost mact = qualified(old(self)@.name, "moduleActivated"@);
        let ghost mdeact = qualified(old(self)@.name, "moduleDeactivated"@);
        proof {
            lemma_settle_same_but_flags(m0);
            lemma_same_but_flags(m0, p);
            lemma_same_but_flags(m0, f);
            lemma_settle_free_registered(m0);
        }
        let n = self.modules.len();
        let name = self.name.clone();
        let mut promoted: Vec<bool> = Vec::new();
        let mut i: usize = 0;
        while i < n
            invariant
                self@ == old(self)@,
                wf(self@),
                n == m0.len(),
                m0 == self@.modules,
                self.modules@.len() == n,
                promoted@.len() == i,
                i <= n,
                forall|j: int| 0 <= j < i ==> promoted@[j] == (!m0[j].registered && satisfied_by(m0, m0[j])),
            decreases n - i,
        {
            let flag = !self.modules[i].is_registered() && self.dependencies_satisfied(i);
            promoted.push(flag);
            i += 1;
        }
        proof {
            assert(promoted@ =~= pf);
            lemma_selected_none(m0, pf);
            lemma_delivered_none(out0, act, empty_object());
        }
        i = 0;
        while i < n
            invariant
                self@.name == old(self)@.name,
                name@ == old(self)@.name,
                self@.origins == old(self)@.origins,
                self@.stamp >= old(self)@.stamp,
                n == m0.len(),
                p.len() == n,
                p == promote(m0),
                pf == promoted_flags(m0),
                same_but_flags(m0, p),
                self.modules@.len() == n,
                self@.modules.len() == n,
                promoted@ == pf,
                i <= n,
                forall|j: int| 0 <= j < n ==> #[trigger] self@.modules[j] == if j < i { p[j] } else { m0[j] },
                act == qualified(name@, "activated"@),
                delivered(sent(out@), out0, conns_in(m0, pf.subrange(0, i as int)), act, empty_object()),
            decreases n - i,
        {
            let ghost cur = self@.modules;
            let ghost before = sent(out@);
            proof {
                lemma_selected_step(m0, pf, i as int);
            }
            if promoted[i] {
                self.set_module_registered(i, true);
                assert(self.modules@[i as int]@ == self@.modules[i as int]);
                assert(cur[i as int].uuid == self@.modules[i as int].uuid);
                let to = self.modules[i].get_module_uuid();
                self.trigger_hook_on(name.as_str(), to, "activated", Json::empty_object(), out);
                proof {
                    assert(cur[i as int] == m0[i as int]);
                    lemma_delivered_push(sent(out@), before, out0, conns_in(m0, pf.subrange(0, i as int)), to, act, empty_object());
                }
            }
            proof {
                assert forall|j: int| 0 <= j < n implies #[trigger] self@.modules[j] == if j < i + 1 { p[j] } else { m0[j] } by {
                    assert(cur[j] == if j < i { p[j] } else { m0[j] });
                    if j == i {
                        assert(p[j] == with_registered(m0[j], p[j].registered));
                        assert(with_registered(m0[j], m0[j].registered) == m0[j]);
                        assert(p[j].registered == (m0[j].registered || satisfied_by(m0, m0[j])));
                        if promoted@[j] {
                            assert(self@.modules[j] == with_registered(m0[j], true));
                        } else {
                            assert(self@.modules[j] == m0[j]);
                        }
                    } else {
                        assert(self@.modules[j] == cur[j]);
                    }
                }
            }
            i += 1;
        }
        proof {
            assert(self@.modules =~= p);
        }
        let ghost out1 = sent(out@);
        let mut demoted: Vec<bool> = Vec::new();
        i = 0;
        while i < n
            invariant
                wf(self@),
                n == p.len(),
                p == self@.modules,
                p == promote(m0),
                self.modules@.len() == n,
                demoted@.len() == i,
                i <= n,
                forall|j: int| 0 <= j < i ==> demoted@[j] == (p[j].registered && !satisfied_by(p, p[j])),
            decreases n - i,
        {
            let flag = self.modules[i].is_registered() && !self.dependencies_satisfied(i);
            demoted.push(flag);
            i += 1;
        }
        proof {
            assert(demoted@ =~= df);
            lemma_selected_none(m0, df);
            lemma_delivered_none(out1, deact, empty_object());
        }
        i = 0;
        while i < n
            invariant
                self@.name == old(self)@.name,
                name@ == old(self)@.name,
                self@.origins == old(self)@.origins,
                self@.stamp >= old(self)@.stamp,
                n == p.len(),
                f.len() == n,
                f == settle(m0),
                p == promote(m0),
                df == demoted_flags(m0),
                same_but_flags(m0, p),
                same_but_flags(p, f),
                self.modules@.len() == n,
                self@.modules.len() == n,
                demoted@ == df,
                i <= n,
                forall|j: int| 0 <= j < n ==> #[trigger] self@.modules[j] == if j < i { f[j] } else { p[j] },
                deact == qualified(name@, "deactivated"@),
                delivered(sent(out@), out1, conns_in(m0, df.subrange(0, i as int)), deact, empty_object()),
            decreases n - i,
        {
            let ghost cur = self@.modules;
            let ghost before = sent(out@);
            proof {
                lemma_selected_step(m0, df, i as int);
            }
            if demoted[i] {
                self.set_module_registered(i, false);
                assert(self.modules@[i as int]@ == self@.modules[i as int]);
                assert(cur[i as int].uuid == self@.modules[i as int].uuid);
                let to = self.modules[i].get_module_uuid();
                self.trigger_hook_on(name.as_str(), to, "deactivated", Json::empty_object(), out);
                proof {
                    assert(with_registered(m0[i as int], p[i as int].registered) == p[i as int]);
                    assert(cur[i as int] == p[i as int]);
                    lemma_delivered_push(sent(out@), before, out1, conns_in(m0, df.subrange(0, i as int)), to, deact, empty_object());
                }
            }
            proof {
                assert forall|j: int| 0 <= j < n implies #[trigger] self@.modules[j] == if j < i + 1 { f[j] } else { p[j] } by {
                    assert(cur[j] == if j < i { f[j] } else { p[j] });
                    if j == i {
                        assert(f[j] == with_registered(p[j], f[j].registered));
                        assert(with_registered(p[j], p[j].registered) == p[j]);
                    } else {
                        assert(self@.modules[j] == cur[j]);
                    }
                }
            }
            i += 1;
        }
        proof {
            assert(self@.modules =~= f);
        }
        let ghost out2 = sent(out@);
        let ghost lact = listeners(f, mact, false);
        let ghost ldeact = listeners(f, mdeact, false);
        i = 0;
        while i < n
            invariant
                self@.name == old(self)@.name,
                name@ == old(self)@.name,
                self@.origins == old(self)@.origins,
                self@.stamp >= old(self)@.stamp,
                self@.modules == f,
                self.modules@.len() == n,
                n == f.len(),
                m0.len() == n,
                same_but_flags(m0, f),
                promoted@ == pf,
                pf.len() == n,
                i <= n,
                mact == qualified(name@, "moduleActivated"@),
                lact == listeners(f, mact, false),
                announced(sent(out@), out2, lact, mact, ids_in(m0, pf.subrange(0, i as int))),
            decreases n - i,
        {
            let ghost before = sent(out@);
            proof {
                lemma_selected_step(m0, pf, i as int);
                if i == 0 {
                    lemma_selected_none(m0, pf);
                }
            }
            if promoted[i] {
                let id = self.modules[i].get_module_id().clone();
                let data = Json::empty_object().with_field("moduleId", Json::Str(id));
                proof {
                    assert(crate::json::put(Seq::empty(), "moduleId"@, JsonView::Str(id@)) =~= seq![("moduleId"@, JsonView::Str(id@))]);
                    assert(with_registered(m0[i as int], f[i as int].registered) == f[i as int]);
                    assert(id@ == m0[i as int].id);
                }
                self.trigger_hook(name.as_str(), "moduleActivated", &data, false, out);
                proof {
                    lemma_announced_push(before, sent(out@), out2, lact, mact, ids_in(m0, pf.subrange(0, i as int)), id@);
                }
            }
            i += 1;
        }
        proof {
            lemma_selected_none(m0, pf);
        }
        let ghost out3 = sent(out@);
        i = 0;
        while i < n
            invariant
                self@.name == old(self)@.name,
                name@ == old(self)@.name,
                self@.origins == old(self)@.origins,
                self@.stamp >= old(self)@.stamp,
                self@.modules == f,
                self.modules@.len() == n,
                n == f.len(),
                m0.len() == n,
                same_but_flags(m0, f),
                demoted@ == df,
                df.len() == n,
                i <= n,
                mdeact == qualified(name@, "moduleDeactivated"@),
                ldeact == listeners(f, mdeact, false),
                announced(sent(out@), out3, ldeact, mdeact, ids_in(m0, df.subrange(0, i as int))),
            decreases n - i,
        {
            let ghost before = sent(out@);
            proof {
                lemma_selected_step(m0, df, i as int);
                if i == 0 {
                    lemma_selected_none(m0, df);
                }
            }
            if demoted[i] {
                let id = self.modules[i].get_module_id().clone();
                let data = Json::empty_object().with_field("moduleId", Json::Str(id));
                proof {
                    assert(crate::json::put(Seq::empty(), "moduleId"@, JsonView::Str(id@)) =~= seq![("moduleId"@, JsonView::Str(id@))]);
                    assert(with_registered(m0[i as int], f[i as int].registered) == f[i as int]);
                    assert(id@ == m0[i as int].id);
                }
                self.trigger_hook(name.as_str(), "moduleDeactivated", &data, false, out);
                proof {
                    lemma_announced_push(before, sent(out@), out3, ldeact, mdeact, ids_in(m0, df.subrange(0, i as int)), id@);
                }
            }
            i += 1;
        }
        proof {
            lemma_selected_none(m0, df);
            assert(is_broker_module(f[0], self@.name));
            assert(delivered(out2, out1, conns_in(m0, df), deact, empty_object()));
            assert(announced(out3, out2, lact, mact, ids_in(m0, pf)));
            assert(engine_output(out0, sent(out@), m0, old(self)@.name));
        }
    }

    /// Stops tracking the module on connection `conn`, if any (the broker's
    /// pseudo-module on connection 0 never leaves), runs the dependency engine
    /// and announces `moduleDisconnected` with the connection id.
    pub fn on_module_disconnected(&mut self, conn: u128, now: u128) -> (out: Vec<Outbound>)
        requires
            wf(old(self)@),
        ensures
            wf(final(self)@),
            final(self)@.name == old(self)@.name,
            final(self)@.origins == old(self)@.origins,
            conn == 0 || !bound(old(self)@, conn) ==> final(self)@.modules == old(self)@.modules
                && out@.len() == 0,
            conn != 0 && bound(old(self)@, conn) ==> final(self)@.modules == settle(
                old(self)@.modules.remove(conn_index(old(self)@, conn)),
            ) && disconnect_output(
                sent(out@),
                old(self)@.modules.remove(conn_index(old(self)@, conn)),
                old(self)@.name,
                conn,
            ),
            shallow(final(self)@.modules) && consistent(old(self)@.modules) ==> consistent(final(self)@.modules),
    {
        let mut out: Vec<Outbound> = Vec::new();
        assert(sent(out@) =~= Seq::<(u128, JsonView)>::empty());
        if conn == 0 {
            return out;
        }
        self.advance_clock(now);
        match self.position_of_uuid(conn) {
            None => out,
            Some(i) => {
                let ghost m0 = self@.modules;
                let removed = self.modules.remove(i);
                proof {
                    assert(i != 0);
                    lemma_remove_keeps(m0, i as int);
                    assert(module_views(self.modules@) =~= m0.remove(i as int));
                    assert(self@.modules[0] == m0[0]);
                }
                let ghost removed_view = self@.modules;
                self.recalculate_all_module_dependencies(&mut out);
                let ghost engine_out = sent(out@);
                proof {
                    lemma_settle_same_but_flags(removed_view);
                    lemma_shallow_same_but_flags(removed_view, self@.modules);
                    if shallow(self@.modules) {
                        lemma_settle_consistent(removed_view);
                    }
                }
                let ghost before = sent(out@);
                let data = Json::empty_object().with_field("connectionId", Json::Str(decimal_string(conn)));
                proof {
                    assert(data@ == JsonView::Object(seq![("connectionId"@, JsonView::Str(decimal(conn as nat)))])) by {
                        assert(crate::json::put(Seq::empty(), "connectionId"@, JsonView::Str(decimal(conn as nat)))
                            =~= seq![("connectionId"@, JsonView::Str(decimal(conn as nat)))]);
                    }
                }
                let name = self.name.clone();
                self.trigger_hook(name.as_str(), "moduleDisconnected", &data, false, &mut out);
                proof {
                    assert(engine_output(Seq::empty(), engine_out, removed_view, self@.name));
                    assert(disconnect_output(sent(out@), removed_view, self@.name, conn));
                }
                out
            },
        }
    }

    /// Adds `name` to the declared functions of the module at `c`.
    fn declare_on(&mut self, c: usize, name: String)
        requires
            c < old(self)@.modules.len(),
        ensures
            final(self)@ == (BrokerView {
                modules: old(self)@.modules.update(
                    c as int,
                    ModuleView { functions: old(self)@.modules[c as int].functions.push(name@), ..old(self)@.modules[c as int] },
                ),
                ..old(self)@
            }),
    {
        self.modules[c].declare_function(name);
        assert(module_views(self.modules@) =~= old(self)@.modules.update(
            c as int,
            ModuleView { functions: old(self)@.modules[c as int].functions.push(name@), ..old(self)@.modules[c as int] },
        ));
    }

    /// Adds `hook` to the hooks the module at `c` listens for.
    fn listen_on(&mut self, c: usize, hook: String)
        requires
            c < old(self)@.modules.len(),
        ensures
            final(self)@ == (BrokerView {
                modules: old(self)@.modules.update(
                    c as int,
                    ModuleView { hooks: old(self)@.modules[c as int].hooks.push(hook@), ..old(self)@.modules[c as int] },
                ),
                ..old(self)@
            }),
    {
        self.modules[c].register_hook(hook);
        assert(module_views(self.modules@) =~= old(self)@.modules.update(
            c as int,
            ModuleView { hooks: old(self)@.modules[c as int].hooks.push(hook@), ..old(self)@.modules[c as int] },
        ));
    }

    /// The position of the registered module on connection `conn`, if any.
    fn registered_caller(&self, conn: u128) -> (r: Option<usize>)
        requires
            wf(self@),
        ensures
            r is Some == conn_registered(self@, conn),
            r matches Some(c) ==> c == conn_index(self@, conn) && c < self@.modules.len() && c != 0,
    {
        if conn == 0 {
            return None;
        }
        match self.position_of_uuid(conn) {
            None => None,
            Some(c) => {
                if self.modules[c].is_registered() {
                    Some(c)
                } else {
                    None
                }
            },
        }
    }

    /// Registers a module on connection `conn`.
    fn handle_module_registration(&mut self, conn: u128, rid: &str, request: &Json) -> (out: Vec<Outbound>)
        requires
            wf(old(self)@),
        ensures
            wf(final(self)@),
            final(self)@.stamp >= old(self)@.stamp,
            registration_post(old(self)@, final(self)@, conn, rid@, request@, sent(out@)),
    {
        let module_id = match request.get_str("moduleId") {
            Some(s) => s,
            None => {
                return single(conn, error_message(rid, MALFORMED_REQUEST));
            },
        };
        let version_text = match request.get_str("version") {
            Some(s) => s,
            None => {
                return single(conn, error_message(rid, MALFORMED_REQUEST));
            },
        };
        let deps = match request.get("dependencies") {
            Some(Json::Object(fields)) => match parse_dependencies(fields) {
                Some(v) => v,
                None => {
                    return single(conn, error_message(rid, MALFORMED_REQUEST));
                },
            },
            _ => {
                proof {
                    assert(deps_object(request@) =~= Seq::empty());
                }
                let v: Vec<(String, Requirement)> = Vec::new();
                assert(dep_views(v@) =~= dep_list(deps_object(request@)));
                v
            },
        };
        let version = match SemanticVersion::parse(version_text) {
            Some(v) => v,
            None => {
                return single(conn, error_message(rid, MALFORMED_REQUEST));
            },
        };
        if self.position_of_id(module_id).is_some() || self.position_of_uuid(conn).is_some() {
            return single(conn, error_message(rid, DUPLICATE_MODULE));
        }
        let ghost a = self@;
        let ghost nm = new_module(conn, request@);
        let no_deps = deps.len() == 0;
        let mut module = Module::new(conn, String::from_str(module_id), version);
        module.set_dependencies(deps);
        if no_deps {
            module.set_registered(true);
        }
        assert(module@ == nm);
        let mut out = single(conn, reply_message(rid, REGISTER_MODULE_RESPONSE));
        let ghost first = sent(out@);
        let name = self.name.clone();
        if no_deps {
            self.trigger_hook_on(name.as_str(), conn, "activated", Json::empty_object(), &mut out);
        }
        let ghost head = sent(out@);
        self.modules.push(module);
        proof {
            assert(self@.modules =~= a.modules.push(nm));
            let mods = self@.modules;
            assert forall|i: int, j: int| 0 <= i < mods.len() && 0 <= j < mods.len() && i != j implies #[trigger] mods[i].id
                != #[trigger] mods[j].id by {
                if i == a.modules.len() {
                    assert(a.modules[j].id != nm.id);
                } else if j == a.modules.len() {
                    assert(a.modules[i].id != nm.id);
                }
            }
            assert forall|i: int, j: int| 0 <= i < mods.len() && 0 <= j < mods.len() && i != j implies #[trigger] mods[i].uuid
                != #[trigger] mods[j].uuid by {
                if i == a.modules.len() {
                    assert(a.modules[j].uuid != conn);
                } else if j == a.modules.len() {
                    assert(a.modules[i].uuid != conn);
                }
            }
            assert(wf(self@));
        }
        if no_deps {
            let data = Json::empty_object().with_field("moduleId", Json::string(module_id));
            proof {
                assert(crate::json::put(Seq::empty(), "moduleId"@, JsonView::Str(module_id@)) =~= seq![("moduleId"@, JsonView::Str(module_id@))]);
                assert(data@ == module_id_data(nm.id));
            }
            self.trigger_hook(name.as_str(), "moduleActivated", &data, false, &mut out);
        }
        let ghost mid = sent(out@);
        let ghost pushed = self@.modules;
        self.recalculate_all_module_dependencies(&mut out);
        proof {
            assert(pushed.last() == nm);
            assert(first == seq![(conn, reply_frame(rid@, REGISTER_MODULE_RESPONSE))]);
            if no_deps {
                assert(delivered(head, first, seq![conn], qualified(a.name, "activated"@), empty_object()));
                assert(engine_output(mid, sent(out@), pushed, a.name));
            }
            assert(registration_output(sent(out@), pushed, a.name, conn, rid@));
        }
        out
    }

    /// Declares a function on the caller's module.
    fn handle_declare_function(&mut self, conn: u128, rid: &str, request: &Json) -> (out: Vec<Outbound>)
        requires
            wf(old(self)@),
        ensures
            wf(final(self)@),
            final(self)@.stamp == old(self)@.stamp,
            declare_post(old(self)@, final(self)@, conn, rid@, request@, sent(out@)),
    {
        let c = match self.registered_caller(conn) {
            Some(c) => c,
            None => {
                return single(conn, error_message(rid, UNREGISTERED_MODULE));
            },
        };
        let function = match request.get_str("function") {
            Some(f) => f,
            None => {
                return single(conn, error_message(rid, MALFORMED_REQUEST));
            },
        };
        let ghost a = self@;
        if !self.modules[c].is_function_declared(function) {
            self.declare_on(c, String::from_str(function));
        }
        proof {
            assert(self@.modules =~= with_function(a.modules, c as int, function@));
            lemma_update_keeps(a.modules, c as int, self@.modules[c as int]);
        }
        single(conn, declare_reply_message(rid, function))
    }

    /// Makes the caller's module listen for a hook.
    fn handle_register_hook(&mut self, conn: u128, rid: &str, request: &Json) -> (out: Vec<Outbound>)
        requires
            wf(old(self)@),
        ensures
            wf(final(self)@),
            final(self)@.stamp == old(self)@.stamp,
            register_hook_post(old(self)@, final(self)@, conn, rid@, request@, sent(out@)),
    {
        let c = match self.registered_caller(conn) {
            Some(c) => c,
            None => {
                return single(conn, error_message(rid, UNREGISTERED_MODULE));
            },
        };
        let hook = match request.get_str("hook") {
            Some(h) => h,
            None => {
                return single(conn, error_message(rid, MALFORMED_REQUEST));
            },
        };
        let ghost a = self@;
        if !self.modules[c].is_hook_registered(hook) {
            self.listen_on(c, String::from_str(hook));
        }
        proof {
            assert(self@.modules =~= with_hook(a.modules, c as int, hook@));
            lemma_update_keeps(a.modules, c as int, self@.modules[c as int]);
        }
        single(conn, reply_message(rid, REGISTER_HOOK_RESPONSE))
    }

    /// Delivers the caller's hook to the modules that listen for it, then
    /// acknowledges the trigger.
    fn handle_trigger_hook(&mut self, conn: u128, rid: &str, request: &Json) -> (out: Vec<Outbound>)
        requires
            wf(old(self)@),
        ensures
            wf(final(self)@),
            final(self)@.stamp >= old(self)@.stamp,
            trigger_post(old(self)@, final(self)@, conn, rid@, request@, sent(out@)),
    {
        let c = match self.registered_caller(conn) {
            Some(c) => c,
            None => {
                return single(conn, error_message(rid, UNREGISTERED_MODULE));
            },
        };
        let hook = match request.get_str("hook") {
            Some(h) => h,
            None => {
                return single(conn, error_message(rid, MALFORMED_REQUEST));
            },
        };
        let data = match request.get("data") {
            Some(d) => if d.is_object() {
                d.copy()
            } else {
                Json::empty_object()
            },
            None => Json::empty_object(),
        };
        assert(data@ == hook_data(request@));
        let caller = self.modules[c].get_module_id().clone();
        let mut out: Vec<Outbound> = Vec::new();
        assert(sent(out@) =~= Seq::<(u128, JsonView)>::empty());
        self.trigger_hook(caller.as_str(), hook, &data, false, &mut out);
        let ghost fanned = sent(out@);
        out.push(Outbound { to: conn, frame: reply_message(rid, TRIGGER_HOOK_RESPONSE) });
        proof {
            assert(sent(out@).drop_last() =~= fanned);
            assert(fanned.subrange(0, 0) =~= Seq::<(u128, JsonView)>::empty());
        }
        out
    }

    /// Settles a pending call: the response goes back, unchanged, to the
    /// module that made the call, if it is still registered.
    fn handle_function_response(&mut self, conn: u128, rid: &str, request: Json) -> (out: Vec<Outbound>)
        requires
            wf(old(self)@),
        ensures
            wf(final(self)@),
            final(self)@.stamp == old(self)@.stamp,
            response_post(old(self)@, final(self)@, conn, rid@, request@, sent(out@)),
    {
        if self.registered_caller(conn).is_none() {
            return single(conn, error_message(rid, UNREGISTERED_MODULE));
        }
        let k = match self.position_of_origin(rid) {
            Some(k) => k,
            None => {
                return single(conn, error_message(rid, MALFORMED_REQUEST));
            },
        };
        let ghost a = self@;
        let (_, origin) = self.origins.remove(k);
        proof {
            assert(origin@ == a.origins[k as int].1);
            assert(origin_of(a, rid@) == Some(origin@));
            assert(self@.origins =~= a.origins.remove(k as int));
            let o = self@.origins;
            assert forall|i: int, j: int| 0 <= i < o.len() && 0 <= j < o.len() && i != j implies #[trigger] o[i].0
                != #[trigger] o[j].0 by {
                let ii = if i < k { i } else { i + 1 };
                let jj = if j < k { j } else { j + 1 };
                assert(o[i] == a.origins[ii]);
                assert(o[j] == a.origins[jj]);
            }
        }
        match self.position_of_id(origin.as_str()) {
            Some(t) => {
                if self.modules[t].is_registered() {
                    single(self.modules[t].get_module_uuid(), request)
                } else {
                    let none: Vec<Outbound> = Vec::new();
                    assert(sent(none@) =~= Seq::<(u128, JsonView)>::empty());
                    none
                }
            },
            None => {
                let none: Vec<Outbound> = Vec::new();
                assert(sent(none@) =~= Seq::<(u128, JsonView)>::empty());
                none
            },
        }
    }

    /// `listModules`: the summaries of the registered modules, then of the
    /// unregistered ones.
    pub fn list_modules(&self) -> (r: Json)
        ensures
            r@ == module_list(self@.modules),
    {
        let ghost mods = self@.modules;
        let n = self.modules.len();
        let mut items = Items::Nil;
        let mut pass: usize = 0;
        let ghost mut tail: Seq<JsonView> = Seq::empty();
        while pass < 2
            invariant
                pass <= 2,
                mods == self@.modules,
                n == mods.len(),
                pass == 0 ==> view_items(items) == tail && tail == Seq::<JsonView>::empty(),
                pass == 1 ==> view_items(items) == summaries_where(mods, false),
                pass == 2 ==> view_items(items) == summaries_where(mods, true) + summaries_where(mods, false),
            decreases 2 - pass,
        {
            let want = pass == 1;
            let ghost base = view_items(items);
            let mut i: usize = n;
            proof {
                assert(mods.subrange(n as int, n as int) =~= Seq::<ModuleView>::empty());
            }
            while i > 0
                invariant
                    i <= n,
                    n == mods.len(),
                    mods == self@.modules,
                    view_items(items) == summaries_where(mods.subrange(i as int, n as int), want) + base,
                decreases i,
            {
                i -= 1;
                let ghost rest = view_items(items);
                proof {
                    let sub = mods.subrange(i as int, n as int);
                    assert(sub.drop_first() =~= mods.subrange(i + 1, n as int));
                    assert(sub[0] == mods[i as int]);
                }
                if self.modules[i].is_registered() == want {
                    items = Items::Cons(Box::new(self.modules[i].summary()), Box::new(items));
                    assert(view_items(items) =~= summaries_where(mods.subrange(i as int, n as int), want) + base);
                }
            }
            proof {
                assert(mods.subrange(0, n as int) =~= mods);
                if pass == 0 {
                    assert(view_items(items) =~= summaries_where(mods, false));
                }
            }
            pass += 1;
        }
        Json::Array(items)
    }

    /// `getModuleInfo`: the summary of the module named by the `moduleId`
    /// member of `args`, or null.
    pub fn get_module_info(&self, args: &Json) -> (r: Json)
        requires
            wf(self@),
        ensures
            r@ == module_info(self@, args@),
    {
        match args.get_str("moduleId") {
            None => Json::Null,
            Some(id) => match self.position_of_id(id) {
                Some(i) => self.modules[i].summary(),
                None => Json::Null,
            },
        }
    }

    /// Forwards a call to its target, or answers it when the target is the
    /// broker itself.
    fn handle_function_call(&mut self, conn: u128, rid: &str, request: &Json) -> (out: Vec<Outbound>)
        requires
            wf(old(self)@),
        ensures
            wf(final(self)@),
            final(self)@.stamp == old(self)@.stamp,
            call_post(old(self)@, final(self)@, conn, rid@, request@, sent(out@)),
    {
        let c = match self.registered_caller(conn) {
            Some(c) => c,
            None => {
                return single(conn, error_message(rid, UNREGISTERED_MODULE));
            },
        };
        let function = match request.get_str("function") {
            Some(f) => f,
            None => {
                return single(conn, error_message(rid, MALFORMED_REQUEST));
            },
        };
        let (module_name, function_name) = match is_function_name(function) {
            Some(p) => p,
            None => {
                return single(conn, error_message(rid, UNKNOWN_FUNCTION));
            },
        };
        proof {
            let d = split_point(function@);
            assert(splits_at(function@, d));
            lemma_split_unique(function@, d, module_name@.len() as int);
            assert(target_module(function@) == module_name@);
            assert(target_function(function@) == function_name@);
        }
        let t = match self.position_of_id(module_name.as_str()) {
            Some(t) => t,
            None => {
                return single(conn, error_message(rid, UNKNOWN_MODULE));
            },
        };
        if !self.modules[t].is_registered() {
            return single(conn, error_message(rid, UNKNOWN_MODULE));
        }
        if !self.modules[t].is_function_declared(function_name.as_str()) {
            return single(conn, error_message(rid, UNKNOWN_FUNCTION));
        }
        let caller = self.modules[c].get_module_id().clone();
        let existing = self.position_of_origin(rid);
        match existing {
            Some(k) => {
                if !same_text(self.origins[k].1.as_str(), caller.as_str()) {
                    return single(conn, error_message(rid, INVALID_REQUEST_ID));
                }
            },
            None => {},
        }
        let ghost a = self@;
        proof {
            assert((t == 0) == (module_name@ == a.name)) by {
                if module_name@ == a.name && t != 0 {
                    assert(a.modules[0].id == a.modules[t as int].id);
                }
            }
        }
        if t == 0 {
            let result = if same_text(function_name.as_str(), "listModules") {
                self.list_modules()
            } else {
                match request.get("arguments") {
                    Some(args) => self.get_module_info(args),
                    None => self.get_module_info(&Json::Null),
                }
            };
            match existing {
                Some(k) => {
                    self.origins.remove(k);
                    proof {
                        assert(self@.origins =~= a.origins.remove(k as int));
                        let o = self@.origins;
                        assert forall|i: int, j: int| 0 <= i < o.len() && 0 <= j < o.len() && i != j implies #[trigger] o[i].0
                            != #[trigger] o[j].0 by {
                            let ii = if i < k { i } else { i + 1 };
                            let jj = if j < k { j } else { j + 1 };
                            assert(o[i] == a.origins[ii]);
                            assert(o[j] == a.origins[jj]);
                        }
                    }
                },
                None => {},
            }
            single(conn, call_reply_message(rid, result))
        } else {
            if existing.is_none() {
                self.origins.push((String::from_str(rid), caller.clone()));
                proof {
                    assert(self@.origins =~= a.origins.push((rid@, caller@)));
                    let o = self@.origins;
                    assert forall|i: int, j: int| 0 <= i < o.len() && 0 <= j < o.len() && i != j implies #[trigger] o[i].0
                        != #[trigger] o[j].0 by {
                        if i == a.origins.len() {
                            assert(a.origins[j].0 != rid@);
                        } else if j == a.origins.len() {
                            assert(a.origins[i].0 != rid@);
                        }
                    }
                }
            }
            let args_ok = match request.get("arguments") {
                Some(args) => args.is_object(),
                None => false,
            };
            let mut forward = request.copy();
            if !args_ok {
                forward = forward.with_field("arguments", Json::empty_object());
            }
            let forward = forward.with_field("function", Json::Str(function_name));
            let forward = forward.with_field("caller", Json::Str(caller));
            single(self.modules[t].get_module_uuid(), forward)
        }
    }

    /// Handles one request frame that arrived on connection `conn`, with the
    /// clock reading `now` (nanoseconds); returns the frames to write.
    pub fn handle_request(&mut self, conn: u128, request: Json, now: u128) -> (out: Vec<Outbound>)
        requires
            wf(old(self)@),
        ensures
            wf(final(self)@),
            final(self)@.stamp >= old(self)@.stamp,
            request_post(old(self)@, final(self)@, conn, request@, sent(out@)),
            origins_from_registered_caller(old(self)@, final(self)@, conn),
            hooks_from_registered_owner(old(self)@, final(self)@, conn),
            shallow(final(self)@.modules) && consistent(old(self)@.modules) ==> consistent(final(self)@.modules),
    {
        let ghost a = self@;
        self.advance_clock(now);
        let ghost a1 = self@;
        let kind: u64 = match request.get("type") {
            Some(Json::Number(JsonNumber::PosInt(k))) => *k,
            Some(Json::Number(JsonNumber::NegInt(k))) => if *k >= 0 {
                *k as u64
            } else {
                u64::MAX
            },
            _ => {
                let r = single(conn, error_message("undefined", UNKNOWN_REQUEST));
                proof { self.lemma_unchanged_laws(a, conn); }
                return r;
            },
        };
        let rid = match request.get_str("requestId") {
            Some(r) => String::from_str(r),
            None => {
                let r = single(conn, error_message("undefined", INVALID_REQUEST_ID));
                proof { self.lemma_unchanged_laws(a, conn); }
                return r;
            },
        };
        proof {
            let t = request_type(request@)->Some_0;
            assert(request_type(request@) is Some);
            assert(t == kind as int || (t < 0 && kind == u64::MAX));
        }
        let out = if kind == REGISTER_MODULE_REQUEST {
            let out = self.handle_module_registration(conn, rid.as_str(), &request);
            proof {
                if !registration_malformed(request@) && !(is_tracked(a1, str_field(request@, "moduleId"@)->Some_0) || bound(a1, conn)) {
                    let m = a.modules.push(new_module(conn, request@));
                    lemma_settle_same_but_flags(m);
                    lemma_same_but_flags(m, self@.modules);
                    lemma_shallow_same_but_flags(m, self@.modules);
                    if shallow(self@.modules) {
                        assert(free_registered(m)) by {
                            assert forall|i: int| 0 <= i < m.len() && #[trigger] m[i].deps.len() == 0 implies m[i].registered by {
                                if i < a.modules.len() {
                                    assert(m[i] == a.modules[i]);
                                }
                            }
                        }
                        lemma_settle_consistent(m);
                    }
                    assert forall|i: int| 0 <= i < self@.modules.len() && (#[trigger] self@.modules[i]).hooks.len() > 0 implies exists|j: int|
                        0 <= j < a.modules.len() && a.modules[j].id == self@.modules[i].id && (a.modules[j].hooks
                            == self@.modules[i].hooks || (conn_registered(a, conn) && j == conn_index(a, conn))) by {
                        assert(self@.modules[i].hooks == m[i].hooks);
                        assert(self@.modules[i].id == m[i].id);
                        if i < a.modules.len() {
                            assert(m[i] == a.modules[i]);
                        }
                    }
                } else {
                    self.lemma_unchanged_laws(a, conn);
                }
                assert forall|k: int| 0 <= k < self@.origins.len() implies a.origins.contains(#[trigger] self@.origins[k]) by {
                    assert(self@.origins[k] == a.origins[k]);
                }
            }
            out
        } else if kind == DECLARE_FUNCTION_REQUEST {
            let out = self.handle_declare_function(conn, rid.as_str(), &request);
            proof { self.lemma_update_laws(a, conn, false, self@.modules[conn_index(a, conn)]); }
            out
        } else if kind == FUNCTION_CALL_REQUEST {
            let out = self.handle_function_call(conn, rid.as_str(), &request);
            proof {
                self.lemma_unchanged_modules_laws(a, conn);
                assert forall|k: int| 0 <= k < self@.origins.len() implies a.origins.contains(#[trigger] self@.origins[k])
                    || (conn_registered(a, conn) && self@.origins[k].1 == caller_id(a, conn)) by {
                    if self@.origins.len() > a.origins.len() {
                        if k < a.origins.len() {
                            assert(self@.origins[k] == a.origins[k]);
                        }
                    } else if self@.origins.len() < a.origins.len() {
                        let r = origin_index(a, rid@);
                        let kk = if k < r { k } else { k + 1 };
                        assert(self@.origins[k] == a.origins[kk]);
                    } else {
                        assert(self@.origins[k] == a.origins[k]);
                    }
                }
            }
            out
        } else if kind == FUNCTION_CALL_RESPONSE {
            let out = self.handle_function_response(conn, rid.as_str(), request);
            proof {
                self.lemma_unchanged_modules_laws(a, conn);
                assert forall|k: int| 0 <= k < self@.origins.len() implies a.origins.contains(#[trigger] self@.origins[k]) by {
                    if self@.origins.len() < a.origins.len() {
                        let r = origin_index(a, rid@);
                        let kk = if k < r { k } else { k + 1 };
                        assert(self@.origins[k] == a.origins[kk]);
                    } else {
                        assert(self@.origins[k] == a.origins[k]);
                    }
                }
            }
            out
        } else if kind == REGISTER_HOOK_REQUEST {
            let out = self.handle_register_hook(conn, rid.as_str(), &request);
            proof { self.lemma_update_laws(a, conn, true, self@.modules[conn_index(a, conn)]); }
            out
        } else if kind == TRIGGER_HOOK_REQUEST {
            let out = self.handle_trigger_hook(conn, rid.as_str(), &request);
            proof { self.lemma_unchanged_laws(a, conn); }
            out
        } else {
            let out = single(conn, error_message(rid.as_str(), UNKNOWN_REQUEST));
            proof { self.lemma_unchanged_laws(a, conn); }
            out
        };
        out
    }

    /// The laws hold of a request that left the registry as it was.
    proof fn lemma_unchanged_laws(&self, a: BrokerView, conn: u128)
        requires
            self@.modules == a.modules,
            self@.origins == a.origins,
        ensures
            origins_from_registered_caller(a, self@, conn),
            hooks_from_registered_owner(a, self@, conn),
            consistent(a.modules) ==> consistent(self@.modules),
    {
        self.lemma_unchanged_modules_laws(a, conn);
        assert forall|k: int| 0 <= k < self@.origins.len() implies a.origins.contains(#[trigger] self@.origins[k]) by {
            assert(self@.origins[k] == a.origins[k]);
        }
    }

    /// The hook and pool laws hold of a request that left the pools as they were.
    proof fn lemma_unchanged_modules_laws(&self, a: BrokerView, conn: u128)
        requires
            self@.modules == a.modules,
        ensures
            hooks_from_registered_owner(a, self@, conn),
            consistent(a.modules) ==> consistent(self@.modules),
    {
        assert forall|i: int| 0 <= i < self@.modules.len() && (#[trigger] self@.modules[i]).hooks.len() > 0 implies exists|j: int|
            0 <= j < a.modules.len() && a.modules[j].id == self@.modules[i].id && (a.modules[j].hooks
                == self@.modules[i].hooks || (conn_registered(a, conn) && j == conn_index(a, conn))) by {
            assert(a.modules[i] == self@.modules[i]);
        }
    }

    /// The laws hold of a declare-function (`hooks` false) or register-hook
    /// (`hooks` true) request.
    proof fn lemma_update_laws(&self, a: BrokerView, conn: u128, hooks: bool, m: ModuleView)
        requires
            self@.origins == a.origins,
            self@.modules == a.modules || (conn_registered(a, conn)
                && self@.modules == a.modules.update(conn_index(a, conn), m) && m.id == a.modules[conn_index(a, conn)].id
                    && m.uuid == a.modules[conn_index(a, conn)].uuid && m.registered == a.modules[conn_index(a, conn)].registered
                    && m.version == a.modules[conn_index(a, conn)].version && m.deps == a.modules[conn_index(a, conn)].deps
                    && (!hooks ==> m.hooks == a.modules[conn_index(a, conn)].hooks)),
        ensures
            origins_from_registered_caller(a, self@, conn),
            hooks_from_registered_owner(a, self@, conn),
            consistent(a.modules) ==> consistent(self@.modules),
    {
        if self@.modules == a.modules {
            self.lemma_unchanged_laws(a, conn);
        } else {
            let c = conn_index(a, conn);
            lemma_update_keeps(a.modules, c, m);
            assert forall|k: int| 0 <= k < self@.origins.len() implies a.origins.contains(#[trigger] self@.origins[k]) by {
                assert(self@.origins[k] == a.origins[k]);
            }
            assert forall|i: int| 0 <= i < self@.modules.len() && (#[trigger] self@.modules[i]).hooks.len() > 0 implies exists|j: int|
                0 <= j < a.modules.len() && a.modules[j].id == self@.modules[i].id && (a.modules[j].hooks
                    == self@.modules[i].hooks || (conn_registered(a, conn) && j == conn_index(a, conn))) by {
                if i == c {
                    assert(a.modules[c].id == self@.modules[i].id);
                } else {
                    assert(a.modules[i] == self@.modules[i]);
                }
            }
        }
    }

    /// A fresh connection id: non-zero and bound to no tracked module. Drawn
    /// at random until one is free; should every draw be taken, the smallest
    /// free id is used.
    pub fn new_connection_id(&self) -> (r: u128)
        requires
            wf(self@),
        ensures
            r != 0,
            !bound(self@, r),
    {
        let mut attempt: u32 = 0;
        while attempt < 64
            invariant
                wf(self@),
            decreases 64 - attempt,
        {
            let candidate: u128 = rand::random::<u128>();
            if candidate != 0 && self.position_of_uuid(candidate).is_none() {
                return candidate;
            }
            attempt += 1;
        }
        let n = self.modules.len() as u128;
        assert(n < u128::MAX);
        let mut candidate: u128 = 1;
        while candidate <= n
            invariant
                wf(self@),
                n < u128::MAX,
                n == self@.modules.len(),
                1 <= candidate <= n + 1,
                forall|d: int| 1 <= d < candidate ==> #[trigger] bound(self@, d as u128),
            decreases n + 1 - candidate,
        {
            if self.position_of_uuid(candidate).is_none() {
                return candidate;
            }
            candidate += 1;
        }
        proof {
            lemma_free_connection_exists(self@);
            let d = choose|d: int| 1 <= d <= self@.modules.len() && !#[trigger] bound(self@, d as u128);
            assert(bound(self@, d as u128));
        }
        0
    }

    /// The modules of the registered pool, in order.
    pub fn get_registered_modules(&self) -> (r: Vec<&Module>)
        ensures
            r@.map_values(|m: &Module| m@) == self@.modules.filter(in_pool(true)),
    {
        self.modules_where(true)
    }

    /// The modules of the unregistered pool, in order.
    pub fn get_unregistered_modules(&self) -> (r: Vec<&Module>)
        ensures
            r@.map_values(|m: &Module| m@) == self@.modules.filter(in_pool(false)),
    {
        self.modules_where(false)
    }

    fn modules_where(&self, registered: bool) -> (r: Vec<&Module>)
        ensures
            r@.map_values(|m: &Module| m@) == self@.modules.filter(in_pool(registered)),
    {
        let ghost mods = self@.modules;
        let ghost pred = in_pool(registered);
        let mut r: Vec<&Module> = Vec::new();
        let mut i: usize = 0;
        proof {
            reveal(Seq::filter);
            assert(mods.subrange(0, 0).filter(pred) =~= Seq::empty());
            assert(r@.map_values(|m: &Module| m@) =~= Seq::empty());
        }
        while i < self.modules.len()
            invariant
                mods == self@.modules,
                mods.len() == self.modules@.len(),
                i <= self.modules.len(),
                pred == in_pool(registered),
                r@.map_values(|m: &Module| m@) == mods.subrange(0, i as int).filter(pred),
            decreases self.modules.len() - i,
        {
            proof {
                reveal(Seq::filter);
                assert(mods.subrange(0, i + 1).drop_last() =~= mods.subrange(0, i as int));
                assert(mods.subrange(0, i + 1).last() == mods[i as int]);
            }
            let ghost before = r@.map_values(|m: &Module| m@);
            if self.modules[i].is_registered() == registered {
                r.push(&self.modules[i]);
                assert(r@.map_values(|m: &Module| m@) =~= before.push(mods[i as int]));
            }
            i += 1;
        }
        proof {
            assert(mods.subrange(0, mods.len() as int) =~= mods);
        }
        r
    }

    /// The module with the id `module_id`, in either pool.
    pub fn get_module_by_id(&self, module_id: &str) -> (r: Option<&Module>)
        requires
            wf(self@),
        ensures
            r is Some == is_tracked(self@, module_id@),
            r matches Some(m) ==> m@ == self@.modules[id_index(self@, module_id@)],
    {
        match self.position_of_id(module_id) {
            Some(i) => Some(&self.modules[i]),
            None => None,
        }
    }

    /// The module that issued the pending call `request_id`, if any.
    pub fn get_request_origin(&self, request_id: &str) -> (r: Option<&str>)
        requires
            wf(self@),
        ensures
            r matches Some(s) ==> origin_of(self@, request_id@) == Some(s@),
            r is None ==> origin_of(self@, request_id@) is None,
    {
        match self.position_of_origin(request_id) {
            Some(k) => Some(self.origins[k].1.as_str()),
            None => None,
        }
    }

    /// The number of pending calls in the request-origin ledger.
    pub fn pending_request_count(&self) -> (r: usize)
        ensures
            r == self@.origins.len(),
    {
        self.origins.len()
    }
}

} // verus!
