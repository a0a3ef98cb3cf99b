//! A module tracked by the broker: its identity, version, dependencies, the
//! functions it declared and the hooks it listens for.
use vstd::prelude::*;
use vstd::string::StringExecFns;
use crate::json::{same_text, view_items, Fields, Items, Json, JsonView};
use crate::version::{Requirement, SemanticVersion};

verus! {

/// The mathematical value of a [`Module`].
pub struct ModuleView {
    pub registered: bool,
    pub uuid: u128,
    pub id: Seq<char>,
    pub version: Seq<char>,
    /// Pairs of a module id and the requirement on its version.
    pub deps: Seq<(Seq<char>, Seq<char>)>,
    pub functions: Seq<Seq<char>>,
    /// Fully qualified hook names (`owner.hook`).
    pub hooks: Seq<Seq<char>>,
}

/// A module tracked by the broker. Its outbound channel is addressed by its
/// connection id (`module_uuid`).
pub struct Module {
    registered: bool,
    module_uuid: u128,
    module_id: String,
    version: SemanticVersion,
    dependencies: Vec<(String, Requirement)>,
    declared_functions: Vec<String>,
    registered_hooks: Vec<String>,
}

pub open spec fn texts(v: Seq<String>) -> Seq<Seq<char>> {
    v.map_values(|s: String| s@)
}

pub open spec fn dep_views(v: Seq<(String, Requirement)>) -> Seq<(Seq<char>, Seq<char>)> {
    v.map_values(|d: (String, Requirement)| (d.0@, d.1@))
}

impl View for Module {
    type V = ModuleView;

    closed spec fn view(&self) -> ModuleView {
        ModuleView {
            registered: self.registered,
            uuid: self.module_uuid,
            id: self.module_id@,
            version: self.version@,
            deps: dep_views(self.dependencies@),
            functions: texts(self.declared_functions@),
            hooks: texts(self.registered_hooks@),
        }
    }
}

/// Strings as JSON string values.
pub open spec fn text_items(v: Seq<Seq<char>>) -> Seq<JsonView> {
    v.map_values(|s: Seq<char>| JsonView::Str(s))
}

/// Dependencies as the members of a JSON object.
pub open spec fn dep_members(d: Seq<(Seq<char>, Seq<char>)>) -> Seq<(Seq<char>, JsonView)> {
    d.map_values(|p: (Seq<char>, Seq<char>)| (p.0, JsonView::Str(p.1)))
}

/// The summary of a module that introspection answers with.
pub open spec fn summary(m: ModuleView) -> JsonView {
    JsonView::Object(
        seq![
            ("moduleId"@, JsonView::Str(m.id)),
            ("version"@, JsonView::Str(m.version)),
            ("dependencies"@, JsonView::Object(dep_members(m.deps))),
            ("registered"@, JsonView::Bool(m.registered)),
            ("declaredFunctions"@, JsonView::Array(text_items(m.functions))),
            ("registeredHooks"@, JsonView::Array(text_items(m.hooks))),
        ],
    )
}

fn string_array(v: &Vec<String>) -> (r: Items)
    ensures
        view_items(r) == text_items(texts(v@)),
{
    let mut items = Items::Nil;
    let mut i: usize = v.len();
    while i > 0
        invariant
            i <= v.len(),
            view_items(items) == text_items(texts(v@)).subrange(i as int, v@.len() as int),
        decreases i,
    {
        i -= 1;
        assert(text_items(texts(v@))[i as int] == JsonView::Str(v@[i as int]@));
        let ghost prev = view_items(items);
        let head = Json::Str(v[i].clone());
        assert(head@ == JsonView::Str(v@[i as int]@));
        items = Items::Cons(Box::new(head), Box::new(items));
        assert(view_items(items) == seq![JsonView::Str(v@[i as int]@)] + prev);
        assert(view_items(items) =~= text_items(texts(v@)).subrange(i as int, v@.len() as int));
    }
    assert(text_items(texts(v@)).subrange(0, v@.len() as int) =~= text_items(texts(v@)));
    items
}

fn dependency_object(v: &Vec<(String, crate::version::Requirement)>) -> (r: Fields)
    ensures
        r@ == dep_members(dep_views(v@)),
{
    let mut fields = Fields::Nil;
    let mut i: usize = v.len();
    while i > 0
        invariant
            i <= v.len(),
            fields@ == dep_members(dep_views(v@)).subrange(i as int, v@.len() as int),
        decreases i,
    {
        i -= 1;
        let key = v[i].0.clone();
        let value = Json::string(v[i].1.as_str());
        assert(dep_members(dep_views(v@))[i as int] == (v@[i as int].0@, JsonView::Str(v@[i as int].1@)));
        fields = Fields::Cons(key, Box::new(value), Box::new(fields));
        assert(fields@ =~= dep_members(dep_views(v@)).subrange(i as int, v@.len() as int));
    }
    assert(dep_members(dep_views(v@)).subrange(0, v@.len() as int) =~= dep_members(dep_views(v@)));
    fields
}

/// The summary of `module`: its id, version, dependencies, registered flag,
/// declared functions and hooks.
pub fn get_object_from_module(module: &Module) -> (r: Json)
    ensures
        r@ == summary(module@),
{
    module.summary()
}

/// Whether `name` occurs in `v`, compared by characters.
pub fn contains_text(v: &Vec<String>, name: &str) -> (r: bool)
    ensures
        r == texts(v@).contains(name@),
{
    let mut i: usize = 0;
    while i < v.len()
        invariant
            i <= v.len(),
            forall|j: int| 0 <= j < i ==> v@[j]@ != name@,
        decreases v.len() - i,
    {
        if same_text(v[i].as_str(), name) {
            assert(texts(v@)[i as int] == name@);
            return true;
        }
        i += 1;
    }
    proof {
        if texts(v@).contains(name@) {
            let j = choose|j: int| 0 <= j < texts(v@).len() && texts(v@)[j] == name@;
            assert(v@[j]@ == name@);
        }
    }
    false
}

impl Module {
    /// A module that is not registered yet and has no dependencies, declared
    /// functions or hooks.
    pub fn new(module_uuid: u128, module_id: String, version: SemanticVersion) -> (r: Module)
        ensures
            r@ == (ModuleView {
                registered: false,
                uuid: module_uuid,
                id: module_id@,
                version: version@,
                deps: Seq::empty(),
                functions: Seq::empty(),
                hooks: Seq::empty(),
            }),
    {
        let r = Module {
            registered: false,
            module_uuid,
            module_id,
            version,
            dependencies: Vec::new(),
            declared_functions: Vec::new(),
            registered_hooks: Vec::new(),
        };
        assert(dep_views(r.dependencies@) =~= Seq::empty());
        assert(texts(r.declared_functions@) =~= Seq::empty());
        assert(texts(r.registered_hooks@) =~= Seq::empty());
        r
    }

    pub fn is_registered(&self) -> (r: bool)
        ensures
            r == self@.registered,
    {
        self.registered
    }

    pub fn set_registered(&mut self, registered: bool)
        ensures
            final(self)@ == (ModuleView { registered, ..old(self)@ }),
    {
        self.registered = registered;
    }

    pub fn get_module_id(&self) -> (r: &String)
        ensures
            r@ == self@.id,
    {
        &self.module_id
    }

    pub fn set_module_id(&mut self, module_id: String)
        ensures
            final(self)@ == (ModuleView { id: module_id@, ..old(self)@ }),
    {
        self.module_id = module_id;
    }

    pub fn get_module_uuid(&self) -> (r: u128)
        ensures
            r == self@.uuid,
    {
        self.module_uuid
    }

    pub fn set_module_uuid(&mut self, module_uuid: u128)
        ensures
            final(self)@ == (ModuleView { uuid: module_uuid, ..old(self)@ }),
    {
        self.module_uuid = module_uuid;
    }

    pub fn get_version(&self) -> (r: &SemanticVersion)
        ensures
            r@ == self@.version,
    {
        &self.version
    }

    pub fn set_version(&mut self, version: SemanticVersion)
        ensures
            final(self)@ == (ModuleView { version: version@, ..old(self)@ }),
    {
        self.version = version;
    }

    pub fn set_dependencies(&mut self, dependencies: Vec<(String, Requirement)>)
        ensures
            final(self)@ == (ModuleView { deps: dep_views(dependencies@), ..old(self)@ }),
    {
        self.dependencies = dependencies;
    }

    pub fn get_dependencies(&self) -> (r: &Vec<(String, Requirement)>)
        ensures
            dep_views(r@) == self@.deps,
    {
        &self.dependencies
    }

    /// The requirement on the dependency `module_id`, if this module has one.
    pub fn get_dependency(&self, module_id: &str) -> (r: Option<&Requirement>)
        ensures
            r matches Some(q) ==> exists|i: int|
                0 <= i < self@.deps.len() && self@.deps[i] == (module_id@, q@),
            r is None ==> forall|i: int| 0 <= i < self@.deps.len() ==> self@.deps[i].0 != module_id@,
    {
        let mut i: usize = 0;
        while i < self.dependencies.len()
            invariant
                i <= self.dependencies.len(),
                forall|j: int| 0 <= j < i ==> self.dependencies@[j].0@ != module_id@,
            decreases self.dependencies.len() - i,
        {
            if same_text(self.dependencies[i].0.as_str(), module_id) {
                assert(self@.deps[i as int] == (module_id@, self.dependencies@[i as int].1@));
                return Some(&self.dependencies[i].1);
            }
            i += 1;
        }
        None
    }

    /// Adds `function_name` to the declared functions.
    pub fn declare_function(&mut self, function_name: String)
        ensures
            final(self)@ == (ModuleView {
                functions: old(self)@.functions.push(function_name@),
                ..old(self)@
            }),
    {
        self.declared_functions.push(function_name);
        assert(texts(self.declared_functions@) =~= texts(old(self).declared_functions@).push(
            function_name@,
        ));
    }

    pub fn is_function_declared(&self, function_name: &str) -> (r: bool)
        ensures
            r == self@.functions.contains(function_name@),
    {
        contains_text(&self.declared_functions, function_name)
    }

    /// Adds `hook_name` to the hooks this module listens for.
    pub fn register_hook(&mut self, hook_name: String)
        ensures
            final(self)@ == (ModuleView { hooks: old(self)@.hooks.push(hook_name@), ..old(self)@ }),
    {
        self.registered_hooks.push(hook_name);
        assert(texts(self.registered_hooks@) =~= texts(old(self).registered_hooks@).push(
            hook_name@,
        ));
    }

    /// The summary of this module; see [`get_object_from_module`].
    pub fn summary(&self) -> (r: Json)
        ensures
            r@ == summary(self@),
    {
        let hooks = Json::Array(string_array(&self.registered_hooks));
        let functions = Json::Array(string_array(&self.declared_functions));
        let deps = Json::Object(dependency_object(&self.dependencies));
        let f = Fields::prepend("registeredHooks", hooks, Fields::Nil);
        let f = Fields::prepend("declaredFunctions", functions, f);
        let f = Fields::prepend("registered", Json::Bool(self.registered), f);
        let f = Fields::prepend("dependencies", deps, f);
        let f = Fields::prepend("version", Json::string(self.version.as_str()), f);
        let f = Fields::prepend("moduleId", Json::Str(self.module_id.clone()), f);
        let r = Json::Object(f);
        assert(f@ =~= seq![
            ("moduleId"@, JsonView::Str(self@.id)),
            ("version"@, JsonView::Str(self@.version)),
            ("dependencies"@, JsonView::Object(dep_members(self@.deps))),
            ("registered"@, JsonView::Bool(self@.registered)),
            ("declaredFunctions"@, JsonView::Array(text_items(self@.functions))),
            ("registeredHooks"@, JsonView::Array(text_items(self@.hooks))),
        ]);
        r
    }

    pub fn is_hook_registered(&self, hook_name: &str) -> (r: bool)
        ensures
            r == self@.hooks.contains(hook_name@),
    {
        contains_text(&self.registered_hooks, hook_name)
    }
}

} // verus!
