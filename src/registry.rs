//! The registered and unregistered pools as one sequence of modules, each
//! carrying its `registered` flag, and the dependency engine's rules over it.
use vstd::prelude::*;
use crate::module::ModuleView;
use crate::version::semver_matches;

verus! {

/// `p` is a registered module whose id and version meet the dependency `dep`.
pub open spec fn provides(p: ModuleView, dep: (Seq<char>, Seq<char>)) -> bool {
    p.registered && p.id == dep.0 && semver_matches(dep.1, p.version)
}

/// Some registered module of `mods` meets `dep`.
pub open spec fn has_provider(mods: Seq<ModuleView>, dep: (Seq<char>, Seq<char>)) -> bool {
    exists|j: int| 0 <= j < mods.len() && provides(mods[j], dep)
}

/// Every dependency of `m` is met by a registered module of `mods`.
pub open spec fn satisfied_by(mods: Seq<ModuleView>, m: ModuleView) -> bool {
    forall|k: int| 0 <= k < m.deps.len() ==> has_provider(mods, #[trigger] m.deps[k])
}

pub open spec fn with_registered(m: ModuleView, registered: bool) -> ModuleView {
    ModuleView { registered, ..m }
}

/// The promotion sweep: every unregistered module whose dependencies the
/// registered pool meets becomes registered; all are judged against `mods`.
pub open spec fn promote(mods: Seq<ModuleView>) -> Seq<ModuleView> {
    Seq::new(
        mods.len(),
        |i: int| with_registered(mods[i], mods[i].registered || satisfied_by(mods, mods[i])),
    )
}

/// The demotion sweep: every registered module whose dependencies the
/// registered pool no longer meets becomes unregistered.
pub open spec fn demote(mods: Seq<ModuleView>) -> Seq<ModuleView> {
    Seq::new(
        mods.len(),
        |i: int| with_registered(mods[i], mods[i].registered && satisfied_by(mods, mods[i])),
    )
}

/// One run of the dependency engine: promotion, then demotion.
pub open spec fn settle(mods: Seq<ModuleView>) -> Seq<ModuleView> {
    demote(promote(mods))
}

/// A module is registered exactly when its dependencies are met.
pub open spec fn consistent(mods: Seq<ModuleView>) -> bool {
    forall|i: int| 0 <= i < mods.len() ==> #[trigger] mods[i].registered == satisfied_by(mods, mods[i])
}

/// No tracked module depends on a tracked module that has dependencies of
/// its own.
pub open spec fn shallow(mods: Seq<ModuleView>) -> bool {
    forall|i: int, k: int, j: int|
        0 <= i < mods.len() && 0 <= k < mods[i].deps.len() && 0 <= j < mods.len() && #[trigger] mods[j].id
            == #[trigger] mods[i].deps[k].0 ==> mods[j].deps.len() == 0
}

/// Every module without dependencies is registered.
pub open spec fn free_registered(mods: Seq<ModuleView>) -> bool {
    forall|i: int| 0 <= i < mods.len() && #[trigger] mods[i].deps.len() == 0 ==> mods[i].registered
}

/// Module ids are unique.
pub open spec fn ids_unique(mods: Seq<ModuleView>) -> bool {
    forall|i: int, j: int| 0 <= i < mods.len() && 0 <= j < mods.len() && i != j ==> #[trigger] mods[i].id != #[trigger] mods[j].id
}

/// Connection ids are unique.
pub open spec fn uuids_unique(mods: Seq<ModuleView>) -> bool {
    forall|i: int, j: int|
        0 <= i < mods.len() && 0 <= j < mods.len() && i != j ==> #[trigger] mods[i].uuid != #[trigger] mods[j].uuid
}

/// `mods` and `other` differ at most in their `registered` flags.
pub open spec fn same_but_flags(mods: Seq<ModuleView>, other: Seq<ModuleView>) -> bool {
    &&& mods.len() == other.len()
    &&& forall|i: int| 0 <= i < mods.len() ==> #[trigger] with_registered(mods[i], other[i].registered) == other[i]
}

pub proof fn lemma_settle_same_but_flags(mods: Seq<ModuleView>)
    ensures
        same_but_flags(mods, promote(mods)),
        same_but_flags(promote(mods), settle(mods)),
        same_but_flags(mods, settle(mods)),
{
    let p = promote(mods);
    let f = settle(mods);
    assert forall|i: int| 0 <= i < mods.len() implies #[trigger] with_registered(mods[i], f[i].registered) == f[i] by {
        assert(with_registered(mods[i], p[i].registered) == p[i]);
        assert(with_registered(p[i], f[i].registered) == f[i]);
    }
}

/// The dependency engine keeps every dependency-free module registered.
pub proof fn lemma_settle_free_registered(mods: Seq<ModuleView>)
    requires
        free_registered(mods),
    ensures
        free_registered(settle(mods)),
{
    let p = promote(mods);
    let f = settle(mods);
    assert forall|i: int| 0 <= i < f.len() && #[trigger] f[i].deps.len() == 0 implies f[i].registered by {
        assert(p[i].deps == mods[i].deps);
        assert(satisfied_by(p, p[i]));
    }
}

/// After one run of the dependency engine, a module is registered exactly
/// when registered modules meet all its dependencies (by id and version),
/// provided no tracked module depends on a module with dependencies of its
/// own and every dependency-free module is registered. Longer chains of
/// dependencies are not settled by a single promotion and demotion sweep.
pub proof fn lemma_settle_consistent(mods: Seq<ModuleView>)
    requires
        shallow(mods),
        free_registered(mods),
    ensures
        consistent(settle(mods)),
{
    let p = promote(mods);
    let f = settle(mods);
    assert forall|i: int| 0 <= i < f.len() implies #[trigger] f[i].registered == satisfied_by(f, f[i]) by {
        assert(f[i].deps == mods[i].deps);
        assert(p[i].deps == mods[i].deps);
        if f[i].registered {
            assert forall|k: int| 0 <= k < f[i].deps.len() implies exists|j: int|
                0 <= j < f.len() && provides(f[j], #[trigger] f[i].deps[k]) by {
                let dep = f[i].deps[k];
                assert(p[i].deps[k] == dep);
                let j = choose|j: int| 0 <= j < p.len() && provides(p[j], p[i].deps[k]);
                assert(mods[j].id == mods[i].deps[k].0);
                assert(mods[j].deps.len() == 0);
                assert(p[j].deps.len() == 0);
                assert(satisfied_by(p, p[j]));
                assert(provides(f[j], dep));
            }
        }
        if satisfied_by(f, f[i]) {
            assert forall|k: int| 0 <= k < p[i].deps.len() implies exists|j: int|
                0 <= j < p.len() && provides(p[j], #[trigger] p[i].deps[k]) by {
                assert(f[i].deps[k] == p[i].deps[k]);
                let j = choose|j: int| 0 <= j < f.len() && provides(f[j], f[i].deps[k]);
                assert(provides(p[j], p[i].deps[k]));
            }
            assert forall|k: int| 0 <= k < mods[i].deps.len() implies exists|j: int|
                0 <= j < mods.len() && provides(mods[j], #[trigger] mods[i].deps[k]) by {
                assert(f[i].deps[k] == mods[i].deps[k]);
                let j = choose|j: int| 0 <= j < f.len() && provides(f[j], f[i].deps[k]);
                assert(mods[j].id == mods[i].deps[k].0);
                assert(mods[j].deps.len() == 0);
                assert(mods[j].registered);
                assert(provides(mods[j], mods[i].deps[k]));
            }
            assert(satisfied_by(mods, mods[i]));
            assert(p[i].registered);
            assert(satisfied_by(p, p[i]));
        }
    }
}

/// What `same_but_flags` keeps: every other field, and with them the
/// uniqueness of ids and connection ids.
pub proof fn lemma_same_but_flags(mods: Seq<ModuleView>, other: Seq<ModuleView>)
    requires
        same_but_flags(mods, other),
    ensures
        forall|i: int|
            0 <= i < mods.len() ==> (#[trigger] other[i]).id == mods[i].id && other[i].uuid == mods[i].uuid
                && other[i].deps == mods[i].deps && other[i].version == mods[i].version
                && other[i].functions == mods[i].functions && other[i].hooks == mods[i].hooks,
        ids_unique(mods) ==> ids_unique(other),
        uuids_unique(mods) ==> uuids_unique(other),
{
    assert forall|i: int| 0 <= i < mods.len() implies (#[trigger] other[i]).id == mods[i].id && other[i].uuid
        == mods[i].uuid && other[i].deps == mods[i].deps && other[i].version == mods[i].version
        && other[i].functions == mods[i].functions && other[i].hooks == mods[i].hooks by {
        assert(with_registered(mods[i], other[i].registered) == other[i]);
    }
}

/// Removing a module keeps ids and connection ids unique and keeps
/// dependency-free modules registered.
pub proof fn lemma_remove_keeps(mods: Seq<ModuleView>, i: int)
    requires
        0 <= i < mods.len(),
    ensures
        ids_unique(mods) ==> ids_unique(mods.remove(i)),
        uuids_unique(mods) ==> uuids_unique(mods.remove(i)),
        free_registered(mods) ==> free_registered(mods.remove(i)),
{
    let r = mods.remove(i);
    assert forall|a: int| 0 <= a < r.len() implies #[trigger] r[a] == mods[if a < i { a } else { a + 1 }] by {}
}

/// Replacing the module at `c` by one with the same id, connection,
/// registered flag, version and dependencies keeps uniqueness, keeps
/// dependency-free modules registered and changes no module's satisfaction.
pub proof fn lemma_update_keeps(mods: Seq<ModuleView>, c: int, m: ModuleView)
    requires
        0 <= c < mods.len(),
        m.id == mods[c].id,
        m.uuid == mods[c].uuid,
        m.registered == mods[c].registered,
        m.version == mods[c].version,
        m.deps == mods[c].deps,
    ensures
        ids_unique(mods) ==> ids_unique(mods.update(c, m)),
        uuids_unique(mods) ==> uuids_unique(mods.update(c, m)),
        free_registered(mods) ==> free_registered(mods.update(c, m)),
        consistent(mods) ==> consistent(mods.update(c, m)),
{
    let u = mods.update(c, m);
    assert forall|x: ModuleView| #[trigger] satisfied_by(u, x) == satisfied_by(mods, x) by {
        assert forall|dep: (Seq<char>, Seq<char>)| #[trigger] has_provider(u, dep) == has_provider(mods, dep) by {
            if exists|j: int| 0 <= j < u.len() && provides(u[j], dep) {
                let j = choose|j: int| 0 <= j < u.len() && provides(u[j], dep);
                if j == c {
                    assert(u[j] == m);
                } else {
                    assert(u[j] == mods[j]);
                }
                assert(provides(mods[j], dep));
            }
            if exists|j: int| 0 <= j < mods.len() && provides(mods[j], dep) {
                let j = choose|j: int| 0 <= j < mods.len() && provides(mods[j], dep);
                if j == c {
                    assert(u[j] == m);
                } else {
                    assert(u[j] == mods[j]);
                }
                assert(provides(u[j], dep));
            }
        }
    }
    if consistent(mods) {
        assert forall|i: int| 0 <= i < u.len() implies #[trigger] u[i].registered == satisfied_by(u, u[i]) by {
            assert(satisfied_by(u, u[i]) == satisfied_by(mods, u[i]));
            assert(u[i].deps == mods[i].deps);
            assert(satisfied_by(mods, u[i]) == satisfied_by(mods, mods[i])) by {
                if satisfied_by(mods, u[i]) {
                    assert forall|k: int| 0 <= k < mods[i].deps.len() implies exists|j: int|
                        0 <= j < mods.len() && provides(mods[j], #[trigger] mods[i].deps[k]) by {
                        assert(u[i].deps[k] == mods[i].deps[k]);
                    }
                }
                if satisfied_by(mods, mods[i]) {
                    assert forall|k: int| 0 <= k < u[i].deps.len() implies exists|j: int|
                        0 <= j < mods.len() && provides(mods[j], #[trigger] u[i].deps[k]) by {
                        assert(u[i].deps[k] == mods[i].deps[k]);
                    }
                }
            }
        }
    }
}

/// Modules that differ only in their flags have the same dependency graph.
pub proof fn lemma_shallow_same_but_flags(mods: Seq<ModuleView>, other: Seq<ModuleView>)
    requires
        same_but_flags(mods, other),
    ensures
        shallow(mods) == shallow(other),
{
    lemma_same_but_flags(mods, other);
    if shallow(mods) {
        assert forall|i: int, k: int, j: int|
            0 <= i < other.len() && 0 <= k < other[i].deps.len() && 0 <= j < other.len() && #[trigger] other[j].id
                == #[trigger] other[i].deps[k].0 implies other[j].deps.len() == 0 by {
            assert(mods[j].id == mods[i].deps[k].0);
        }
    }
    if shallow(other) {
        assert forall|i: int, k: int, j: int|
            0 <= i < mods.len() && 0 <= k < mods[i].deps.len() && 0 <= j < mods.len() && #[trigger] mods[j].id
                == #[trigger] mods[i].deps[k].0 implies mods[j].deps.len() == 0 by {
            assert(other[j].id == other[i].deps[k].0);
        }
    }
}

/// `m` is registered, has a connection and listens for `hook` (or the
/// delivery is forced).
pub open spec fn listens(m: ModuleView, hook: Seq<char>, force: bool) -> bool {
    m.registered && m.uuid != 0 && (force || m.hooks.contains(hook))
}

/// The connections, in pool order, that a trigger of `hook` reaches.
pub open spec fn listeners(mods: Seq<ModuleView>, hook: Seq<char>, force: bool) -> Seq<u128>
    decreases mods.len(),
{
    if mods.len() == 0 {
        Seq::empty()
    } else {
        let rest = listeners(mods.drop_last(), hook, force);
        if listens(mods.last(), hook, force) {
            rest.push(mods.last().uuid)
        } else {
            rest
        }
    }
}

} // verus!
