//! The schema descriptor registry: a process-wide cache keyed by type
//! identity, populated on first use, never recomputed after first successful
//! publish. The storage is a concurrent map; its contents are named by
//! `cache_entries` and every access goes through contracted wrappers.

use vstd::prelude::*;
use dashmap::DashMap;
use crate::schema::{spec_schema, spec_root_tag, schema_text, root_tag};
use crate::shape::Shape;

verus! {

#[verifier::external_type_specification]
#[verifier::external_body]
#[verifier::reject_recursive_types(K)]
#[verifier::reject_recursive_types(V)]
#[verifier::reject_recursive_types(S)]
pub struct ExDashMap<K, V, S>(DashMap<K, V, S>);

/// A cache store: text fragments keyed by type identity.
pub type CacheMap = DashMap<u64, String>;

/// What a cache map holds: each stored key's text.
pub uninterp spec fn cache_entries(m: CacheMap) -> Map<u64, Seq<char>>;

/// The empty store.
pub open spec fn no_entries() -> Map<u64, Seq<char>> {
    Map::empty()
}

/// Relies on dashmap::DashMap::new: the new map holds nothing.
#[verifier::external_body]
fn dm_new() -> (r: CacheMap)
    ensures
        cache_entries(r) == no_entries(),
{
    DashMap::new()
}

/// Relies on dashmap::DashMap::get: returns the value stored under the key,
/// or nothing when the key is absent.
#[verifier::external_body]
fn dm_get(m: &CacheMap, k: u64) -> (r: Option<String>)
    ensures
        r matches Some(v) ==> cache_entries(*m).contains_key(k) && v@ == cache_entries(*m)[k],
        r is None ==> !cache_entries(*m).contains_key(k),
{
    m.get(&k).map(|entry| entry.value().clone())
}

/// Relies on dashmap::DashMap::entry and dashmap::Entry::or_insert: stores
/// the value only when the key is absent, and hands back the text that ends
/// up stored under the key.
#[verifier::external_body]
fn dm_get_or_insert(m: &mut CacheMap, k: u64, v: String) -> (r: String)
    ensures
        cache_entries(*final(m)) == if cache_entries(*old(m)).contains_key(k) {
            cache_entries(*old(m))
        } else {
            cache_entries(*old(m)).insert(k, v@)
        },
        cache_entries(*final(m)).contains_key(k),
        r@ == cache_entries(*final(m))[k],
{
    m.entry(k).or_insert(v).value().clone()
}

/// The cached fragments of one type identity, each slot filled at most once.
#[derive(Debug)]
pub struct CacheInner {
    pub prompt_schema: Option<String>,
    pub root_name: Option<String>,
}

/// The registry: schema text and root tag per type identity, lazily and
/// idempotently initialized, with instrumentation counters recording how many
/// times each derivation actually ran.
pub struct Cache {
    schemas: CacheMap,
    roots: CacheMap,
    bound: Ghost<Map<u64, Shape>>,
    schema_runs_count: u64,
    root_runs_count: u64,
}

impl Cache {
    /// How many times schema text was derived rather than served from the
    /// cache.
    pub closed spec fn schema_runs(self) -> u64 {
        self.schema_runs_count
    }

    /// How many times a root tag was derived rather than served from the
    /// cache.
    pub closed spec fn root_runs(self) -> u64 {
        self.root_runs_count
    }

    /// Instrumentation: how many times schema text was actually derived.
    pub fn schema_computations(&self) -> (r: u64)
        ensures
            r == self.schema_runs(),
    {
        self.schema_runs_count
    }

    /// Instrumentation: how many times a root tag was actually derived.
    pub fn root_computations(&self) -> (r: u64)
        ensures
            r == self.root_runs(),
    {
        self.root_runs_count
    }

    /// The shape each type identity stands for, fixed at its first use.
    pub closed spec fn bound_shapes(self) -> Map<u64, Shape> {
        self.bound@
    }

    /// The schema texts stored so far.
    pub closed spec fn schema_cached(self) -> Map<u64, Seq<char>> {
        cache_entries(self.schemas)
    }

    /// The root tags stored so far.
    pub closed spec fn root_cached(self) -> Map<u64, Seq<char>> {
        cache_entries(self.roots)
    }

    /// Every stored slot belongs to a bound identity and holds exactly the
    /// derived text of its shape — the cached strings never change after
    /// first successful initialization.
    pub closed spec fn wf(self) -> bool {
        &&& (forall|t: u64|
            #[trigger] self.schema_cached().contains_key(t) ==> self.bound_shapes().contains_key(
                t,
            ) && self.schema_cached()[t] == spec_schema(self.bound_shapes()[t]))
        &&& (forall|t: u64|
            #[trigger] self.root_cached().contains_key(t) ==> self.bound_shapes().contains_key(t)
                && self.root_cached()[t] == spec_root_tag(self.bound_shapes()[t]))
    }

    /// The caller's claim that `tid` identifies the type of shape `sh`: one
    /// identity never stands for two shapes.
    pub open spec fn binds(self, tid: u64, sh: Shape) -> bool {
        self.bound_shapes().contains_key(tid) ==> self.bound_shapes()[tid] == sh
    }

    /// An empty registry.
    pub fn new() -> (r: Cache)
        ensures
            r.wf(),
            r.bound_shapes() == Map::<u64, Shape>::empty(),
            r.schema_cached() == Map::<u64, Seq<char>>::empty(),
            r.root_cached() == Map::<u64, Seq<char>>::empty(),
            r.schema_runs() == 0,
            r.root_runs() == 0,
    {
        Cache {
            schemas: dm_new(),
            roots: dm_new(),
            bound: Ghost(Map::empty()),
            schema_runs_count: 0,
            root_runs_count: 0,
        }
    }

    /// Snapshot of both cached fragments for a type identity, as stored.
    pub fn get(&self, tid: u64) -> (r: CacheInner)
        ensures
            r.prompt_schema matches Some(s) ==> self.schema_cached().contains_key(tid) && s@
                == self.schema_cached()[tid],
            r.prompt_schema is None ==> !self.schema_cached().contains_key(tid),
            r.root_name matches Some(s) ==> self.root_cached().contains_key(tid) && s@
                == self.root_cached()[tid],
            r.root_name is None ==> !self.root_cached().contains_key(tid),
    {
        CacheInner {
            prompt_schema: dm_get(&self.schemas, tid),
            root_name: dm_get(&self.roots, tid),
        }
    }

    /// Memoized schema text of the type `tid` identifies, of shape `sh`.
    /// Every call returns the same derived text; the derivation runs only on
    /// the first call for the identity, as the computation counter records.
    pub fn schema_for(&mut self, tid: u64, sh: &Shape) -> (r: String)
        requires
            old(self).wf(),
            old(self).binds(tid, *sh),
            old(self).schema_runs() < u64::MAX,
        ensures
            final(self).wf(),
            r@ == spec_schema(*sh),
            final(self).bound_shapes() == old(self).bound_shapes().insert(tid, *sh),
            final(self).schema_cached() == if old(self).schema_cached().contains_key(tid) {
                old(self).schema_cached()
            } else {
                old(self).schema_cached().insert(tid, spec_schema(*sh))
            },
            final(self).root_cached() == old(self).root_cached(),
            final(self).schema_runs() == if old(self).schema_cached().contains_key(tid) {
                old(self).schema_runs() as int
            } else {
                old(self).schema_runs() + 1
            },
            final(self).root_runs() == old(self).root_runs(),
    {
        proof {
            self.bound@ = self.bound@.insert(tid, *sh);
        }
        let ghost b0 = old(self).bound_shapes();
        match dm_get(&self.schemas, tid) {
            Some(s) => {
                proof {
                    assert(old(self).schema_cached().contains_key(tid));
                    assert(s@ == spec_schema(*sh));
                    lemma_rebind_wf(*old(self), *self, tid, *sh);
                }
                s
            },
            None => {
                let text = schema_text(sh);
                let stored = dm_get_or_insert(&mut self.schemas, tid, text);
                self.schema_runs_count = self.schema_runs_count + 1;
                proof {
                    assert forall|t: u64| #[trigger] self.schema_cached().contains_key(t)
                        implies self.bound_shapes().contains_key(t) && self.schema_cached()[t]
                        == spec_schema(self.bound_shapes()[t]) by {
                        if t != tid {
                            assert(old(self).schema_cached().contains_key(t));
                        }
                    }
                    assert forall|t: u64| #[trigger] self.root_cached().contains_key(t)
                        implies self.bound_shapes().contains_key(t) && self.root_cached()[t]
                        == spec_root_tag(self.bound_shapes()[t]) by {
                        assert(old(self).root_cached().contains_key(t));
                        if t == tid {
                            assert(b0.contains_key(tid) && b0[tid] == *sh);
                        }
                    }
                }
                stored
            },
        }
    }

    /// Memoized root tag of the type `tid` identifies, of shape `sh`; the
    /// same at-most-once discipline as `schema_for`.
    pub fn root_for(&mut self, tid: u64, sh: &Shape) -> (r: String)
        requires
            old(self).wf(),
            old(self).binds(tid, *sh),
            old(self).root_runs() < u64::MAX,
        ensures
            final(self).wf(),
            r@ == spec_root_tag(*sh),
            final(self).bound_shapes() == old(self).bound_shapes().insert(tid, *sh),
            final(self).root_cached() == if old(self).root_cached().contains_key(tid) {
                old(self).root_cached()
            } else {
                old(self).root_cached().insert(tid, spec_root_tag(*sh))
            },
            final(self).schema_cached() == old(self).schema_cached(),
            final(self).root_runs() == if old(self).root_cached().contains_key(tid) {
                old(self).root_runs() as int
            } else {
                old(self).root_runs() + 1
            },
            final(self).schema_runs() == old(self).schema_runs(),
    {
        proof {
            self.bound@ = self.bound@.insert(tid, *sh);
        }
        let ghost b0 = old(self).bound_shapes();
        match dm_get(&self.roots, tid) {
            Some(s) => {
                proof {
                    assert(old(self).root_cached().contains_key(tid));
                    assert(s@ == spec_root_tag(*sh));
                    lemma_rebind_wf(*old(self), *self, tid, *sh);
                }
                s
            },
            None => {
                let text = root_tag(sh);
                let stored = dm_get_or_insert(&mut self.roots, tid, text);
                self.root_runs_count = self.root_runs_count + 1;
                proof {
                    assert forall|t: u64| #[trigger] self.root_cached().contains_key(t)
                        implies self.bound_shapes().contains_key(t) && self.root_cached()[t]
                        == spec_root_tag(self.bound_shapes()[t]) by {
                        if t != tid {
                            assert(old(self).root_cached().contains_key(t));
                        }
                    }
                    assert forall|t: u64| #[trigger] self.schema_cached().contains_key(t)
                        implies self.bound_shapes().contains_key(t) && self.schema_cached()[t]
                        == spec_schema(self.bound_shapes()[t]) by {
                        assert(old(self).schema_cached().contains_key(t));
                        if t == tid {
                            assert(b0.contains_key(tid) && b0[tid] == *sh);
                        }
                    }
                }
                stored
            },
        }
    }
}

/// Re-binding an identity to the shape it already stands for (or to a fresh
/// identity) keeps the registry well-formed when nothing stored changes.
proof fn lemma_rebind_wf(c0: Cache, c1: Cache, tid: u64, sh: Shape)
    requires
        c0.wf(),
        c0.binds(tid, sh),
        c1.schema_cached() == c0.schema_cached(),
        c1.root_cached() == c0.root_cached(),
        c1.bound_shapes() == c0.bound_shapes().insert(tid, sh),
    ensures
        c1.wf(),
{
    assert forall|t: u64| #[trigger] c1.schema_cached().contains_key(t)
        implies c1.bound_shapes().contains_key(t) && c1.schema_cached()[t] == spec_schema(
        c1.bound_shapes()[t],
    ) by {
        assert(c0.schema_cached().contains_key(t));
        if t == tid {
            assert(c0.bound_shapes().contains_key(tid) && c0.bound_shapes()[tid] == sh);
        }
    }
    assert forall|t: u64| #[trigger] c1.root_cached().contains_key(t)
        implies c1.bound_shapes().contains_key(t) && c1.root_cached()[t] == spec_root_tag(
        c1.bound_shapes()[t],
    ) by {
        assert(c0.root_cached().contains_key(t));
        if t == tid {
            assert(c0.bound_shapes().contains_key(tid) && c0.bound_shapes()[tid] == sh);
        }
    }
}

} // verus!
