//! The resources of the local node, and since when the node has been idle.
//!
//! Each resource and each kind of background work ("footprint") has an idle
//! state: the time since which it has been idle, or none while it is busy, and
//! a saved idle time that a temporary busy period can restore.

use vstd::prelude::*;

use crate::clock::{Clock, SystemClock};
use crate::resources::{add_clamped, clamp_i64, has_capacity, has_capacity_spec, sub_clamped};
use crate::scheduling_ffi::{NodeResources, NodeResourcesModel, ResourceRequest};
use crate::str_map::{amount_of, ResourceSet, StrMap};

verus! {

/// The saved idle time of a footprint that was not tracked before it became
/// busy.
pub const UNTRACKED_IDLE_MARKER: i64 = i64::MIN;

/// Background work that keeps a node busy.
#[derive(Debug, Clone, Copy, PartialEq, Eq, Hash, Structural)]
pub enum WorkFootprint {
    NodeWorkers,
    PullingTaskArguments,
}

/// Since when an artifact has been idle (none while busy), and the idle time
/// saved across a temporary busy period.
#[derive(Debug, Clone, Copy, PartialEq, Eq, Structural)]
pub struct IdleTimeState {
    pub current: Option<i64>,
    pub saved: Option<i64>,
}

impl View for IdleTimeState {
    type V = IdleTimeState;

    open spec fn view(&self) -> IdleTimeState {
        *self
    }
}

/// What an idle state is kept for.
pub enum ArtifactKey {
    Footprint(WorkFootprint),
    Resource(Seq<char>),
}

/// The abstract state of a local resource manager.
pub struct LocalModel {
    pub total: Map<Seq<char>, i64>,
    pub available: Map<Seq<char>, i64>,
    pub idle: Map<ArtifactKey, IdleTimeState>,
}

/// The state that marks an artifact busy, keeping its saved idle time.
pub open spec fn busy_entry(idle: Map<ArtifactKey, IdleTimeState>, k: ArtifactKey) -> IdleTimeState {
    IdleTimeState {
        current: None,
        saved: if idle.contains_key(k) {
            idle[k].saved
        } else {
            None
        },
    }
}

/// The state that marks an artifact idle since `now`, keeping its saved idle
/// time.
pub open spec fn idle_entry(idle: Map<ArtifactKey, IdleTimeState>, k: ArtifactKey, now: i64) -> IdleTimeState {
    IdleTimeState {
        current: Some(now),
        saved: if idle.contains_key(k) {
            idle[k].saved
        } else {
            None
        },
    }
}

/// The state right after construction: every resource with a total is idle
/// since `now`.
pub open spec fn new_model(nr: NodeResourcesModel, now: i64) -> LocalModel {
    LocalModel {
        total: nr.total,
        available: nr.available,
        idle: Map::new(
            |k: ArtifactKey| k is Resource && nr.total.contains_key(k->Resource_0),
            |k: ArtifactKey| IdleTimeState { current: Some(now), saved: None },
        ),
    }
}

/// Whether allocating `required` takes from resource `n`.
pub open spec fn allocation_touches(m: LocalModel, required: Map<Seq<char>, i64>, n: Seq<char>) -> bool {
    required.contains_key(n) && required[n] > 0 && m.available.contains_key(n)
}

/// The state after an allocation, and whether it succeeded. It succeeds when
/// every required quantity is available; then each positive quantity is taken
/// from a resource that has an availability, and that resource becomes busy.
pub open spec fn allocate_model(m: LocalModel, required: Map<Seq<char>, i64>) -> (LocalModel, bool) {
    if !has_capacity_spec(m.available, required) {
        (m, false)
    } else {
        (
            LocalModel {
                total: m.total,
                available: Map::new(
                    |n: Seq<char>| m.available.contains_key(n),
                    |n: Seq<char>|
                        if allocation_touches(m, required, n) {
                            (m.available[n] - required[n]) as i64
                        } else {
                            m.available[n]
                        },
                ),
                idle: Map::new(
                    |k: ArtifactKey|
                        m.idle.contains_key(k) || (k is Resource && allocation_touches(
                            m,
                            required,
                            k->Resource_0,
                        )),
                    |k: ArtifactKey|
                        if k is Resource && allocation_touches(m, required, k->Resource_0) {
                            busy_entry(m.idle, k)
                        } else {
                            m.idle[k]
                        },
                ),
            },
            true,
        )
    }
}

/// Whether giving back `amount` of resource `n` changes anything: the amount
/// is positive and the resource has both a total and an availability.
pub open spec fn give_back_applies(m: LocalModel, n: Seq<char>, amount: i64) -> bool {
    amount > 0 && m.total.contains_key(n) && m.available.contains_key(n)
}

/// The availability of `n` after `amount` is given back, never above its
/// total.
pub open spec fn given_back(m: LocalModel, n: Seq<char>, amount: i64) -> i64 {
    let r = clamp_i64(m.available[n] + amount);
    if r > m.total[n] {
        m.total[n]
    } else {
        r
    }
}

/// The state after `amount` of resource `n` is given back at time `now`; the
/// resource becomes idle where it is back at its total.
pub open spec fn add_model(m: LocalModel, n: Seq<char>, amount: i64, now: i64) -> LocalModel {
    if !give_back_applies(m, n, amount) {
        m
    } else {
        let v = given_back(m, n, amount);
        LocalModel {
            available: m.available.insert(n, v),
            idle: if v == m.total[n] {
                m.idle.insert(
                    ArtifactKey::Resource(n),
                    idle_entry(m.idle, ArtifactKey::Resource(n), now),
                )
            } else {
                m.idle
            },
            ..m
        }
    }
}

/// One clock reading for every resource: `now`.
pub open spec fn at_time(now: i64) -> spec_fn(Seq<char>) -> i64 {
    |n: Seq<char>| now
}

/// The readings `times` with resource `n` read at `now`.
pub open spec fn with_time(times: spec_fn(Seq<char>) -> i64, n: Seq<char>, now: i64) -> spec_fn(
    Seq<char>,
) -> i64 {
    |x: Seq<char>|
        if x == n {
            now
        } else {
            times(x)
        }
}

/// The state after every quantity of `released` is given back; a resource
/// back at its total becomes idle from its own clock reading, `times(n)`.
pub open spec fn release_model(
    m: LocalModel,
    released: Map<Seq<char>, i64>,
    times: spec_fn(Seq<char>) -> i64,
) -> LocalModel {
    let touched = |n: Seq<char>|
        released.contains_key(n) && give_back_applies(m, n, released[n]);
    let back_to_total = |n: Seq<char>| touched(n) && given_back(m, n, released[n]) == m.total[n];
    LocalModel {
        total: m.total,
        available: Map::new(
            |n: Seq<char>| m.available.contains_key(n),
            |n: Seq<char>|
                if touched(n) {
                    given_back(m, n, released[n])
                } else {
                    m.available[n]
                },
        ),
        idle: Map::new(
            |k: ArtifactKey| m.idle.contains_key(k) || (k is Resource && back_to_total(k->Resource_0)),
            |k: ArtifactKey|
                if k is Resource && back_to_total(k->Resource_0) {
                    idle_entry(m.idle, k, times(k->Resource_0))
                } else {
                    m.idle[k]
                },
        ),
    }
}

/// The state after `amount` of resource `n` is taken, with the shortfall that
/// could not be taken. Without `allow_negative` the availability stops at
/// zero; either way the resource becomes busy.
pub open spec fn subtract_model(m: LocalModel, n: Seq<char>, amount: i64, allow_negative: bool) -> (LocalModel, i64) {
    if amount <= 0 {
        (m, 0)
    } else {
        let have = amount_of(m.available, n);
        let short = clamp_i64(amount - have);
        let underflow: i64 = if allow_negative || short < 0 {
            0
        } else {
            short
        };
        let left = clamp_i64(have - amount);
        let left: i64 = if !allow_negative && left < 0 {
            0
        } else {
            left
        };
        (
            LocalModel {
                available: m.available.insert(n, left),
                idle: m.idle.insert(
                    ArtifactKey::Resource(n),
                    busy_entry(m.idle, ArtifactKey::Resource(n)),
                ),
                ..m
            },
            underflow,
        )
    }
}

/// The state after a footprint becomes busy: its idle state is dropped and no
/// footprint keeps a saved idle time. A footprint that is busy already is left
/// alone.
pub open spec fn mark_busy_model(m: LocalModel, item: WorkFootprint) -> LocalModel {
    let k = ArtifactKey::Footprint(item);
    if m.idle.contains_key(k) && m.idle[k].current is None {
        m
    } else {
        let idle1 = m.idle.insert(k, IdleTimeState { current: None, saved: None });
        LocalModel {
            idle: Map::new(
                |x: ArtifactKey| idle1.contains_key(x),
                |x: ArtifactKey|
                    if x is Footprint {
                        IdleTimeState { current: idle1[x].current, saved: None }
                    } else {
                        idle1[x]
                    },
            ),
            ..m
        }
    }
}

/// The state after a footprint becomes busy for a while: its idle time is
/// saved so that becoming idle restores it; an untracked footprint is marked
/// as such.
pub open spec fn maybe_mark_busy_model(m: LocalModel, item: WorkFootprint) -> LocalModel {
    let k = ArtifactKey::Footprint(item);
    if m.idle.contains_key(k) && m.idle[k].current is None {
        m
    } else if m.idle.contains_key(k) {
        LocalModel {
            idle: m.idle.insert(k, IdleTimeState { current: None, saved: m.idle[k].current }),
            ..m
        }
    } else {
        LocalModel {
            idle: m.idle.insert(
                k,
                IdleTimeState { current: None, saved: Some(UNTRACKED_IDLE_MARKER) },
            ),
            ..m
        }
    }
}

/// The state after a footprint becomes idle at time `now`: a saved idle time
/// comes back, an untracked footprint is forgotten, and otherwise the
/// footprint is idle since `now`. A footprint that is idle with nothing saved
/// is left alone.
pub open spec fn mark_idle_model(m: LocalModel, item: WorkFootprint, now: i64) -> LocalModel {
    let k = ArtifactKey::Footprint(item);
    if m.idle.contains_key(k) && m.idle[k].current is Some && m.idle[k].saved is None {
        m
    } else {
        let saved = if m.idle.contains_key(k) {
            m.idle[k].saved
        } else {
            None
        };
        if saved == Some(UNTRACKED_IDLE_MARKER) {
            LocalModel { idle: m.idle.remove(k), ..m }
        } else if saved is Some {
            LocalModel { idle: m.idle.insert(k, IdleTimeState { current: saved, saved: None }), ..m }
        } else {
            LocalModel { idle: m.idle.insert(k, IdleTimeState { current: Some(now), saved: None }), ..m }
        }
    }
}

/// Some artifact is busy.
pub open spec fn some_busy(idle: Map<ArtifactKey, IdleTimeState>) -> bool {
    exists|k: ArtifactKey| #[trigger] idle.contains_key(k) && idle[k].current is None
}

/// `t` is the latest idle time of all artifacts, or the least `i64` where
/// there is none later.
pub open spec fn is_idle_time(idle: Map<ArtifactKey, IdleTimeState>, t: i64) -> bool {
    &&& forall|k: ArtifactKey| #[trigger] idle.contains_key(k) ==> idle[k].current is Some
        && idle[k].current->0 <= t
    &&& (t == i64::MIN || exists|k: ArtifactKey| #[trigger] idle.contains_key(k) && idle[k].current
        == Some(t))
}

/// The state held, or a busy state where there is none.
pub open spec fn state_or_busy(o: Option<IdleTimeState>) -> IdleTimeState {
    match o {
        Some(st) => st,
        None => IdleTimeState { current: None, saved: None },
    }
}

/// The idle states kept in separate places, as one map.
pub open spec fn idle_map(
    node_workers: Option<IdleTimeState>,
    pulling: Option<IdleTimeState>,
    resources: Map<Seq<char>, IdleTimeState>,
) -> Map<ArtifactKey, IdleTimeState> {
    Map::new(
        |k: ArtifactKey|
            if k is Footprint {
                if k->Footprint_0 == WorkFootprint::NodeWorkers {
                    node_workers is Some
                } else {
                    pulling is Some
                }
            } else {
                resources.contains_key(k->Resource_0)
            },
        |k: ArtifactKey|
            if k is Footprint {
                if k->Footprint_0 == WorkFootprint::NodeWorkers {
                    state_or_busy(node_workers)
                } else {
                    state_or_busy(pulling)
                }
            } else {
                resources[k->Resource_0]
            },
    )
}

/// The resources of the local node and since when it has been idle.
pub struct LocalResourceManager<C: Clock> {
    total: ResourceSet,
    available: ResourceSet,
    node_workers: Option<IdleTimeState>,
    pulling_task_arguments: Option<IdleTimeState>,
    resource_idle: StrMap<IdleTimeState>,
    clock: C,
}

impl<C: Clock> View for LocalResourceManager<C> {
    type V = LocalModel;

    closed spec fn view(&self) -> LocalModel {
        LocalModel {
            total: self.total@,
            available: self.available@,
            idle: idle_map(self.node_workers, self.pulling_task_arguments, self.resource_idle@),
        }
    }
}

impl LocalResourceManager<SystemClock> {
    /// A manager for the node's resources, reading the system clock.
    pub fn new(node_resources: NodeResources) -> (m: Self)
        ensures
            exists|t: i64| m@ == new_model(node_resources@, t),
    {
        Self::new_with_clock(node_resources, SystemClock)
    }
}

impl<C: Clock> LocalResourceManager<C> {
    /// A manager for the node's resources with the given clock; every
    /// resource with a total starts idle at the clock's current reading.
    pub fn new_with_clock(node_resources: NodeResources, clock: C) -> (m: Self)
        ensures
            exists|t: i64| m@ == new_model(node_resources@, t),
    {
        let now = clock.now_ms();
        Self::new_with_clock_at(node_resources, clock, now)
    }

    /// What `new_with_clock` gives when the clock reads `now`.
    pub fn new_with_clock_at(node_resources: NodeResources, clock: C, now: i64) -> (m: Self)
        ensures
            m@ == new_model(node_resources@, now),
    {
        let ghost total = node_resources.total@;
        let mut resource_idle: StrMap<IdleTimeState> = StrMap::new();
        let n = node_resources.total.len();
        let ghost keys = node_resources.total.key_seq();
        proof {
            node_resources.total.lemma_keys();
        }
        let mut i: usize = 0;
        while i < n
            invariant
                n == keys.len(),
                keys == node_resources.total.key_seq(),
                total == node_resources.total@,
                i <= n,
                forall|j: int| 0 <= j < n ==> total.contains_key(#[trigger] keys[j]),
                forall|k: Seq<char>| #[trigger] resource_idle@.contains_key(k) <==> keys.take(i as int).contains(k),
                forall|k: Seq<char>| #[trigger] resource_idle@.contains_key(k) ==> resource_idle@[k]
                    == (IdleTimeState { current: Some(now), saved: None }),
            decreases n - i,
        {
            let name = node_resources.total.key_at(i).clone();
            resource_idle.insert(name, IdleTimeState { current: Some(now), saved: None });
            proof {
                let k = keys[i as int];
                let t = keys.take(i as int);
                let t1 = keys.take(i as int + 1);
                assert(t1 =~= t.push(k));
                assert forall|k2: Seq<char>| #[trigger] t1.contains(k2) == (t.contains(k2) || k2 == k) by {
                    if t.contains(k2) {
                        let j = choose|j: int| 0 <= j < t.len() && t[j] == k2;
                        assert(t1[j] == k2);
                    }
                    if k2 == k {
                        assert(t1[i as int] == k2);
                    }
                    if t1.contains(k2) {
                        let j = choose|j: int| 0 <= j < t1.len() && t1[j] == k2;
                        if j < i {
                            assert(t[j] == k2);
                        }
                    }
                }
            }
            i = i + 1;
        }
        let m = LocalResourceManager {
            total: node_resources.total,
            available: node_resources.available,
            node_workers: None,
            pulling_task_arguments: None,
            resource_idle,
            clock,
        };
        proof {
            assert(keys.take(n as int) =~= keys);
            assert forall|k: Seq<char>| #[trigger] total.contains_key(k) <==> keys.contains(k) by {
                if total.contains_key(k) {
                    let j = choose|j: int| 0 <= j < keys.len() && keys[j] == k;
                    assert(keys[j] == k);
                }
            }
            let want = new_model(node_resources@, now).idle;
            assert(m@.idle == idle_map(None, None, resource_idle@));
            assert(want == Map::new(
                |k: ArtifactKey| k is Resource && total.contains_key(k->Resource_0),
                |k: ArtifactKey| IdleTimeState { current: Some(now), saved: None },
            ));
            let got = idle_map(None, None, resource_idle@);
            assert forall|k: ArtifactKey| #[trigger] got.contains_key(k) == want.contains_key(k) by {
                match k {
                    ArtifactKey::Footprint(f) => {
                        assert(!got.contains_key(k));
                        assert(!want.contains_key(k));
                    },
                    ArtifactKey::Resource(r) => {
                        assert(got.contains_key(k) == resource_idle@.contains_key(r));
                        assert(want.contains_key(k) == total.contains_key(r));
                        assert(resource_idle@.contains_key(r) == keys.contains(r));
                    },
                }
            }
            assert forall|k: ArtifactKey| #[trigger] got.contains_key(k) implies got[k] == want[k] by {
                match k {
                    ArtifactKey::Footprint(f) => {},
                    ArtifactKey::Resource(r) => {
                        assert(got[k] == resource_idle@[r]);
                    },
                }
            }
            assert(m@.idle =~= want);
            assert(m@ == new_model(node_resources@, now));
        }
        m
    }

    /// The available quantity of a resource, if the node has one.
    pub fn get_available(&self, resource_name: &str) -> (r: Option<i64>)
        ensures
            r == (if self@.available.contains_key(resource_name@) {
                Some(self@.available[resource_name@])
            } else {
                None
            }),
    {
        match self.available.get(resource_name) {
            Some(v) => Some(*v),
            None => None,
        }
    }

    /// Whether nothing of a resource is available; an unknown resource has
    /// nothing available.
    pub fn is_available_resource_empty(&self, resource_name: &str) -> (b: bool)
        ensures
            b == (amount_of(self@.available, resource_name@) <= 0),
    {
        let v = match self.get_available(resource_name) {
            Some(v) => v,
            None => 0,
        };
        v <= 0
    }

    /// The idle state of a footprint.
    fn footprint_state(&self, item: WorkFootprint) -> (r: Option<IdleTimeState>)
        ensures
            r == (if self@.idle.contains_key(ArtifactKey::Footprint(item)) {
                Some(self@.idle[ArtifactKey::Footprint(item)])
            } else {
                None
            }),
    {
        match item {
            WorkFootprint::NodeWorkers => self.node_workers,
            WorkFootprint::PullingTaskArguments => self.pulling_task_arguments,
        }
    }

    /// Sets or drops the idle state of a footprint.
    fn set_footprint_state(&mut self, item: WorkFootprint, state: Option<IdleTimeState>)
        ensures
            final(self)@ == (LocalModel {
                idle: match state {
                    Some(st) => old(self)@.idle.insert(ArtifactKey::Footprint(item), st),
                    None => old(self)@.idle.remove(ArtifactKey::Footprint(item)),
                },
                ..old(self)@
            }),
    {
        match item {
            WorkFootprint::NodeWorkers => {
                self.node_workers = state;
            },
            WorkFootprint::PullingTaskArguments => {
                self.pulling_task_arguments = state;
            },
        }
        assert(self@.idle =~= (match state {
            Some(st) => old(self)@.idle.insert(ArtifactKey::Footprint(item), st),
            None => old(self)@.idle.remove(ArtifactKey::Footprint(item)),
        }));
    }

    /// Marks a resource busy, keeping its saved idle time.
    fn set_resource_non_idle(&mut self, resource_name: &String)
        ensures
            final(self)@ == (LocalModel {
                idle: old(self)@.idle.insert(
                    ArtifactKey::Resource(resource_name@),
                    busy_entry(old(self)@.idle, ArtifactKey::Resource(resource_name@)),
                ),
                ..old(self)@
            }),
    {
        let saved = match self.resource_idle.get(resource_name.as_str()) {
            Some(st) => st.saved,
            None => None,
        };
        self.resource_idle.insert(resource_name.clone(), IdleTimeState { current: None, saved });
        assert(self@.idle =~= old(self)@.idle.insert(
            ArtifactKey::Resource(resource_name@),
            busy_entry(old(self)@.idle, ArtifactKey::Resource(resource_name@)),
        ));
    }

    /// Marks a resource idle since `now`, keeping its saved idle time.
    fn set_resource_idle(&mut self, resource_name: &String, now: i64)
        ensures
            final(self)@ == (LocalModel {
                idle: old(self)@.idle.insert(
                    ArtifactKey::Resource(resource_name@),
                    idle_entry(old(self)@.idle, ArtifactKey::Resource(resource_name@), now),
                ),
                ..old(self)@
            }),
    {
        let saved = match self.resource_idle.get(resource_name.as_str()) {
            Some(st) => st.saved,
            None => None,
        };
        self.resource_idle.insert(resource_name.clone(), IdleTimeState { current: Some(now), saved });
        assert(self@.idle =~= old(self)@.idle.insert(
            ArtifactKey::Resource(resource_name@),
            idle_entry(old(self)@.idle, ArtifactKey::Resource(resource_name@), now),
        ));
    }
}

impl<C: Clock> LocalResourceManager<C> {
    /// Takes the request's resources when all of them are available, and
    /// reports whether it did; each resource taken becomes busy.
    pub fn allocate(&mut self, request: &ResourceRequest) -> (ok: bool)
        ensures
            (final(self)@, ok) == allocate_model(old(self)@, request.resources@),
    {
        let required = &request.resources;
        if !has_capacity(&self.available, required) {
            return false;
        }
        let ghost m0 = self@;
        let ghost req = required@;
        let n = required.len();
        let ghost keys = required.key_seq();
        proof {
            required.lemma_keys();
        }
        let mut i: usize = 0;
        while i < n
            invariant
                n == keys.len(),
                keys == required.key_seq(),
                req == required@,
                keys.no_duplicates(),
                i <= n,
                has_capacity_spec(m0.available, req),
                forall|j: int| 0 <= j < n ==> req.contains_key(#[trigger] keys[j]),
                self@.total == m0.total,
                forall|k: Seq<char>| #[trigger] self@.available.contains_key(k) == m0.available.contains_key(k),
                forall|k: Seq<char>|
                    #[trigger] self@.available.contains_key(k) ==> self@.available[k] == (if keys.take(
                        i as int,
                    ).contains(k) && allocation_touches(m0, req, k) {
                        (m0.available[k] - req[k]) as i64
                    } else {
                        m0.available[k]
                    }),
                forall|x: ArtifactKey| #[trigger] self@.idle.contains_key(x) == (m0.idle.contains_key(x) || (
                    x is Resource && keys.take(i as int).contains(x->Resource_0)
                        && allocation_touches(m0, req, x->Resource_0))),
                forall|x: ArtifactKey| #[trigger] self@.idle.contains_key(x) ==> self@.idle[x] == (if x is Resource
                    && keys.take(i as int).contains(x->Resource_0) && allocation_touches(
                    m0,
                    req,
                    x->Resource_0,
                ) {
                    busy_entry(m0.idle, x)
                } else {
                    m0.idle[x]
                }),
            decreases n - i,
        {
            let name = required.key_at(i);
            let amount = *required.value_at(i);
            let ghost k = keys[i as int];
            proof {
                assert(!keys.take(i as int).contains(k)) by {
                    if keys.take(i as int).contains(k) {
                        let j = choose|j: int| 0 <= j < i && keys.take(i as int)[j] == k;
                        assert(keys[j] == keys[i as int]);
                    }
                }
            }
            proof {
                let x = ArtifactKey::Resource(k);
                assert(self@.idle.contains_key(x) == m0.idle.contains_key(x));
                if m0.idle.contains_key(x) {
                    assert(self@.idle[x] == m0.idle[x]);
                }
                assert(busy_entry(self@.idle, x) == busy_entry(m0.idle, x));
                assert(name@ == k);
                assert(req[k] == amount);
                assert(self@.available.contains_key(k) == m0.available.contains_key(k));
            }
            if amount > 0 {
                match self.available.get(name.as_str()) {
                    Some(have) => {
                        let have = *have;
                        proof {
                            assert(name@ == k);
                            assert(self@.available.contains_key(k));
                            assert(self@.available[k] == m0.available[k]);
                            assert(req.contains_key(k));
                            assert(amount_of(m0.available, k) >= req[k]);
                            assert(req[k] == amount);
                        }
                        self.available.insert(name.clone(), have - amount);
                        self.set_resource_non_idle(name);
                    },
                    None => {},
                }
            }
            proof {
                let t = keys.take(i as int);
                let t1 = keys.take(i as int + 1);
                assert(t1 =~= t.push(k));
                assert forall|k2: Seq<char>| #[trigger] t1.contains(k2) == (t.contains(k2) || k2 == k) by {
                    if t.contains(k2) {
                        let j = choose|j: int| 0 <= j < t.len() && t[j] == k2;
                        assert(t1[j] == k2);
                    }
                    if k2 == k {
                        assert(t1[i as int] == k2);
                    }
                    if t1.contains(k2) {
                        let j = choose|j: int| 0 <= j < t1.len() && t1[j] == k2;
                        if j < i {
                            assert(t[j] == k2);
                        }
                    }
                }
            }
            i = i + 1;
        }
        proof {
            assert(keys.take(n as int) =~= keys);
            assert forall|k: Seq<char>| #[trigger] req.contains_key(k) <==> keys.contains(k) by {
                if req.contains_key(k) {
                    let j = choose|j: int| 0 <= j < keys.len() && keys[j] == k;
                    assert(keys[j] == k);
                }
            }
            let want = allocate_model(m0, req).0;
            assert(self@.available =~= want.available);
            assert(self@.idle =~= want.idle);
        }
        true
    }

    /// Gives back `amount` of a resource, never above its total, and reports
    /// whether the resource is back at its total; its idle state is left as
    /// it is.
    fn give_back_quantity(&mut self, resource_name: &String, amount: i64) -> (back: bool)
        ensures
            back == (give_back_applies(old(self)@, resource_name@, amount) && given_back(
                old(self)@,
                resource_name@,
                amount,
            ) == old(self)@.total[resource_name@]),
            final(self)@ == (if give_back_applies(old(self)@, resource_name@, amount) {
                LocalModel {
                    available: old(self)@.available.insert(
                        resource_name@,
                        given_back(old(self)@, resource_name@, amount),
                    ),
                    ..old(self)@
                }
            } else {
                old(self)@
            }),
    {
        if amount <= 0 {
            return false;
        }
        let total = match self.total.get(resource_name.as_str()) {
            Some(t) => *t,
            None => {
                return false;
            },
        };
        let have = match self.available.get(resource_name.as_str()) {
            Some(a) => *a,
            None => {
                return false;
            },
        };
        let mut now_available = add_clamped(have, amount);
        if now_available > total {
            now_available = total;
        }
        self.available.insert(resource_name.clone(), now_available);
        now_available == total
    }

    /// Gives back `amount` of a resource, never above its total; a resource
    /// that is back at its total becomes idle from the clock's current
    /// reading, which is taken only then. A non-positive amount, or a
    /// resource without a total or availability, changes nothing.
    pub fn add_resource_instances(&mut self, resource_name: &str, amount: i64)
        ensures
            exists|t: i64| final(self)@ == add_model(old(self)@, resource_name@, amount, t),
    {
        let name = resource_name.to_owned();
        if self.give_back_quantity(&name, amount) {
            let now = self.clock.now_ms();
            self.set_resource_idle(&name, now);
            assert(self@ == add_model(old(self)@, resource_name@, amount, now));
        } else {
            assert(self@ == add_model(old(self)@, resource_name@, amount, 0));
        }
    }

    /// What `add_resource_instances` does when the clock reads `now`.
    pub fn add_resource_instances_at(&mut self, resource_name: &str, amount: i64, now: i64)
        ensures
            final(self)@ == add_model(old(self)@, resource_name@, amount, now),
    {
        let name = resource_name.to_owned();
        if self.give_back_quantity(&name, amount) {
            self.set_resource_idle(&name, now);
        }
    }

    /// Gives back every quantity of `released`, as `add_resource_instances`
    /// does for each: the clock is read once for each resource that is back
    /// at its total, and that resource is idle from its own reading.
    pub fn release(&mut self, released: &ResourceSet)
        ensures
            exists|times: spec_fn(Seq<char>) -> i64| final(self)@ == release_model(
                old(self)@,
                released@,
                times,
            ),
    {
        let times = self.release_reading(released, None);
        assert(self@ == release_model(old(self)@, released@, times@));
    }

    /// What `release` does when every reading of the clock gives `now`.
    pub fn release_at(&mut self, released: &ResourceSet, now: i64)
        ensures
            final(self)@ == release_model(old(self)@, released@, at_time(now)),
    {
        let _ = self.release_reading(released, Some(now));
    }

    /// Gives back every quantity of `released`; a resource back at its total
    /// becomes idle from `fixed` where that is given, else from a reading of
    /// the clock taken for that resource. Returns the readings used.
    fn release_reading(&mut self, released: &ResourceSet, fixed: Option<i64>) -> (times: Ghost<
        spec_fn(Seq<char>) -> i64,
    >)
        ensures
            final(self)@ == release_model(old(self)@, released@, times@),
            fixed matches Some(t) ==> times@ == at_time(t),
    {
        let ghost mut tm: spec_fn(Seq<char>) -> i64 = match fixed {
            Some(t) => at_time(t),
            None => at_time(0),
        };
        let ghost m0 = self@;
        let ghost rel = released@;
        let n = released.len();
        let ghost keys = released.key_seq();
        proof {
            released.lemma_keys();
        }
        let ghost touched = |k: Seq<char>| rel.contains_key(k) && give_back_applies(m0, k, rel[k]);
        let ghost back = |k: Seq<char>| touched(k) && given_back(m0, k, rel[k]) == m0.total[k];
        let mut i: usize = 0;
        while i < n
            invariant
                n == keys.len(),
                keys == released.key_seq(),
                rel == released@,
                keys.no_duplicates(),
                i <= n,
                forall|j: int| 0 <= j < n ==> rel.contains_key(#[trigger] keys[j]),
                touched == (|k: Seq<char>| rel.contains_key(k) && give_back_applies(m0, k, rel[k])),
                back == (|k: Seq<char>| touched(k) && given_back(m0, k, rel[k]) == m0.total[k]),
                self@.total == m0.total,
                forall|k: Seq<char>| #[trigger] self@.available.contains_key(k) == m0.available.contains_key(k),
                forall|k: Seq<char>|
                    #[trigger] self@.available.contains_key(k) ==> self@.available[k] == (if keys.take(
                        i as int,
                    ).contains(k) && touched(k) {
                        given_back(m0, k, rel[k])
                    } else {
                        m0.available[k]
                    }),
                forall|x: ArtifactKey| #[trigger] self@.idle.contains_key(x) == (m0.idle.contains_key(x) || (
                    x is Resource && keys.take(i as int).contains(x->Resource_0) && back(x->Resource_0))),
                forall|x: ArtifactKey| #[trigger] self@.idle.contains_key(x) ==> self@.idle[x] == (if x is Resource
                    && keys.take(i as int).contains(x->Resource_0) && back(x->Resource_0) {
                    idle_entry(m0.idle, x, tm(x->Resource_0))
                } else {
                    m0.idle[x]
                }),
                fixed matches Some(t) ==> tm == at_time(t),
            decreases n - i,
        {
            let name = released.key_at(i);
            let amount = *released.value_at(i);
            let ghost k = keys[i as int];
            let ghost before = self@;
            proof {
                assert(!keys.take(i as int).contains(k)) by {
                    if keys.take(i as int).contains(k) {
                        let j = choose|j: int| 0 <= j < i && keys.take(i as int)[j] == k;
                        assert(keys[j] == keys[i as int]);
                    }
                }
                if give_back_applies(before, k, amount) {
                    assert(before.available[k] == m0.available[k]);
                    assert(given_back(before, k, amount) == given_back(m0, k, amount));
                    assert(before.idle.contains_key(ArtifactKey::Resource(k)) == m0.idle.contains_key(
                        ArtifactKey::Resource(k),
                    ));
                    if m0.idle.contains_key(ArtifactKey::Resource(k)) {
                        assert(before.idle[ArtifactKey::Resource(k)] == m0.idle[ArtifactKey::Resource(k)]);
                    }
                }
            }
            let ghost tm0 = tm;
            if self.give_back_quantity(name, amount) {
                let now = match fixed {
                    Some(t) => t,
                    None => self.clock.now_ms(),
                };
                proof {
                    if fixed is None {
                        tm = with_time(tm, k, now);
                    }
                }
                self.set_resource_idle(name, now);
            }
            proof {
                assert(self@ == add_model(before, k, amount, tm(k)));
                assert forall|x: Seq<char>| x != k implies #[trigger] tm(x) == tm0(x) by {}
                let t = keys.take(i as int);
                let t1 = keys.take(i as int + 1);
                assert(t1 =~= t.push(k));
                assert forall|k2: Seq<char>| #[trigger] t1.contains(k2) == (t.contains(k2) || k2 == k) by {
                    if t.contains(k2) {
                        let j = choose|j: int| 0 <= j < t.len() && t[j] == k2;
                        assert(t1[j] == k2);
                    }
                    if k2 == k {
                        assert(t1[i as int] == k2);
                    }
                    if t1.contains(k2) {
                        let j = choose|j: int| 0 <= j < t1.len() && t1[j] == k2;
                        if j < i {
                            assert(t[j] == k2);
                        }
                    }
                }
            }
            i = i + 1;
        }
        proof {
            assert(keys.take(n as int) =~= keys);
            assert forall|k: Seq<char>| #[trigger] rel.contains_key(k) <==> keys.contains(k) by {
                if rel.contains_key(k) {
                    let j = choose|j: int| 0 <= j < keys.len() && keys[j] == k;
                    assert(keys[j] == k);
                }
            }
            let want = release_model(m0, rel, tm);
            assert(self@.available =~= want.available);
            assert(self@.idle =~= want.idle);
        }
        Ghost(tm)
    }

    /// Takes `amount` of a resource and returns the shortfall; without
    /// `allow_going_negative` the availability stops at zero. A resource that
    /// is absent counts as zero and is added. The resource becomes busy.
    pub fn subtract_resource_instances(&mut self, resource_name: &str, amount: i64, allow_going_negative: bool) -> (underflow: i64)
        ensures
            (final(self)@, underflow) == subtract_model(old(self)@, resource_name@, amount, allow_going_negative),
    {
        if amount <= 0 {
            return 0;
        }
        let name = resource_name.to_owned();
        let have = self.available.get_or_zero(resource_name);
        let underflow = if allow_going_negative {
            0
        } else {
            let short = sub_clamped(amount, have);
            if short < 0 {
                0
            } else {
                short
            }
        };
        let mut left = sub_clamped(have, amount);
        if !allow_going_negative && left < 0 {
            left = 0;
        }
        self.available.insert(name.clone(), left);
        self.set_resource_non_idle(&name);
        underflow
    }

    /// Marks a footprint busy and clears every footprint's saved idle time; a
    /// footprint that is busy already is left alone.
    pub fn mark_footprint_as_busy(&mut self, item: WorkFootprint)
        ensures
            final(self)@ == mark_busy_model(old(self)@, item),
    {
        match self.footprint_state(item) {
            Some(prev) => {
                if prev.current.is_none() {
                    return;
                }
            },
            None => {},
        }
        self.set_footprint_state(item, Some(IdleTimeState { current: None, saved: None }));
        let ghost m1 = self@;
        match self.node_workers {
            Some(st) => {
                self.node_workers = Some(IdleTimeState { current: st.current, saved: None });
            },
            None => {},
        }
        match self.pulling_task_arguments {
            Some(st) => {
                self.pulling_task_arguments = Some(IdleTimeState { current: st.current, saved: None });
            },
            None => {},
        }
        proof {
            let want = mark_busy_model(old(self)@, item);
            assert forall|x: ArtifactKey| #[trigger] self@.idle.contains_key(x) == want.idle.contains_key(x) by {
                if x is Footprint {
                    assert(m1.idle.contains_key(x) == want.idle.contains_key(x));
                }
            }
            assert(self@.idle =~= want.idle);
        }
    }

    /// Marks a footprint busy for a while, saving its idle time so that
    /// becoming idle restores it; a footprint that is busy already is left
    /// alone.
    pub fn maybe_mark_footprint_as_busy(&mut self, item: WorkFootprint)
        ensures
            final(self)@ == maybe_mark_busy_model(old(self)@, item),
    {
        match self.footprint_state(item) {
            Some(state) => {
                if state.current.is_none() {
                    return;
                }
                self.set_footprint_state(item, Some(IdleTimeState { current: None, saved: state.current }));
            },
            None => {
                self.set_footprint_state(
                    item,
                    Some(IdleTimeState { current: None, saved: Some(UNTRACKED_IDLE_MARKER) }),
                );
            },
        }
    }

    /// Marks a footprint idle: a saved idle time comes back, an untracked
    /// footprint is forgotten, and otherwise it is idle from the clock's
    /// current reading. A footprint idle with nothing saved is left alone.
    /// The clock is read only where its reading is used.
    pub fn mark_footprint_as_idle(&mut self, item: WorkFootprint)
        ensures
            exists|t: i64| final(self)@ == mark_idle_model(old(self)@, item, t),
    {
        let reads_clock = match self.footprint_state(item) {
            Some(st) => st.saved.is_none() && st.current.is_none(),
            None => true,
        };
        let now = if reads_clock {
            self.clock.now_ms()
        } else {
            0
        };
        self.mark_footprint_as_idle_at(item, now);
    }

    /// What `mark_footprint_as_idle` does when the clock reads `now`.
    pub fn mark_footprint_as_idle_at(&mut self, item: WorkFootprint, now: i64)
        ensures
            final(self)@ == mark_idle_model(old(self)@, item, now),
    {
        let prev = self.footprint_state(item);
        match prev {
            Some(st) => {
                if st.current.is_some() && st.saved.is_none() {
                    return;
                }
            },
            None => {},
        }
        let saved = match prev {
            Some(st) => st.saved,
            None => None,
        };
        match saved {
            Some(x) => {
                if x == UNTRACKED_IDLE_MARKER {
                    self.set_footprint_state(item, None);
                    return;
                }
                self.set_footprint_state(item, Some(IdleTimeState { current: Some(x), saved: None }));
            },
            None => {
                self.set_footprint_state(item, Some(IdleTimeState { current: Some(now), saved: None }));
            },
        }
    }

    /// The latest idle time of all resources and footprints, or none while
    /// any of them is busy; the least `i64` where nothing is tracked.
    pub fn get_resource_idle_time(&self) -> (r: Option<i64>)
        ensures
            match r {
                Some(t) => !some_busy(self@.idle) && is_idle_time(self@.idle, t),
                None => some_busy(self@.idle),
            },
    {
        let ghost idle = self@.idle;
        let mut all_idle_time: i64 = i64::MIN;
        let ghost mut witness: Option<ArtifactKey> = None;
        match self.node_workers {
            Some(st) => match st.current {
                Some(c) => {
                    if c > all_idle_time {
                        all_idle_time = c;
                        proof {
                            witness = Some(ArtifactKey::Footprint(WorkFootprint::NodeWorkers));
                        }
                    }
                },
                None => {
                    assert(idle.contains_key(ArtifactKey::Footprint(WorkFootprint::NodeWorkers)));
                    return None;
                },
            },
            None => {},
        }
        match self.pulling_task_arguments {
            Some(st) => match st.current {
                Some(c) => {
                    if c > all_idle_time {
                        all_idle_time = c;
                        proof {
                            witness = Some(ArtifactKey::Footprint(WorkFootprint::PullingTaskArguments));
                        }
                    }
                },
                None => {
                    assert(idle.contains_key(ArtifactKey::Footprint(WorkFootprint::PullingTaskArguments)));
                    return None;
                },
            },
            None => {},
        }
        let n = self.resource_idle.len();
        let ghost keys = self.resource_idle.key_seq();
        proof {
            self.resource_idle.lemma_keys();
        }
        let mut i: usize = 0;
        while i < n
            invariant
                n == keys.len(),
                keys == self.resource_idle.key_seq(),
                idle == self@.idle,
                i <= n,
                forall|j: int| 0 <= j < n ==> self.resource_idle@.contains_key(#[trigger] keys[j]),
                forall|x: ArtifactKey|
                    #[trigger] idle.contains_key(x) && (x is Footprint || keys.take(i as int).contains(
                        x->Resource_0,
                    )) ==> idle[x].current is Some && idle[x].current->0 <= all_idle_time,
                all_idle_time == i64::MIN || (witness is Some && idle.contains_key(witness->0)
                    && idle[witness->0].current == Some(all_idle_time)),
            decreases n - i,
        {
            let st = *self.resource_idle.value_at(i);
            let ghost k = keys[i as int];
            let ghost x = ArtifactKey::Resource(k);
            proof {
                assert(idle.contains_key(x));
                assert(idle[x] == st);
            }
            match st.current {
                Some(c) => {
                    if c > all_idle_time {
                        all_idle_time = c;
                        proof {
                            witness = Some(x);
                        }
                    }
                },
                None => {
                    return None;
                },
            }
            proof {
                let t = keys.take(i as int);
                let t1 = keys.take(i as int + 1);
                assert(t1 =~= t.push(k));
                assert forall|k2: Seq<char>| #[trigger] t1.contains(k2) == (t.contains(k2) || k2 == k) by {
                    if t.contains(k2) {
                        let j = choose|j: int| 0 <= j < t.len() && t[j] == k2;
                        assert(t1[j] == k2);
                    }
                    if k2 == k {
                        assert(t1[i as int] == k2);
                    }
                    if t1.contains(k2) {
                        let j = choose|j: int| 0 <= j < t1.len() && t1[j] == k2;
                        if j < i {
                            assert(t[j] == k2);
                        }
                    }
                }
            }
            i = i + 1;
        }
        proof {
            assert(keys.take(n as int) =~= keys);
            assert forall|x: ArtifactKey| #[trigger] idle.contains_key(x) implies idle[x].current is Some
                && idle[x].current->0 <= all_idle_time by {
                if x is Resource {
                    let j = choose|j: int| 0 <= j < keys.len() && keys[j] == x->Resource_0;
                    assert(keys.take(n as int)[j] == x->Resource_0);
                }
            }
            if all_idle_time != i64::MIN {
                assert(idle.contains_key(witness->0));
            }
        }
        Some(all_idle_time)
    }

    /// Whether no resource or footprint is busy.
    pub fn is_local_node_idle(&self) -> (b: bool)
        ensures
            b == !some_busy(self@.idle),
    {
        self.get_resource_idle_time().is_some()
    }
}

// ---------------------------------------------------------------------------
// Laws
// ---------------------------------------------------------------------------

/// Releasing what an allocation took gives every resource back its
/// availability, where each positive quantity names a resource with a total
/// and an availability within that total; a resource that is then at its
/// total becomes idle from its own clock reading.
pub proof fn law_release_undoes_allocate(
    m: LocalModel,
    required: Map<Seq<char>, i64>,
    times: spec_fn(Seq<char>) -> i64,
)
    requires
        has_capacity_spec(m.available, required),
        forall|k: Seq<char>| #[trigger] required.contains_key(k) && required[k] > 0 ==> m.available.contains_key(k)
            && m.total.contains_key(k) && m.available[k] <= m.total[k],
    ensures
        allocate_model(m, required).1,
        release_model(allocate_model(m, required).0, required, times).available == m.available,
        release_model(allocate_model(m, required).0, required, times).total == m.total,
        forall|k: Seq<char>| #[trigger] required.contains_key(k) && required[k] > 0 && m.available[k] == m.total[k]
            ==> release_model(allocate_model(m, required).0, required, times).idle[ArtifactKey::Resource(k)].current
            == Some(times(k)),
{
    let a = allocate_model(m, required).0;
    let r = release_model(a, required, times);
    assert forall|k: Seq<char>| #[trigger] r.available.contains_key(k) implies r.available[k] == m.available[k] by {
        if required.contains_key(k) && required[k] > 0 {
            assert(amount_of(m.available, k) >= required[k]);
        }
    }
    assert(r.available =~= m.available);
}

/// A footprint marked busy keeps the node from being idle.
pub proof fn law_busy_footprint_blocks_idle(m: LocalModel, item: WorkFootprint)
    ensures
        some_busy(mark_busy_model(m, item).idle),
        some_busy(maybe_mark_busy_model(m, item).idle),
{
    let k = ArtifactKey::Footprint(item);
    assert(mark_busy_model(m, item).idle.contains_key(k));
    assert(maybe_mark_busy_model(m, item).idle.contains_key(k));
}

/// Becoming idle after a temporary busy period restores a footprint's
/// previous state, where the footprint was untracked or idle since a time
/// other than the least `i64`, with nothing saved.
pub proof fn law_temporary_busy_restores_idle_state(m: LocalModel, item: WorkFootprint, t: i64)
    requires
        ({
            let k = ArtifactKey::Footprint(item);
            !m.idle.contains_key(k) || (m.idle[k].saved is None && m.idle[k].current is Some
                && m.idle[k].current != Some(UNTRACKED_IDLE_MARKER))
        }),
    ensures
        mark_idle_model(maybe_mark_busy_model(m, item), item, t) == m,
{
    let k = ArtifactKey::Footprint(item);
    let r = mark_idle_model(maybe_mark_busy_model(m, item), item, t);
    if m.idle.contains_key(k) {
        assert(r.idle =~= m.idle);
    } else {
        assert(r.idle =~= m.idle);
    }
}

/// Marking a footprint idle twice is the same as once, unless the first call
/// forgets an untracked footprint.
pub proof fn law_mark_idle_is_idempotent(m: LocalModel, item: WorkFootprint, t1: i64, t2: i64)
    requires
        ({
            let k = ArtifactKey::Footprint(item);
            !(m.idle.contains_key(k) && m.idle[k].saved == Some(UNTRACKED_IDLE_MARKER))
        }),
    ensures
        mark_idle_model(mark_idle_model(m, item, t1), item, t2) == mark_idle_model(m, item, t1),
{
}

/// Without going negative, what is left and the shortfall together account
/// for the amount taken, where the difference stays within `i64`.
pub proof fn law_subtract_accounts_for_amount(m: LocalModel, n: Seq<char>, amount: i64)
    requires
        amount > 0,
        i64::MIN < amount_of(m.available, n) - amount <= i64::MAX,
    ensures
        ({
            let (r, underflow) = subtract_model(m, n, amount, false);
            &&& r.available[n] >= 0
            &&& underflow >= 0
            &&& r.available[n] - underflow == amount_of(m.available, n) - amount
        }),
{
}

/// Marking a footprint busy leaves it busy. Where it was not busy already,
/// it also clears the saved idle time of every footprint, so that a footprint
/// that is still busy afterwards becomes idle from the clock reading at which
/// it is next marked idle; other artifacts and the resources are untouched.
pub proof fn law_mark_busy_clears_saved_idle_times(
    m: LocalModel,
    item: WorkFootprint,
    other: WorkFootprint,
    t: i64,
)
    ensures
        ({
            let b = mark_busy_model(m, item);
            let k = ArtifactKey::Footprint(item);
            &&& b.idle.contains_key(k)
            &&& b.idle[k].current is None
            &&& b.total == m.total
            &&& b.available == m.available
            &&& forall|x: ArtifactKey| #[trigger] m.idle.contains_key(x) && x is Resource ==> b.idle.contains_key(x) && b.idle[x] == m.idle[x]
        }),
        !(m.idle.contains_key(ArtifactKey::Footprint(item)) && m.idle[ArtifactKey::Footprint(item)].current is None) ==> {
            let b = mark_busy_model(m, item);
            &&& forall|x: ArtifactKey| #[trigger] b.idle.contains_key(x) && x is Footprint ==> b.idle[x].saved is None
            &&& (b.idle.contains_key(ArtifactKey::Footprint(other)) && b.idle[ArtifactKey::Footprint(other)].current is None)
                ==> mark_idle_model(b, other, t).idle[ArtifactKey::Footprint(other)].current == Some(t)
        },
{
}

} // verus!
