//! Routes signals to the tasks waiting on them.
//!
//! A [`Router`] is a fixed-capacity mapping from signal identifier to the one
//! continuation (a task index) currently parked on that signal. At most one
//! continuation is pending per identifier; parking again on the same
//! identifier replaces the earlier registration (last writer wins). The
//! mapping is kept in a `heapless::FnvIndexMap`, a fixed-capacity hash map
//! that never allocates; its behaviour is stated by the trusted wrappers
//! below and everything on top of them is verified.

use vstd::prelude::*;

use crate::signal::Id;

verus! {

/// Declares `heapless::IndexMap` to the verifier; its values are opaque
/// here and reachable only through the trusted wrappers below.
#[verifier::external_type_specification]
#[verifier::external_body]
#[verifier::reject_recursive_types(K)]
#[verifier::reject_recursive_types(V)]
#[verifier::reject_recursive_types(S)]
pub struct ExIndexMap<K, V, S, const N: usize>(heapless::IndexMap<K, V, S, N>);

/// Declares `hash32::BuildHasherDefault`, the hasher factory behind
/// `heapless::FnvIndexMap`, to the verifier.
#[verifier::external_type_specification]
#[verifier::external_body]
#[verifier::reject_recursive_types(H)]
pub struct ExBuildHasherDefault<H>(hash32::BuildHasherDefault<H>);

/// Declares `hash32::FnvHasher`, the hash function behind
/// `heapless::FnvIndexMap`, to the verifier.
#[verifier::external_type_specification]
#[verifier::external_body]
pub struct ExFnvHasher(hash32::FnvHasher);

/// The concrete routing table: identifier to task index, at most 8 entries.
pub type RouterMap = heapless::FnvIndexMap<u8, u8, 8>;

/// The key-value pairs held by the routing table.
pub uninterp spec fn entries_of(m: RouterMap) -> Map<u8, u8>;

/// Relies on `heapless::IndexMap::new`: a fresh map holds no entries.
#[verifier::external_body]
fn map_new() -> (m: RouterMap)
    ensures
        entries_of(m).dom() == Set::<u8>::empty(),
{
    heapless::FnvIndexMap::new()
}

/// Relies on `heapless::IndexMap::insert`: stores `value` under `key`,
/// replacing and returning any earlier value; a *new* key is refused exactly
/// when all 8 slots are taken.
#[verifier::external_body]
fn map_insert(m: &mut RouterMap, key: u8, value: u8) -> (r: Result<Option<u8>, (u8, u8)>)
    ensures
        r is Ok ==> entries_of(*final(m)) == entries_of(*old(m)).insert(key, value),
        r is Ok ==> (r->Ok_0 is Some <==> entries_of(*old(m)).contains_key(key)),
        r is Ok && r->Ok_0 is Some ==> r->Ok_0->Some_0 == entries_of(*old(m))[key],
        r is Ok ==> entries_of(*old(m)).contains_key(key) || (entries_of(*old(m)).dom().finite()
            && entries_of(*old(m)).dom().len() < 8),
        r is Err ==> entries_of(*final(m)) == entries_of(*old(m)) && r->Err_0 == (key, value)
            && !entries_of(*old(m)).contains_key(key) && entries_of(*old(m)).dom().finite()
            && entries_of(*old(m)).dom().len() == 8,
{
    m.insert(key, value)
}

/// Relies on `heapless::IndexMap::remove`: removes and returns the value
/// under `key`, or `None` when the key is absent.
#[verifier::external_body]
fn map_remove(m: &mut RouterMap, key: u8) -> (r: Option<u8>)
    ensures
        r is Some <==> entries_of(*old(m)).contains_key(key),
        r is Some ==> r->Some_0 == entries_of(*old(m))[key],
        entries_of(*final(m)) == entries_of(*old(m)).remove(key),
{
    m.remove(&key)
}

/// Relies on `heapless::IndexMap::get` (copied out): the value under `key`,
/// without removing it.
#[verifier::external_body]
fn map_get(m: &RouterMap, key: u8) -> (r: Option<u8>)
    ensures
        r is Some <==> entries_of(*m).contains_key(key),
        r is Some ==> r->Some_0 == entries_of(*m)[key],
{
    m.get(&key).copied()
}

/// The error returned by [`Router::route`] when all routing slots are taken
/// by other signals: the system is undersized, the registration was dropped.
#[derive(Clone, Copy, Debug, PartialEq, Eq, Structural)]
pub struct RouteCapacityExceeded;

/// Fixed-capacity mapping from signal identifier to the index of the one
/// task parked on that signal.
///
/// Its view is the mapping itself, identifier to task index.
pub struct Router {
    map: RouterMap,
}

impl View for Router {
    type V = Map<u8, u8>;

    closed spec fn view(&self) -> Map<u8, u8> {
        entries_of(self.map)
    }
}

impl Router {
    /// The routing table holds finitely many entries, at most one per slot,
    /// and every registered identifier names a bit of the signal register.
    pub open spec fn wf(self) -> bool {
        &&& self@.dom().finite()
        &&& self@.dom().len() <= 8
        &&& forall|s: u8| #[trigger] self@.contains_key(s) ==> s < 32
    }

    /// An empty router: no signal routes anywhere.
    pub fn new() -> (r: Self)
        ensures
            r.wf(),
            r@ == Map::<u8, u8>::empty(),
    {
        let map = map_new();
        proof {
            assert(entries_of(map) =~= Map::<u8, u8>::empty());
        }
        Router { map }
    }

    /// Registers `task` as the continuation pending for `signal`, replacing
    /// any earlier registration for the same signal. Fails, leaving the
    /// router unchanged, exactly when all slots are taken by *other*
    /// signals; a correctly sized system never sees this.
    pub fn route(&mut self, signal: Id, task: u8) -> (r: Result<(), RouteCapacityExceeded>)
        requires
            old(self).wf(),
        ensures
            final(self).wf(),
            r is Ok ==> final(self)@ == old(self)@.insert(signal@, task),
            r is Err ==> final(self)@ == old(self)@ && !old(self)@.contains_key(signal@) && old(
                self,
            )@.dom().len() == 8,
            old(self)@.dom().len() < 8 || old(self)@.contains_key(signal@) ==> r is Ok,
    {
        proof {
            use_type_invariant(&signal);
        }
        let key: u8 = u8::from(signal);
        match map_insert(&mut self.map, key, task) {
            Ok(_) => {
                proof {
                    vstd::set::axiom_set_insert_len(old(self)@.dom(), signal@);
                    assert(self@.dom() =~= old(self)@.dom().insert(signal@));
                }
                Ok(())
            },
            Err(_) => Err(RouteCapacityExceeded),
        }
    }

    /// Removes and returns the continuation registered for `signal`, or
    /// `None` when nothing is pending there; asking again right away
    /// therefore returns `None`.
    pub fn wake(&mut self, signal: Id) -> (r: Option<u8>)
        requires
            old(self).wf(),
        ensures
            final(self).wf(),
            r is Some <==> old(self)@.contains_key(signal@),
            r is Some ==> r->Some_0 == old(self)@[signal@],
            final(self)@ == old(self)@.remove(signal@),
    {
        let key: u8 = u8::from(signal);
        let r = map_remove(&mut self.map, key);
        proof {
            vstd::set::axiom_set_remove_len(old(self)@.dom(), signal@);
            assert(self@.dom() =~= old(self)@.dom().remove(signal@));
        }
        r
    }

    /// The law [`Router::wake`] obeys, stated over the router's view: on a
    /// router where nothing was ever routed for `id` (the fresh, empty
    /// view), waking `id` finds nothing; after routing `c` under `id`, one
    /// wake finds exactly `c`, and the removal it performs leaves nothing
    /// for a second wake to find.
    pub proof fn lemma_wake_once(m: Map<u8, u8>, id: u8, c: u8)
        ensures
            !Map::<u8, u8>::empty().contains_key(id),
            m.insert(id, c).contains_key(id),
            m.insert(id, c)[id] == c,
            !m.insert(id, c).remove(id).contains_key(id),
    {
    }

    /// The last-writer-wins law of [`Router::route`], stated over the view:
    /// routing `c1` and then `c2` under the same `id` with no wake between
    /// leaves exactly `c2` to be woken, and only once.
    pub proof fn lemma_last_route_wins(m: Map<u8, u8>, id: u8, c1: u8, c2: u8)
        ensures
            m.insert(id, c1).insert(id, c2).contains_key(id),
            m.insert(id, c1).insert(id, c2)[id] == c2,
            !m.insert(id, c1).insert(id, c2).remove(id).contains_key(id),
    {
    }

    /// The continuation currently registered for `signal`, left in place.
    pub fn pending(&self, signal: Id) -> (r: Option<u8>)
        ensures
            r is Some <==> self@.contains_key(signal@),
            r is Some ==> r->Some_0 == self@[signal@],
    {
        map_get(&self.map, u8::from(signal))
    }
}

} // verus!
