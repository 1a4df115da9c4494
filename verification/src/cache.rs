//! Caches that operators keep between searches, notified of route changes.
use vstd::prelude::*;

verus! {

use crate::Node;
use crate::model::{SolutionModel, ContextModel};
use crate::route_context::RouteContext;
use crate::solution::AlkaidSolution;

/// A cache of computed move deltas that must follow route changes.
///
/// Caches must support resetting, adding/removing routes, and saving state.
/// Each method's effect is described by a relation between the cache before
/// and after the call; an implementation may state its own by overriding
/// the `*_post` functions, which otherwise allow any new state.
pub trait Cache: Sized {
    /// `new` is a state that `reset` may leave this cache in.
    open spec fn reset_post(&self, new: Self, solution: SolutionModel, context: ContextModel) -> bool {
        true
    }

    /// `new` is a state that `add_route` may leave this cache in.
    open spec fn add_route_post(&self, new: Self, route_index: Node) -> bool {
        true
    }

    /// `new` is a state that `remove_route` may leave this cache in.
    open spec fn remove_route_post(&self, new: Self, route_index: Node) -> bool {
        true
    }

    /// `new` is a state that `move_route` may leave this cache in.
    open spec fn move_route_post(&self, new: Self, dest_route_index: Node, src_route_index: Node) -> bool {
        true
    }

    /// `new` is a state that `save` may leave this cache in.
    open spec fn save_post(&self, new: Self, solution: SolutionModel, context: ContextModel) -> bool {
        true
    }

    /// Resets the cache based on the current solution state.
    fn reset(&mut self, solution: &AlkaidSolution, context: &RouteContext)
        ensures
            old(self).reset_post(*final(self), solution@, context@),
    ;

    /// Called when a new route is added.
    fn add_route(&mut self, route_index: Node)
        ensures
            old(self).add_route_post(*final(self), route_index),
    ;

    /// Called when a route is removed.
    fn remove_route(&mut self, route_index: Node)
        ensures
            old(self).remove_route_post(*final(self), route_index),
    ;

    /// Called when a route is moved (during compaction).
    fn move_route(&mut self, dest_route_index: Node, src_route_index: Node)
        ensures
            old(self).move_route_post(*final(self), dest_route_index, src_route_index),
    ;

    /// Saves the current state for later comparison.
    fn save(&mut self, solution: &AlkaidSolution, context: &RouteContext)
        ensures
            old(self).save_post(*final(self), solution@, context@),
    ;
}

/// The one cache of type `C` that operators share, created on first use.
pub struct CacheMap<C> {
    cache: Option<C>,
}

impl<C> View for CacheMap<C> {
    type V = Option<C>;

    closed spec fn view(&self) -> Option<C> {
        self.cache
    }
}

impl<C: Cache> CacheMap<C> {
    /// Creates a new empty cache map.
    pub fn new() -> (m: Self)
        ensures
            m@ is None,
    {
        CacheMap { cache: None }
    }

    /// Gets the cache, creating it first if it does not exist yet: a
    /// default value, reset once for `solution` and `context`. An existing
    /// cache is handed back as it is, with no call made on it.
    pub fn get(&mut self, solution: &AlkaidSolution, context: &RouteContext) -> (c: &mut C)
        where C: Default,
        ensures
            old(self)@ is Some ==> *c == old(self)@->0,
            old(self)@ is None ==> exists|d: C| call_ensures(C::default, (), d) && #[trigger] d.reset_post(*c, solution@, context@),
            final(self)@ == Some(*final(c)),
    {
        if self.cache.is_some() {
            self.cache.as_mut().unwrap()
        } else {
            let mut cache = C::default();
            let ghost fresh = cache;
            cache.reset(solution, context);
            assert(fresh.reset_post(cache, solution@, context@));
            self.cache.insert(cache)
        }
    }

    /// Resets the cache, if there is one.
    pub fn reset(&mut self, solution: &AlkaidSolution, context: &RouteContext)
        ensures
            old(self)@ is None ==> final(self)@ is None,
            old(self)@ is Some ==> final(self)@ is Some && (old(self)@->0).reset_post(final(self)@->0, solution@, context@),
    {
        match self.cache.as_mut() {
            Some(cache) => cache.reset(solution, context),
            None => {},
        }
    }

    /// Notifies the cache, if there is one, that a route was added.
    pub fn add_route(&mut self, route_index: Node)
        ensures
            old(self)@ is None ==> final(self)@ is None,
            old(self)@ is Some ==> final(self)@ is Some && (old(self)@->0).add_route_post(final(self)@->0, route_index),
    {
        match self.cache.as_mut() {
            Some(cache) => cache.add_route(route_index),
            None => {},
        }
    }

    /// Notifies the cache, if there is one, that a route was removed.
    pub fn remove_route(&mut self, route_index: Node)
        ensures
            old(self)@ is None ==> final(self)@ is None,
            old(self)@ is Some ==> final(self)@ is Some && (old(self)@->0).remove_route_post(final(self)@->0, route_index),
    {
        match self.cache.as_mut() {
            Some(cache) => cache.remove_route(route_index),
            None => {},
        }
    }

    /// Notifies the cache, if there is one, that a route was moved.
    pub fn move_route(&mut self, dest_route_index: Node, src_route_index: Node)
        ensures
            old(self)@ is None ==> final(self)@ is None,
            old(self)@ is Some ==> final(self)@ is Some && (old(self)@->0).move_route_post(
                final(self)@->0,
                dest_route_index,
                src_route_index,
            ),
    {
        match self.cache.as_mut() {
            Some(cache) => cache.move_route(dest_route_index, src_route_index),
            None => {},
        }
    }

    /// Saves state in the cache, if there is one.
    pub fn save(&mut self, solution: &AlkaidSolution, context: &RouteContext)
        ensures
            old(self)@ is None ==> final(self)@ is None,
            old(self)@ is Some ==> final(self)@ is Some && (old(self)@->0).save_post(final(self)@->0, solution@, context@),
    {
        match self.cache.as_mut() {
            Some(cache) => cache.save(solution, context),
            None => {},
        }
    }
}

} // verus!
