//! The tracks of a broadcast: those its producer published, and those that
//! consumers asked for and that the producer has yet to serve.
//!
//! A consumer that subscribes to a name gets the published track if there is
//! one, else joins the request already made for it, else a new request has to
//! be made (and is recorded here, so that later subscribers join it).

use crate::names::NameMap;
use vstd::prelude::*;

verus! {

/// What a subscription to a name finds.
pub enum Subscription<'a, C, P> {
    /// The track was published; here is its consumer.
    Published(&'a C),
    /// The track was already requested; here is the producer that serves it.
    Requested(&'a P),
    /// Nobody published or requested the track yet.
    Unknown,
}

/// What a subscription to a name finds, as a value.
pub enum SubscriptionView<C, P> {
    Published(C),
    Requested(P),
    Unknown,
}

/// The subscription that a name finds among the published and the requested
/// tracks: published tracks come first.
pub open spec fn subscription_of<C, P>(
    published: Map<Seq<char>, C>,
    requested: Map<Seq<char>, P>,
    name: Seq<char>,
) -> SubscriptionView<C, P> {
    if published.dom().contains(name) {
        SubscriptionView::Published(published[name])
    } else if requested.dom().contains(name) {
        SubscriptionView::Requested(requested[name])
    } else {
        SubscriptionView::Unknown
    }
}

impl<'a, C, P> Subscription<'a, C, P> {
    /// The subscription as a value.
    pub open spec fn as_view(self) -> SubscriptionView<C, P> {
        match self {
            Subscription::Published(c) => SubscriptionView::Published(*c),
            Subscription::Requested(p) => SubscriptionView::Requested(*p),
            Subscription::Unknown => SubscriptionView::Unknown,
        }
    }
}

/// The lookup of a broadcast, with published consumers of type `C` and
/// requested producers of type `P`.
pub struct State<C, P> {
    published: NameMap<C>,
    requested: NameMap<P>,
}

impl<C, P> State<C, P> {
    /// Both lookups hold each name at most once.
    pub closed spec fn wf(&self) -> bool {
        self.published.wf() && self.requested.wf()
    }

    /// The published tracks by name.
    pub closed spec fn published(&self) -> Map<Seq<char>, C> {
        self.published@
    }

    /// The requested tracks by name.
    pub closed spec fn requested(&self) -> Map<Seq<char>, P> {
        self.requested@
    }

    /// A broadcast with no tracks.
    pub fn new() -> (s: Self)
        ensures
            s.wf(),
            s.published() == Map::<Seq<char>, C>::empty(),
            s.requested() == Map::<Seq<char>, P>::empty(),
    {
        State { published: NameMap::new(), requested: NameMap::new() }
    }

    /// Insert a new track into the lookup, returning the old track if it already exists.
    pub fn insert(&mut self, name: String, track: C) -> (previous: Option<C>)
        requires
            old(self).wf(),
        ensures
            final(self).wf(),
            final(self).published() == old(self).published().insert(name@, track),
            final(self).requested() == old(self).requested(),
            match previous {
                Some(t) => old(self).published().dom().contains(name@) && t == old(
                    self,
                ).published()[name@],
                None => !old(self).published().dom().contains(name@),
            },
    {
        self.published.insert(name, track)
    }

    /// Remove a track from the lookup.
    pub fn remove(&mut self, name: &str) -> (removed: Option<C>)
        requires
            old(self).wf(),
        ensures
            final(self).wf(),
            final(self).published() == old(self).published().remove(name@),
            final(self).requested() == old(self).requested(),
            match removed {
                Some(t) => old(self).published().dom().contains(name@) && t == old(
                    self,
                ).published()[name@],
                None => !old(self).published().dom().contains(name@),
            },
    {
        self.published.remove(name)
    }

    /// What a subscription to `name` finds: any explicitly published track,
    /// else the request already made for it, else nothing.
    pub fn subscribe(&self, name: &str) -> (found: Subscription<'_, C, P>)
        requires
            self.wf(),
        ensures
            found.as_view() == subscription_of(self.published(), self.requested(), name@),
    {
        if let Some(consumer) = self.published.get(name) {
            return Subscription::Published(consumer);
        }
        if let Some(requested) = self.requested.get(name) {
            return Subscription::Requested(requested);
        }
        Subscription::Unknown
    }

    /// Records the producer that will serve a new request for `name`, so that
    /// later subscribers join it; hands back any producer it replaces.
    pub fn request(&mut self, name: String, producer: P) -> (previous: Option<P>)
        requires
            old(self).wf(),
        ensures
            final(self).wf(),
            final(self).requested() == old(self).requested().insert(name@, producer),
            final(self).published() == old(self).published(),
            match previous {
                Some(p) => old(self).requested().dom().contains(name@) && p == old(
                    self,
                ).requested()[name@],
                None => !old(self).requested().dom().contains(name@),
            },
    {
        self.requested.insert(name, producer)
    }

    /// Forgets the request for `name` once nobody uses it any more.
    pub fn unrequest(&mut self, name: &str) -> (removed: Option<P>)
        requires
            old(self).wf(),
        ensures
            final(self).wf(),
            final(self).requested() == old(self).requested().remove(name@),
            final(self).published() == old(self).published(),
            match removed {
                Some(p) => old(self).requested().dom().contains(name@) && p == old(
                    self,
                ).requested()[name@],
                None => !old(self).requested().dom().contains(name@),
            },
    {
        self.requested.remove(name)
    }
}

/// A subscription after a track was published under a name finds that track,
/// whatever was requested.
pub proof fn lemma_subscribe_after_insert<C, P>(
    published: Map<Seq<char>, C>,
    requested: Map<Seq<char>, P>,
    name: Seq<char>,
    track: C,
)
    ensures
        subscription_of(published.insert(name, track), requested, name)
            == SubscriptionView::<C, P>::Published(track),
{
}

/// A subscription after a request was recorded for a name that nobody
/// published joins that request.
pub proof fn lemma_subscribe_after_request<C, P>(
    published: Map<Seq<char>, C>,
    requested: Map<Seq<char>, P>,
    name: Seq<char>,
    producer: P,
)
    requires
        !published.dom().contains(name),
    ensures
        subscription_of(published, requested.insert(name, producer), name)
            == SubscriptionView::<C, P>::Requested(producer),
{
}

/// After the published track under a name is removed, a subscription finds
/// whatever was requested under it.
pub proof fn lemma_subscribe_after_remove<C, P>(
    published: Map<Seq<char>, C>,
    requested: Map<Seq<char>, P>,
    name: Seq<char>,
)
    ensures
        subscription_of(published.remove(name), requested, name) == (if requested.dom().contains(
            name,
        ) {
            SubscriptionView::<C, P>::Requested(requested[name])
        } else {
            SubscriptionView::<C, P>::Unknown
        }),
{
}

} // verus!
