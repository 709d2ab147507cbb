//! The decisions that a subscribing session makes: which announced
//! broadcasts it keeps, which subscription a group belongs to, and how much of
//! a frame is still to come.

use crate::coding::DecodeError;
use crate::names::NameMap;
use std::collections::HashMap;
use vstd::prelude::*;

verus! {

broadcast use vstd::std_specs::hash::group_hash_axioms;

/// Why a session step failed.
#[derive(Clone, Copy, Debug, PartialEq, Eq)]
pub enum Error {
    /// The work is no longer wanted.
    Cancel,
    /// A broadcast was announced that the origin already has under its name.
    Duplicate,
    /// A broadcast ended that was never announced.
    NotFound,
    /// A group arrived that the track no longer accepts.
    Old,
    /// A frame's data did not match its announced size.
    WrongSize,
    /// A message could not be decoded.
    Decode(DecodeError),
}

/// The broadcasts that a peer announced as active, each with the producer of
/// type `P` that serves it, by suffix.
pub struct Announced<P> {
    producers: NameMap<P>,
}

impl<P> Announced<P> {
    /// Each suffix is held at most once.
    pub closed spec fn wf(&self) -> bool {
        self.producers.wf()
    }

    /// The active broadcasts by suffix.
    pub closed spec fn producers(&self) -> Map<Seq<char>, P> {
        self.producers@
    }

    /// No broadcast announced yet.
    pub fn new() -> (a: Self)
        ensures
            a.wf(),
            a.producers() == Map::<Seq<char>, P>::empty(),
    {
        Announced { producers: NameMap::new() }
    }

    /// A broadcast was announced as active and its producer was offered to
    /// the origin, which accepted it (`published`) or refused it as a
    /// duplicate. An accepted broadcast is kept under its suffix; a refused
    /// one fails the session with `Duplicate`.
    pub fn active(&mut self, suffix: String, producer: P, published: bool) -> (res: Result<
        (),
        Error,
    >)
        requires
            old(self).wf(),
        ensures
            final(self).wf(),
            published ==> res is Ok && final(self).producers() == old(self).producers().insert(
                suffix@,
                producer,
            ),
            !published ==> res == Err::<(), Error>(Error::Duplicate) && final(self).producers()
                == old(self).producers(),
    {
        if !published {
            return Err(Error::Duplicate);
        }
        let _ = self.producers.insert(suffix, producer);
        Ok(())
    }

    /// A broadcast was announced as ended: its producer is taken out so that
    /// it can be finished. A suffix that is not active fails with `NotFound`.
    pub fn ended(&mut self, suffix: &str) -> (res: Result<P, Error>)
        requires
            old(self).wf(),
        ensures
            final(self).wf(),
            final(self).producers() == old(self).producers().remove(suffix@),
            old(self).producers().dom().contains(suffix@) ==> (res matches Ok(p) && p == old(
                self,
            ).producers()[suffix@]),
            !old(self).producers().dom().contains(suffix@) ==> res == Err::<P, Error>(
                Error::NotFound,
            ),
    {
        match self.producers.remove(suffix) {
            Some(producer) => Ok(producer),
            None => Err(Error::NotFound),
        }
    }
}

/// A broadcast announced as active and then as ended hands back the producer
/// it was announced with, and leaves the other broadcasts as they were.
pub proof fn lemma_ended_after_active<P>(producers: Map<Seq<char>, P>, suffix: Seq<char>, producer: P)
    ensures
        producers.insert(suffix, producer).dom().contains(suffix),
        producers.insert(suffix, producer)[suffix] == producer,
        producers.insert(suffix, producer).remove(suffix) == producers.remove(suffix),
{
    assert(producers.insert(suffix, producer).remove(suffix) =~= producers.remove(suffix));
}

/// The id that follows `id`: one more, wrapping around after `u64::MAX`.
pub open spec fn id_after(id: u64) -> u64 {
    if id < u64::MAX {
        (id + 1) as u64
    } else {
        0
    }
}

/// The id that the next subscription gets after `k` ids were handed out,
/// starting from `start`.
pub open spec fn id_after_allocations(start: u64, k: nat) -> u64
    decreases k,
{
    if k == 0 {
        start
    } else {
        id_after(id_after_allocations(start, (k - 1) as nat))
    }
}

/// On a new set of subscriptions (whose first id is 0), the `k`-th id handed
/// out is `k`, for the first 2^64 ids: ids go up from 0 in the order they are
/// handed out, so no two subscriptions of a session share one.
pub proof fn lemma_ids_count_up(k: nat)
    requires
        k <= u64::MAX,
    ensures
        id_after_allocations(0, k) == k,
    decreases k,
{
    if k > 0 {
        lemma_ids_count_up((k - 1) as nat);
    }
}

/// Two different allocations among the first 2^64 on a new set of
/// subscriptions hand out different ids.
pub proof fn lemma_ids_distinct(i: nat, j: nat)
    requires
        i < j <= u64::MAX,
    ensures
        id_after_allocations(0, i) != id_after_allocations(0, j),
{
    lemma_ids_count_up(i);
    lemma_ids_count_up(j);
}

/// The subscriptions of a session, each with the producer of type `P` that
/// receives its groups, by subscription id; and the id that the next
/// subscription gets.
pub struct Subscriptions<P> {
    next_id: u64,
    tracks: HashMap<u64, P>,
}

impl<P> Subscriptions<P> {
    /// The id that the next subscription gets.
    pub closed spec fn next_id(&self) -> u64 {
        self.next_id
    }

    /// The subscriptions by id.
    pub closed spec fn tracks(&self) -> Map<u64, P> {
        self.tracks@
    }

    /// No subscriptions; the first id is 0.
    pub fn new() -> (s: Self)
        ensures
            s.next_id() == 0,
            s.tracks() == Map::<u64, P>::empty(),
    {
        Subscriptions { next_id: 0, tracks: HashMap::new() }
    }

    /// Hands out the next subscription id; ids count up from 0 and wrap
    /// around after `u64::MAX`.
    pub fn allocate_id(&mut self) -> (id: u64)
        ensures
            id == old(self).next_id(),
            final(self).next_id() == id_after(old(self).next_id()),
            final(self).tracks() == old(self).tracks(),
    {
        let id = self.next_id;
        self.next_id = if self.next_id < u64::MAX {
            self.next_id + 1
        } else {
            0
        };
        id
    }

    /// A subscription started: its producer receives the groups sent under
    /// `id`. Hands back the producer that the id had, if any.
    pub fn insert(&mut self, id: u64, track: P) -> (previous: Option<P>)
        ensures
            final(self).tracks() == old(self).tracks().insert(id, track),
            final(self).next_id() == old(self).next_id(),
            match previous {
                Some(t) => old(self).tracks().dom().contains(id) && t == old(self).tracks()[id],
                None => !old(self).tracks().dom().contains(id),
            },
    {
        self.tracks.insert(id, track)
    }

    /// A subscription ended: its id no longer receives groups.
    pub fn remove(&mut self, id: u64) -> (removed: Option<P>)
        ensures
            final(self).tracks() == old(self).tracks().remove(id),
            final(self).next_id() == old(self).next_id(),
            match removed {
                Some(t) => old(self).tracks().dom().contains(id) && t == old(self).tracks()[id],
                None => !old(self).tracks().dom().contains(id),
            },
    {
        self.tracks.remove(&id)
    }

    /// The producer that a group sent under `id` goes to; a group for an id
    /// that is not (or no longer) subscribed is cancelled.
    pub fn route(&self, id: u64) -> (res: Result<&P, Error>)
        ensures
            self.tracks().dom().contains(id) ==> (res matches Ok(t) && *t == self.tracks()[id]),
            !self.tracks().dom().contains(id) ==> res == Err::<&P, Error>(Error::Cancel),
    {
        match self.tracks.get(&id) {
            Some(track) => Ok(track),
            None => Err(Error::Cancel),
        }
    }
}

/// What to do with a track, group or frame once the work on it ended: finish
/// it when the work succeeded, abort it with the error otherwise.
pub enum Completion {
    Finish,
    Abort(Error),
}

/// Whether work that ended with `res` finishes or aborts what it worked on:
/// a cancelled subscription or group is aborted with `Cancel`, one that failed
/// otherwise with its error.
pub fn completion(res: Result<(), Error>) -> (c: Completion)
    ensures
        res is Ok ==> c is Finish,
        res matches Err(e) ==> (c matches Completion::Abort(f) && f == e),
{
    match res {
        Ok(()) => Completion::Finish,
        Err(err) => Completion::Abort(err),
    }
}

/// A group that the track created goes on; one it refused (the group is
/// older than what the track already has) fails with `Old`.
pub fn accept_group<G>(created: Option<G>) -> (res: Result<G, Error>)
    ensures
        created matches Some(g) ==> (res matches Ok(h) && h == g),
        created is None ==> res == Err::<G, Error>(Error::Old),
{
    match created {
        Some(group) => Ok(group),
        None => Err(Error::Old),
    }
}

/// What reading a group does next.
pub enum GroupStep {
    /// Read a frame of `size` bytes.
    ReadFrame { size: u64 },
    /// The group's stream ended: finish the group.
    Finish,
    /// A frame failed: abort that frame and stop reading the group.
    Stop(Error),
}

/// The next step of reading a group, from the header of the next frame
/// (`None` when the stream ended between frames).
pub fn next_frame(header: Option<u64>) -> (step: GroupStep)
    ensures
        header matches Some(size) ==> (step matches GroupStep::ReadFrame { size: s } && s
            == size),
        header is None ==> step is Finish,
{
    match header {
        Some(size) => GroupStep::ReadFrame { size },
        None => GroupStep::Finish,
    }
}

/// The step after a frame was read with result `res`: go on to the next
/// frame, or stop the group with the frame's error.
pub fn after_frame(res: Result<(), Error>) -> (step: Option<GroupStep>)
    ensures
        res is Ok ==> step is None,
        res matches Err(e) ==> (step matches Some(GroupStep::Stop(f)) && f == e),
{
    match res {
        Ok(()) => None,
        Err(err) => Some(GroupStep::Stop(err)),
    }
}

/// How much of a frame is still to be received.
pub struct FrameProgress {
    size: u64,
    remain: u64,
}

impl FrameProgress {
    /// The frame's announced size.
    pub closed spec fn size(&self) -> u64 {
        self.size
    }

    /// The bytes still to come.
    pub closed spec fn remain(&self) -> u64 {
        self.remain
    }

    /// Never more remains than the frame's size.
    pub closed spec fn wf(&self) -> bool {
        self.remain <= self.size
    }

    /// A frame of `size` bytes, none of which arrived yet.
    pub fn new(size: u64) -> (f: Self)
        ensures
            f.wf(),
            f.size() == size,
            f.remain() == size,
    {
        FrameProgress { size, remain: size }
    }

    /// Whether the whole frame arrived.
    pub fn is_complete(&self) -> (done: bool)
        ensures
            done == (self.remain() == 0),
    {
        self.remain == 0
    }

    /// The most bytes to ask the stream for next: what remains, as a
    /// `usize` (truncated where `usize` is narrower).
    pub fn read_limit(&self) -> (n: usize)
        ensures
            n == self.remain() as usize,
    {
        self.remain as usize
    }

    /// A read returned a chunk of `chunk` bytes, or nothing when the stream
    /// ended. An ended stream, or a chunk longer than what remains, fails with
    /// `WrongSize` and changes nothing; otherwise the chunk counts against
    /// what remains.
    pub fn accept(&mut self, chunk: Option<usize>) -> (res: Result<(), Error>)
        requires
            old(self).wf(),
        ensures
            final(self).wf(),
            final(self).size() == old(self).size(),
            match chunk {
                Some(n) if n <= old(self).remain() => res is Ok && final(self).remain() == old(
                    self,
                ).remain() - n,
                _ => res == Err::<(), Error>(Error::WrongSize) && final(self).remain() == old(
                    self,
                ).remain(),
            },
    {
        let n = match chunk {
            Some(n) => n,
            None => {
                return Err(Error::WrongSize);
            },
        };
        let n = n as u64;
        match self.remain.checked_sub(n) {
            Some(remain) => {
                self.remain = remain;
                Ok(())
            },
            None => Err(Error::WrongSize),
        }
    }
}

} // verus!
