//! The camera side: waits for the network, and then takes pictures for as long as they are wanted.
use super::CameraControl;
use crate::clock::{Clock, Moment, LONGEST_NANOS};
use vstd::prelude::*;

verus! {

/// The frames per second are told when more than this many milliseconds have gone by.
pub const RATE_MILLIS: u128 = 1000;

/// Counts frames.
#[derive(Debug)]
pub struct FramerateStats {
    /// Tells the time.
    clock: Clock,
    /// When counting began.
    last: Moment,
    /// How many frames there have been since.
    count: usize,
}

impl View for FramerateStats {
    type V = (Moment, nat);

    closed spec fn view(&self) -> (Moment, nat) {
        (self.last, self.count as nat)
    }
}

/// One more frame at the time `now`: where counting began long enough ago, it begins anew with this frame.
pub open spec fn ticked(stats: (Moment, nat), now: Moment) -> (Moment, nat) {
    if now.millis_after(stats.0) > RATE_MILLIS {
        (now, 1)
    } else {
        (stats.0, stats.1 + 1)
    }
}

impl Default for FramerateStats {
    /// No frames yet.
    fn default() -> (stats: FramerateStats)
        ensures
            stats@.1 == 0,
    {
        let clock = Clock::start();
        FramerateStats { clock, last: clock.now(), count: 0 }
    }
}

impl FramerateStats {
    /// How many frames there have been since counting began.
    pub fn count(&self) -> (count: usize)
        ensures
            count == self@.1,
    {
        self.count
    }

    /// Counts a frame at the time `now`. Tells how many there were, if counting begins anew.
    pub fn tick_at(&mut self, now: Moment) -> (rate: Option<usize>)
        requires
            old(self)@.1 < usize::MAX,
        ensures
            final(self)@ == ticked(old(self)@, now),
            rate is Some <==> now.millis_after(old(self)@.0) > RATE_MILLIS,
            rate is Some ==> rate->0 == old(self)@.1,
    {
        if now.millis_since(self.last) > RATE_MILLIS {
            let rate: usize = self.count;
            self.last = now;
            self.count = 1;
            return Some(rate);
        }
        self.count = self.count + 1;
        None
    }

    /// Counts a frame. Tells how many there were, if counting begins anew.
    pub fn tick(&mut self) -> (rate: Option<usize>)
        requires
            old(self)@.1 < usize::MAX,
        ensures
            exists|now: Moment|
                {
                    &&& now.nanos <= LONGEST_NANOS
                    &&& final(self)@ == #[trigger] ticked(old(self)@, now)
                    &&& rate is Some <==> now.millis_after(old(self)@.0) > RATE_MILLIS
                    &&& rate is Some ==> rate->0 == old(self)@.1
                },
    {
        let now = self.clock.now();
        self.tick_at(now)
    }
}

/// Frames at some times, one after the other.
pub open spec fn ticked_all(stats: (Moment, nat), nows: Seq<Moment>) -> (Moment, nat)
    decreases nows.len(),
{
    if nows.len() == 0 {
        stats
    } else {
        ticked(ticked_all(stats, nows.drop_last()), nows.last())
    }
}

/// How many frames were told, in all, at some times.
pub open spec fn told_all(stats: (Moment, nat), nows: Seq<Moment>) -> nat
    decreases nows.len(),
{
    if nows.len() == 0 {
        0
    } else {
        let before = ticked_all(stats, nows.drop_last());
        told_all(stats, nows.drop_last()) + if nows.last().millis_after(before.0) > RATE_MILLIS {
            before.1
        } else {
            0
        }
    }
}

/// Every frame is counted once: those that were told and those that are still to be told are all there
/// were. The last frame is always still to be told. The time at which counting began never moves
/// backwards.
pub proof fn law_frames_are_kept(stats: (Moment, nat), nows: Seq<Moment>)
    ensures
        told_all(stats, nows) + ticked_all(stats, nows).1 == stats.1 + nows.len(),
        nows.len() > 0 ==> ticked_all(stats, nows).1 >= 1,
        ticked_all(stats, nows).0.nanos >= stats.0.nanos,
    decreases nows.len(),
{
    if nows.len() > 0 {
        law_frames_are_kept(stats, nows.drop_last());
    }
}

/// The time at which counting began changes only with a frame at which a rate is told, and is then the time
/// of that frame.
pub proof fn law_rate_restarts(stats: (Moment, nat), now: Moment)
    ensures
        now.millis_after(stats.0) > RATE_MILLIS ==> ticked(stats, now).0 == now && now.nanos > stats.0.nanos,
        now.millis_after(stats.0) <= RATE_MILLIS ==> ticked(stats, now).0 == stats.0,
{
}

/// What there was when the camera looked for a message.
#[derive(Debug)]
pub enum Polled {
    /// Nothing.
    Empty,
    /// Nothing, and there will never be anything.
    Closed,
    /// A message.
    Message(CameraControl),
}

/// What the camera has learned.
#[derive(Debug)]
pub enum CameraEvent {
    /// A message that it waited for; none where the channel was closed.
    Received(Option<CameraControl>),
    /// What there was when it looked for a message.
    Polled(Polled),
    /// A picture was taken and sent.
    Sent,
    /// A picture could not be taken or sent.
    Failed,
}

/// What the camera does next.
#[derive(Clone, Copy, Debug, PartialEq, Eq, Structural)]
pub enum CameraAction {
    /// Waits for a message.
    Wait,
    /// Counts a frame, and looks for a message without waiting.
    Poll,
    /// Takes a picture and sends it.
    Capture,
    /// Tells the network to terminate, and ends.
    Finish,
    /// Ends with an error.
    Fail,
}

/// Does the camera go on after it has looked for a message? It goes on until it is told to terminate, or nobody
/// is left to tell it; that the network is ready is nothing new.
pub open spec fn goes_on(polled: Polled) -> bool {
    match polled {
        Polled::Empty => true,
        Polled::Closed => false,
        Polled::Message(CameraControl::NetworkReady) => true,
        Polled::Message(CameraControl::Terminate) => false,
    }
}

/// What the camera does after `event`. It waits until the network is ready; from then on it looks for a
/// message before each picture.
pub open spec fn camera_next(event: CameraEvent) -> CameraAction {
    match event {
        CameraEvent::Received(None) => CameraAction::Fail,
        CameraEvent::Received(Some(CameraControl::NetworkReady)) => CameraAction::Poll,
        CameraEvent::Received(Some(CameraControl::Terminate)) => CameraAction::Finish,
        CameraEvent::Polled(polled) => if goes_on(polled) {
            CameraAction::Capture
        } else {
            CameraAction::Finish
        },
        CameraEvent::Sent => CameraAction::Poll,
        CameraEvent::Failed => CameraAction::Fail,
    }
}

/// What the camera does first.
pub fn first_action() -> (action: CameraAction)
    ensures
        action == CameraAction::Wait,
{
    CameraAction::Wait
}

/// What the camera does after `event`.
pub fn next_action(event: &CameraEvent) -> (action: CameraAction)
    ensures
        action == camera_next(*event),
{
    match event {
        CameraEvent::Received(None) => CameraAction::Fail,
        CameraEvent::Received(Some(CameraControl::NetworkReady)) => CameraAction::Poll,
        CameraEvent::Received(Some(CameraControl::Terminate)) => CameraAction::Finish,
        CameraEvent::Polled(Polled::Empty) => CameraAction::Capture,
        CameraEvent::Polled(Polled::Message(CameraControl::NetworkReady)) => CameraAction::Capture,
        CameraEvent::Polled(_) => CameraAction::Finish,
        CameraEvent::Sent => CameraAction::Poll,
        CameraEvent::Failed => CameraAction::Fail,
    }
}

/// A rate is told at a frame that comes at least 1001 whole milliseconds after counting began; it is the number of
/// frames up to then, and counting begins anew with this frame. Every other frame is counted.
pub proof fn law_tick(before: FramerateStats, now: Moment, rate: Option<usize>, after: FramerateStats)
    requires
        exists|stats: &mut FramerateStats|
            *stats == before && *final(stats) == after && #[trigger] call_ensures(
                FramerateStats::tick_at,
                (stats, now),
                rate,
            ),
    ensures
        ({
            let (since, count) = before@;
            if now.nanos - since.nanos >= 1_001_000_000 {
                &&& rate matches Some(told) && told == count
                &&& after@.0.nanos == now.nanos
                &&& after@.1 == 1
            } else {
                &&& rate is None
                &&& after@.0.nanos == since.nanos
                &&& after@.1 == count + 1
            }
        }),
{
}

/// The count is how many frames there have been.
pub proof fn law_count(stats: FramerateStats, count: usize)
    requires
        call_ensures(FramerateStats::count, (&stats,), count),
    ensures
        count == stats@.1,
{
}

/// The camera waits until the network is ready. From then on it looks for a message, and takes and sends a
/// picture unless it is told to terminate or there is nobody left to tell it. It ends in an error just where it
/// cannot be told that the network is ready, or something goes wrong with a picture.
pub proof fn law_camera(first: CameraAction, event: CameraEvent, next: CameraAction)
    requires
        call_ensures(first_action, (), first),
        call_ensures(next_action, (&event,), next),
    ensures
        first is Wait,
        next is Poll <==> event is Sent || (event matches CameraEvent::Received(Some(message)) && message
            is NetworkReady),
        next is Capture <==> (event matches CameraEvent::Polled(polled) && (polled is Empty || (
        polled matches Polled::Message(message) && message is NetworkReady))),
        next is Fail <==> event is Failed || (event matches CameraEvent::Received(message) && message is None),
        next is Finish <==> (event matches CameraEvent::Polled(polled) && (polled is Closed || (
        polled matches Polled::Message(message) && message is Terminate))) || (
        event matches CameraEvent::Received(Some(message)) && message is Terminate),
        !(next is Wait),
{
}

/// Nothing has been counted at first.
pub proof fn law_new_rate(stats: FramerateStats)
    requires
        call_ensures(<FramerateStats as Default>::default, (), stats),
    ensures
        stats@.1 == 0,
{
}

} // verus!
