//! The heartbeat of a connection: how often it beats, and that it is started
//! once.
use crate::frame::{ServerFrameView, ServerFrames};
use crate::session::{heartbeat_period, heartbeat_period_ms, Violation};
use vstd::prelude::*;

verus! {

/// A heartbeat that a client asked for, with the interval in tenths of a
/// second.
#[derive(Debug)]
pub struct Heartbeat {
    is_running: bool,
    interval: u32,
}

impl Heartbeat {
    /// Whether the heartbeat has been started.
    pub closed spec fn running(&self) -> bool {
        self.is_running
    }

    /// The interval that the client asked for, in tenths of a second.
    pub closed spec fn interval(&self) -> u32 {
        self.interval
    }

    /// A heartbeat for `interval` tenths of a second, not yet started.
    pub fn new(interval: u32) -> (h: Heartbeat)
        ensures
            !h.running(),
            h.interval() == interval,
    {
        Heartbeat { is_running: false, interval }
    }

    /// Starts the heartbeat. The first start gives the period in
    /// milliseconds at which to beat, or nothing for the interval zero, which
    /// asks for no heartbeats. A later start gives the error frame to send
    /// instead.
    pub fn start(&mut self) -> (r: Result<Option<u64>, ServerFrames>)
        ensures
            final(self).running(),
            final(self).interval() == old(self).interval(),
            match r {
                Ok(period) => !old(self).running() && period == heartbeat_period(
                    old(self).interval(),
                ),
                Err(frame) => old(self).running() && frame@ == (ServerFrameView::Error {
                    msg: Violation::SecondHeartbeat.message(),
                }) && frame@.fits(),
            },
    {
        if self.is_running {
            return Err(Violation::SecondHeartbeat.into_frame());
        }
        self.is_running = true;
        Ok(heartbeat_period_ms(self.interval))
    }

    /// The frame that every beat sends.
    pub fn beat(&self) -> (frame: ServerFrames)
        ensures
            frame@ == ServerFrameView::Heartbeat,
            frame@.fits(),
    {
        ServerFrames::Heartbeat
    }
}

} // verus!
