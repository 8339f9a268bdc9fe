//! Keep-alive pings to the server and the sequence numbers of pose
//! updates. Times are nanoseconds of the caller's monotonic clock.

use vstd::prelude::*;

verus! {

/// A ping goes out once this much time passed since the last one.
pub const PING_INTERVAL_NS: u64 = 1_000_000_000;

/// Ping bookkeeping of a connection.
#[derive(Debug, Clone, Copy)]
pub struct PingState {
    pub ping_timer_ns: u64,
    pub ping_nonce: u32,
    pub ping_sent_at_ns: Option<u64>,
    pub pose_seq: u32,
}

impl PingState {
    pub fn new() -> (r: Self)
        ensures
            r.ping_timer_ns == 0,
            r.ping_nonce == 0,
            r.ping_sent_at_ns is None,
            r.pose_seq == 0,
    {
        PingState { ping_timer_ns: 0, ping_nonce: 0, ping_sent_at_ns: None, pose_seq: 0 }
    }

    /// Advances the ping timer by `dt_ns` while connected; once a second has
    /// passed the timer restarts and a ping with the next nonce (wrapping)
    /// is due, sent at `now_ns`. Returns the nonce to send.
    pub fn maybe_send_ping(&mut self, connected: bool, dt_ns: u64, now_ns: u64) -> (r: Option<u32>)
        requires
            connected ==> old(self).ping_timer_ns + dt_ns <= u64::MAX,
        ensures
            final(self).pose_seq == old(self).pose_seq,
            if !connected {
                &&& r is None
                &&& *final(self) == *old(self)
            } else if old(self).ping_timer_ns + dt_ns < PING_INTERVAL_NS {
                &&& r is None
                &&& final(self).ping_timer_ns == old(self).ping_timer_ns + dt_ns
                &&& final(self).ping_nonce == old(self).ping_nonce
                &&& final(self).ping_sent_at_ns == old(self).ping_sent_at_ns
            } else {
                let nonce = if old(self).ping_nonce == u32::MAX { 0 } else { old(self).ping_nonce + 1 };
                &&& r == Some(nonce as u32)
                &&& final(self).ping_timer_ns == 0
                &&& final(self).ping_nonce == nonce
                &&& final(self).ping_sent_at_ns == Some(now_ns)
            },
    {
        if !connected {
            return None;
        }
        self.ping_timer_ns = self.ping_timer_ns + dt_ns;
        if self.ping_timer_ns < PING_INTERVAL_NS {
            return None;
        }
        self.ping_timer_ns = 0;
        self.ping_nonce = self.ping_nonce.wrapping_add(1);
        self.ping_sent_at_ns = Some(now_ns);
        Some(self.ping_nonce)
    }

    /// Takes a pong: when it answers the latest ping, returns when that ping
    /// was sent (at most once per ping).
    pub fn handle_pong(&mut self, nonce: u32) -> (r: Option<u64>)
        ensures
            final(self).ping_timer_ns == old(self).ping_timer_ns,
            final(self).ping_nonce == old(self).ping_nonce,
            final(self).pose_seq == old(self).pose_seq,
            if nonce == old(self).ping_nonce {
                &&& r == old(self).ping_sent_at_ns
                &&& final(self).ping_sent_at_ns is None
            } else {
                &&& r is None
                &&& final(self).ping_sent_at_ns == old(self).ping_sent_at_ns
            },
    {
        if self.ping_nonce != nonce {
            return None;
        }
        self.ping_sent_at_ns.take()
    }

    /// The sequence number of the next pose update (wrapping).
    pub fn next_pose_seq(&mut self) -> (r: u32)
        ensures
            r == (if old(self).pose_seq == u32::MAX { 0 } else { old(self).pose_seq + 1 }),
            final(self).pose_seq == r,
            final(self).ping_timer_ns == old(self).ping_timer_ns,
            final(self).ping_nonce == old(self).ping_nonce,
            final(self).ping_sent_at_ns == old(self).ping_sent_at_ns,
    {
        self.pose_seq = self.pose_seq.wrapping_add(1);
        self.pose_seq
    }
}

} // verus!
