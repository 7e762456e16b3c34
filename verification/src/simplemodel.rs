//! A simple synchronous user model: one message every 300 to 900 seconds,
//! client side only.

use std::sync::Arc;
use vstd::prelude::*;

use crate::histogram::Histogram;
use crate::mailbox::MailBox;
use crate::mixnode::Mixnode;
use crate::rng::{gen_range_u64, rng_from_entropy};
use crate::userasyncmodel::UserRequest;
use crate::usermodel::{AnonModelKind, Emission, UserModel, UserModelInfo};

verus! {

/// Longest interval between two messages, in seconds.
pub const INTERVAL_MAX: u64 = 900;

/// Shortest interval between two messages, in seconds.
pub const INTERVAL_MIN: u64 = 300;

/// A client that sends one message at a uniformly drawn interval; no
/// peers, no mailbox, no requests.
pub struct SimpleSynchronousModel {
    /// timestamp of current time, starting at 0
    current_time: u64,
    /// the max value of a timing message
    limit: u64,
    rng: rand::rngs::SmallRng,
    uinfo: UserModelInfo,
    /// the timestamp last emitted
    last: Ghost<u64>,
    /// the log of every tuple yielded so far
    emitted: Ghost<Seq<Emission>>,
}

impl SimpleSynchronousModel {
    /// Advance the clock by a uniform draw in `[INTERVAL_MIN,
    /// INTERVAL_MAX)`, holding at the top of the clock's range.
    fn step_time(&mut self) -> (t: u64)
        requires
            old(self).wf(),
        ensures
            final(self).wf(),
            t == final(self).spec_model_time(),
            t == u64::MAX || (old(self).spec_model_time() + INTERVAL_MIN <= t
                && t < old(self).spec_model_time() + INTERVAL_MAX),
            old(self).spec_model_time() + INTERVAL_MAX <= u64::MAX ==> (old(
                self,
            ).spec_model_time() + INTERVAL_MIN <= t && t < old(self).spec_model_time()
                + INTERVAL_MAX),
            t >= old(self).spec_model_time(),
            final(self).spec_model_limit() == old(self).spec_model_limit(),
            final(self).spec_last() == old(self).spec_last(),
            final(self).spec_uinfo() == old(self).spec_uinfo(),
            final(self).spec_emitted() == old(self).spec_emitted(),
    {
        let delta = gen_range_u64(&mut self.rng, INTERVAL_MIN, INTERVAL_MAX);
        if delta > u64::MAX - self.current_time {
            self.current_time = u64::MAX;
        } else {
            self.current_time = self.current_time + delta;
        }
        self.current_time
    }

    pub closed spec fn spec_model_time(&self) -> u64 {
        self.current_time
    }

    pub closed spec fn spec_model_limit(&self) -> u64 {
        self.limit
    }

    pub closed spec fn spec_last(&self) -> u64 {
        self.last@
    }

    pub closed spec fn spec_uinfo(&self) -> UserModelInfo {
        self.uinfo
    }

    pub closed spec fn spec_emitted(&self) -> Seq<Emission> {
        self.emitted@
    }
}

impl UserModel for SimpleSynchronousModel {
    closed spec fn wf(&self) -> bool {
        &&& self.uinfo.wf()
        &&& self.limit > 0 ==> ((self.limit - 1) as u64) / (self.uinfo.spec_epoch() as u64)
            < self.uinfo.spec_topos().len()
        &&& self.last@ <= self.current_time
    }

    closed spec fn ready(&self) -> bool {
        true
    }

    closed spec fn stream_ok(&self) -> bool {
        true
    }

    closed spec fn spec_limit(&self) -> u64 {
        self.limit
    }

    closed spec fn spec_current_time(&self) -> u64 {
        self.current_time
    }

    closed spec fn spec_last_time(&self) -> u64 {
        self.last@
    }

    closed spec fn spec_userid(&self) -> u32 {
        self.uinfo.spec_userid()
    }

    closed spec fn spec_epoch(&self) -> u32 {
        self.uinfo.spec_epoch()
    }

    closed spec fn spec_topos_len(&self) -> nat {
        self.uinfo.spec_topos().len()
    }

    closed spec fn spec_contacts(&self) -> Seq<u32> {
        self.uinfo.spec_contacts()
    }

    closed spec fn spec_kind(&self) -> AnonModelKind {
        AnonModelKind::ClientOnly
    }

    closed spec fn senders_has(&self, user: u32) -> bool {
        self.uinfo.senders_map().contains_key(user)
    }

    closed spec fn senders_cleared(&self) -> bool {
        self.uinfo.senders_map() =~= Map::<u32, crossbeam_channel::Sender<UserRequest>>::empty()
    }

    closed spec fn emissions(&self) -> Seq<Emission> {
        self.emitted@
    }

    closed spec fn spec_guard_for(&self, topo_idx: int) -> Option<Mixnode> {
        match self.uinfo.spec_guards() {
            Some(gs) => crate::usermodel::first_online(gs, self.uinfo.spec_topos()[topo_idx]),
            None => None,
        }
    }

    closed spec fn spec_mailbox_for(&self, _topo_idx: int) -> Option<MailBox> {
        None
    }

    closed spec fn exhausted(&self) -> bool {
        self.current_time >= self.limit
    }

    closed spec fn progress(&self) -> (int, int, int) {
        (
            if self.current_time < self.limit {
                self.limit - self.current_time
            } else {
                0
            },
            0,
            0,
        )
    }

    proof fn progress_nonneg(&self) {
    }

    closed spec fn has_timestamp_sampler(&self) -> bool {
        true
    }

    closed spec fn has_size_sampler(&self) -> bool {
        true
    }

    proof fn ready_from_setup(&self) {
    }

    fn new(_tot_users: u32, epoch: u32, uinfo: UserModelInfo) -> (m: Self) {
        let rng = rng_from_entropy();
        SimpleSynchronousModel {
            current_time: 0,
            limit: 0,
            rng,
            uinfo,
            last: Ghost(0),
            emitted: Ghost(Seq::empty()),
        }
    }

    fn get_current_time(&self) -> u64 {
        self.current_time
    }

    fn get_userid(&self) -> u32 {
        self.uinfo.get_userid()
    }

    fn get_limit(&self) -> u64 {
        self.limit
    }

    fn set_limit(&mut self, limit: u64) {
        self.limit = limit;
    }

    fn get_next_message_timing(&mut self) -> u64 {
        self.step_time()
    }

    fn model_kind(&self) -> AnonModelKind {
        AnonModelKind::ClientOnly
    }

    fn get_request(&self) -> Option<UserRequest> {
        self.uinfo.get_request()
    }

    fn get_guard_for(&self, topo_idx: usize) -> Option<Mixnode> {
        self.uinfo.get_guard_for(topo_idx)
    }

    /// A synchronous client has no mailbox.
    fn get_mailbox(&self, _topo_idx: usize) -> Option<MailBox> {
        None
    }

    fn set_contacts(&mut self, contacts: u32, total_users: u32) {
        self.uinfo.set_contacts(contacts, total_users, &mut self.rng);
    }

    fn get_contacts(&self) -> Option<&Vec<u32>> {
        Some(self.uinfo.contacts())
    }

    /// A synchronous client receives nothing; the channel is dropped.
    fn with_receiver(&mut self, _r: crossbeam_channel::Receiver<UserRequest>) {
    }

    /// A synchronous client draws no timings from a histogram.
    fn with_timestamp_sampler(&mut self, _h: Arc<Histogram>) {
    }

    /// A synchronous client draws no sizes from a histogram.
    fn with_size_sampler(&mut self, _h: Arc<Histogram>) {
    }

    /// A synchronous client sends no requests.
    fn add_sender(&mut self, _user: u32, _s: crossbeam_channel::Sender<UserRequest>) {
    }

    fn drop_senders(&mut self) {
        self.uinfo.drop_senders();
    }

    fn update(&mut self, message_timing: u64) {
        self.uinfo.update(message_timing, &mut self.rng);
    }

    /// One message: advance the clock by a uniform interval draw; while
    /// the new time is below the limit, move the guards to it and yield
    /// it, with no mailbox and no request id.
    fn next(&mut self) -> (r: Option<Emission>)
        ensures
            old(self).spec_current_time() + INTERVAL_MAX <= old(self).spec_limit() ==> r is Some,
            r matches Some(item) ==> (old(self).spec_current_time() + INTERVAL_MIN <= item.0
                && item.0 < old(self).spec_current_time() + INTERVAL_MAX && item.2 is None
                && item.3 is None && item.1 == final(self).spec_uinfo().spec_selected_guard()),
    {
        let t = self.step_time();
        if t < self.limit {
            proof {
                vstd::arithmetic::div_mod::lemma_div_is_ordered(
                    t as int,
                    (self.limit - 1) as int,
                    self.uinfo.spec_epoch() as int,
                );
            }
            self.uinfo.update(t, &mut self.rng);
            let guard = self.uinfo.get_selected_guard();
            self.last = Ghost(t);
            let item = (t, guard, None, None);
            self.emitted = Ghost(self.emitted@.push(item));
            Some(item)
        } else {
            None
        }
    }
}

} // verus!
