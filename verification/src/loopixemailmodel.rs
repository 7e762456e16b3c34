//! An email-like data transfer as it would run on loopix, watched from
//! the sending client alone; the worst-case analysis assumes compromised
//! user gateways.

use std::sync::Arc;
use vstd::prelude::*;

use crate::config::PAYLOAD_SIZE;
use crate::histogram::Histogram;
use crate::mailbox::MailBox;
use crate::mixnode::Mixnode;
use crate::rng::{gen_index, rng_from_entropy};
use crate::userasyncmodel::{sort_requests_desc, sorted_desc, UserRequest};
use crate::usermodel::{AnonModelKind, Emission, UserModel, UserModelInfo};

verus! {

/// An email-like data transfer as it would run on loopix, analysed from
/// the client side alone under the worst-case assumption that user
/// gateways are compromised: requests are drawn and consumed like the
/// two-sided email model's, but nothing is dispatched to peers.
pub struct LoopixEmailModel {
    tot_users: u32,
    current_time: u64,
    /// requests of the current period, largest time first
    req_list: Vec<UserRequest>,
    /// the request being consumed now
    current_req: Option<UserRequest>,
    uinfo: UserModelInfo,
    timestamp_sampler: Option<Arc<Histogram>>,
    size_sampler: Option<Arc<Histogram>>,
    limit: u64,
    epoch: u32,
    rng: rand::rngs::SmallRng,
    /// the timestamp last emitted
    last: Ghost<u64>,
    /// the log of every tuple yielded so far
    emitted: Ghost<Seq<Emission>>,
}

impl LoopixEmailModel {
    /// What must hold of any pending request: it points into the
    /// topology array.
    pub open spec fn req_wf(&self, r: UserRequest) -> bool {
        (r.topos_idx as nat) < self.spec_topos_len()
    }

    pub closed spec fn spec_uinfo(&self) -> UserModelInfo {
        self.uinfo
    }

    pub closed spec fn spec_ts(&self) -> Option<Arc<Histogram>> {
        self.timestamp_sampler
    }

    /// Every bin of the timestamp histogram lies within one period, so a
    /// refill can never reach back before the advanced clock.
    pub open spec fn ts_bins_bounded(&self) -> bool {
        self.spec_ts() matches Some(h) && h.bins_bounded()
    }

    pub closed spec fn spec_ss(&self) -> Option<Arc<Histogram>> {
        self.size_sampler
    }

    pub closed spec fn spec_reqs(&self) -> Seq<UserRequest> {
        self.req_list@
    }

    pub closed spec fn spec_current_req(&self) -> Option<UserRequest> {
        self.current_req
    }

    /// Draw one request: a contact, a time offset from the timestamp
    /// histogram, and a size from the size histogram.  Nothing is
    /// dispatched: this model watches the sending client alone.  A
    /// request that would land past the limit, or whose time or size
    /// cannot be represented, is dropped.
    fn build_req(&mut self) -> (r: Option<UserRequest>)
        requires
            old(self).wf(),
            old(self).ready(),
        ensures
            final(self).wf(),
            final(self).ready(),
            final(self).spec_reqs() == old(self).spec_reqs(),
            final(self).spec_current_req() == old(self).spec_current_req(),
            final(self).spec_limit() == old(self).spec_limit(),
            final(self).spec_current_time() == old(self).spec_current_time(),
            final(self).spec_last_time() == old(self).spec_last_time(),
            final(self).spec_userid() == old(self).spec_userid(),
            final(self).spec_kind() == old(self).spec_kind(),
            final(self).spec_topos_len() == old(self).spec_topos_len(),
            final(self).spec_epoch() == old(self).spec_epoch(),
            final(self).spec_contacts() == old(self).spec_contacts(),
            final(self).spec_ts() == old(self).spec_ts(),
            final(self).spec_ss() == old(self).spec_ss(),
            final(self).emissions() == old(self).emissions(),
            forall|u: u32| final(self).senders_has(u) == old(self).senders_has(u),
            final(self).senders_cleared() == old(self).senders_cleared(),
            old(self).stream_ok() ==> final(self).stream_ok(),
            r matches Some(req) ==> ({
                &&& final(self).req_wf(req)
                &&& req.request_time < old(self).spec_limit()
                &&& req.request_time >= old(self).spec_current_time()
                &&& (old(self).ts_bins_bounded() ==> req.request_time as int <= old(
                    self,
                ).spec_current_time() + (old(self).spec_ts()->0).spec_period() + 1)
                &&& req.peers.0 == old(self).spec_userid()
                &&& old(self).spec_contacts().contains(req.peers.1)
                &&& req.topos_idx == ((req.request_time / (old(self).spec_epoch() as u64)) as u16)
                &&& req.request_size >= 0
                &&& req.requestid == crate::userasyncmodel::request_digest(
                    req.request_time,
                    req.request_size,
                    req.peers.0,
                    req.peers.1,
                )
                &&& (old(self).spec_ss() matches Some(h) ==> h.spec_timestamps().contains(
                    req.request_size as usize,
                ))
            }),
    {
        let cs = self.uinfo.contacts();
        let ci = gen_index(&mut self.rng, cs.len());
        let contact = cs[ci];
        proof {
            lemma_loopix_frame(old(self), self);
            assert(old(self).spec_contacts().contains(old(self).spec_contacts()[ci as int]));
        }
        let sample: usize = match &self.timestamp_sampler {
            Some(h) => h.sample(&mut self.rng),
            None => {
                proof {
                    assert(false);
                }
                return None;
            },
        };
        proof {
            lemma_loopix_frame(old(self), self);
            if old(self).ts_bins_bounded() {
                let h = self.spec_ts()->0;
                assert(h.spec_timestamps().contains(sample));
                let j = choose|j: int|
                    0 <= j < h.spec_timestamps().len() && h.spec_timestamps()[j] == sample;
                assert(sample as int <= h.spec_period() + 1);
            }
        }
        if (sample as u64) > u64::MAX - self.current_time {
            proof {
                lemma_loopix_frame(old(self), self);
            }
            return None;
        }
        let req_timestamp = self.current_time + (sample as u64);
        if req_timestamp >= self.limit {
            proof {
                lemma_loopix_frame(old(self), self);
            }
            return None;
        }
        let tlen = self.uinfo.topos_len();
        proof {
            assert(self.limit >= 1);
            vstd::arithmetic::div_mod::lemma_div_is_ordered(
                req_timestamp as int,
                (self.limit - 1) as int,
                self.epoch as int,
            );
        }
        let idx64 = req_timestamp / (self.epoch as u64);
        let topo_idx = idx64 as u16;
        proof {
            if idx64 < 0x10000 {
                assert(topo_idx == idx64);
            } else {
                assert(topo_idx < 0x10000);
            }
        }
        let size_sample: usize = match &self.size_sampler {
            Some(h) => h.sample(&mut self.rng),
            None => {
                proof {
                    assert(false);
                }
                return None;
            },
        };
        if size_sample > (isize::MAX as usize) {
            proof {
                lemma_loopix_frame(old(self), self);
            }
            return None;
        }
        let req = UserRequest::new(
            req_timestamp,
            size_sample as isize,
            (self.uinfo.get_userid(), contact),
            topo_idx,
        );
        proof {
            lemma_loopix_frame(old(self), self);
        }
        Some(req)
    }

    /// Refill the request batch for one period: draw `nbr_sampling`
    /// requests, sort them largest time first, start consuming the
    /// earliest, and advance the clock by one period.
    fn init_list(&mut self)
        requires
            old(self).wf(),
            old(self).ready(),
            old(self).spec_reqs().len() == 0,
        ensures
            final(self).wf(),
            final(self).ready(),
            final(self).spec_limit() == old(self).spec_limit(),
            final(self).spec_last_time() == old(self).spec_last_time(),
            final(self).spec_userid() == old(self).spec_userid(),
            final(self).spec_kind() == old(self).spec_kind(),
            final(self).spec_topos_len() == old(self).spec_topos_len(),
            final(self).spec_epoch() == old(self).spec_epoch(),
            final(self).spec_contacts() == old(self).spec_contacts(),
            final(self).spec_ts() == old(self).spec_ts(),
            final(self).spec_ss() == old(self).spec_ss(),
            final(self).emissions() == old(self).emissions(),
            forall|u: u32| final(self).senders_has(u) == old(self).senders_has(u),
            final(self).senders_cleared() == old(self).senders_cleared(),
            old(self).stream_ok() ==> final(self).stream_ok(),
            sorted_desc(final(self).spec_reqs()),
            final(self).spec_current_req() is None ==> final(self).spec_reqs().len() == 0,
            forall|j: int|
                0 <= j < final(self).spec_reqs().len() ==> ({
                    let q = #[trigger] final(self).spec_reqs()[j];
                    &&& old(self).spec_current_time() <= q.request_time
                    &&& q.request_time < old(self).spec_limit()
                    &&& q.request_size >= 0
                }),
            final(self).spec_current_req() matches Some(cr) ==> ({
                &&& (forall|j: int|
                    0 <= j < final(self).spec_reqs().len() ==> cr.request_time <= (
                    #[trigger] final(self).spec_reqs()[j]).request_time)
                &&& old(self).spec_current_time() <= cr.request_time
                &&& cr.request_time < old(self).spec_limit()
                &&& cr.request_size >= 0
            }),
            final(self).spec_reqs().len() as int + (if final(self).spec_current_req() is Some {
                1int
            } else {
                0int
            }) <= (old(self).spec_ts()->0).spec_nbr_sampling() as int,
            final(self).spec_current_time() == old(self).spec_current_time()
                + (old(self).spec_ts()->0).spec_period() + 1
                || final(self).spec_current_time() == u64::MAX,
            final(self).spec_current_time() > old(self).spec_current_time()
                || final(self).spec_current_time() == u64::MAX,
    {
        let ghost pre = *old(self);
        let n_samp = match &self.timestamp_sampler {
            Some(h) => h.get_nbr_sampling(),
            None => {
                proof {
                    assert(false);
                }
                return ;
            },
        };
        let mut i: u32 = 0;
        while i < n_samp
            invariant
                0 <= i <= n_samp,
                self.wf(),
                self.ready(),
                self.spec_current_req() == pre.spec_current_req(),
                self.spec_limit() == pre.spec_limit(),
                self.spec_current_time() == pre.spec_current_time(),
                self.spec_last_time() == pre.spec_last_time(),
                self.spec_userid() == pre.spec_userid(),
                self.spec_kind() == pre.spec_kind(),
                self.spec_topos_len() == pre.spec_topos_len(),
                self.spec_epoch() == pre.spec_epoch(),
                self.spec_contacts() == pre.spec_contacts(),
                self.spec_ts() == pre.spec_ts(),
                self.spec_ss() == pre.spec_ss(),
                self.emissions() == pre.emissions(),
                forall|u: u32| self.senders_has(u) == pre.senders_has(u),
                self.senders_cleared() == pre.senders_cleared(),
                pre.stream_ok() ==> forall|j: int|
                    0 <= j < self.spec_reqs().len() ==> ({
                        let t = (#[trigger] self.spec_reqs()[j]).request_time;
                        &&& pre.spec_current_time() <= t
                        &&& t as int <= pre.spec_current_time() + (
                        pre.spec_ts()->0).spec_period() + 1
                    }),
                self.spec_reqs().len() <= i,
                forall|j: int|
                    0 <= j < self.spec_reqs().len() ==> ({
                        let q = #[trigger] self.spec_reqs()[j];
                        &&& pre.spec_current_time() <= q.request_time
                        &&& q.request_time < pre.spec_limit()
                        &&& q.request_size >= 0
                    }),
            decreases n_samp - i,
        {
            let ghost before = *self;
            let req = self.build_req();
            match req {
                Some(req) => {
                    let ghost reqs0 = self.spec_reqs();
                    self.req_list.push(req);
                    proof {
                        assert(self.spec_reqs() == reqs0.push(req));
                        assert forall|j: int|
                            0 <= j < self.spec_reqs().len() implies self.req_wf(
                            #[trigger] self.spec_reqs()[j],
                        ) by {
                            if j < reqs0.len() {
                                assert(before.req_wf(reqs0[j]));
                            }
                        }
                        assert(self.wf());
                        assert forall|j: int|
                            0 <= j < self.spec_reqs().len() implies ({
                            let q = #[trigger] self.spec_reqs()[j];
                            &&& pre.spec_current_time() <= q.request_time
                            &&& q.request_time < pre.spec_limit()
                            &&& q.request_size >= 0
                        }) by {
                            if j < reqs0.len() {
                                assert(pre.spec_current_time() <= reqs0[j].request_time
                                    && reqs0[j].request_time < pre.spec_limit()
                                    && reqs0[j].request_size >= 0);
                            }
                        }
                        if pre.stream_ok() {
                            assert(before.ts_bins_bounded());
                            assert forall|j: int|
                                0 <= j < self.spec_reqs().len() implies ({
                                let t = (#[trigger] self.spec_reqs()[j]).request_time;
                                &&& pre.spec_current_time() <= t
                                &&& t as int <= pre.spec_current_time() + (
                                pre.spec_ts()->0).spec_period() + 1
                            }) by {
                                if j < reqs0.len() {
                                    assert(pre.spec_current_time() <= reqs0[j].request_time);
                                    assert(reqs0[j].request_time as int <= pre.spec_current_time()
                                        + (pre.spec_ts()->0).spec_period() + 1);
                                }
                            }
                        }
                    }
                },
                None => (),
            }
            i = i + 1;
        }
        let ghost filled = *self;
        sort_requests_desc(&mut self.req_list);
        proof {
            assert forall|j: int|
                0 <= j < self.spec_reqs().len() implies filled.spec_reqs().contains(
                #[trigger] self.spec_reqs()[j],
            ) by {}
            assert forall|j: int|
                0 <= j < self.spec_reqs().len() implies self.req_wf(
                #[trigger] self.spec_reqs()[j],
            ) by {
                let r = self.spec_reqs()[j];
                let k = choose|k: int|
                    0 <= k < filled.spec_reqs().len() && filled.spec_reqs()[k] == r;
                assert(filled.req_wf(filled.spec_reqs()[k]));
            }
            if pre.stream_ok() {
                assert forall|j: int|
                    0 <= j < self.spec_reqs().len() implies ({
                    let t = (#[trigger] self.spec_reqs()[j]).request_time;
                    &&& pre.spec_current_time() <= t
                    &&& t as int <= pre.spec_current_time() + (pre.spec_ts()->0).spec_period()
                        + 1
                }) by {
                    let r = self.spec_reqs()[j];
                    let k = choose|k: int|
                        0 <= k < filled.spec_reqs().len() && filled.spec_reqs()[k] == r;
                    assert(pre.spec_current_time() <= filled.spec_reqs()[k].request_time);
                    assert(filled.spec_reqs()[k].request_time as int <= pre.spec_current_time()
                        + (pre.spec_ts()->0).spec_period() + 1);
                }
            }
            assert forall|j: int|
                0 <= j < self.spec_reqs().len() implies ({
                let q = #[trigger] self.spec_reqs()[j];
                &&& pre.spec_current_time() <= q.request_time
                &&& q.request_time < pre.spec_limit()
                &&& q.request_size >= 0
            }) by {
                let r = self.spec_reqs()[j];
                let k = choose|k: int|
                    0 <= k < filled.spec_reqs().len() && filled.spec_reqs()[k] == r;
                assert(pre.spec_current_time() <= filled.spec_reqs()[k].request_time
                    && filled.spec_reqs()[k].request_time < pre.spec_limit()
                    && filled.spec_reqs()[k].request_size >= 0);
            }
        }
        let ghost sorted_state = *self;
        let popped = self.req_list.pop();
        self.current_req = popped;
        proof {
            if sorted_state.spec_reqs().len() > 0 {
                assert(self.spec_reqs() =~= sorted_state.spec_reqs().drop_last());
            } else {
                assert(self.spec_reqs() =~= sorted_state.spec_reqs());
            }
            assert forall|j: int|
                0 <= j < self.spec_reqs().len() implies self.req_wf(
                #[trigger] self.spec_reqs()[j],
            ) by {
                assert(sorted_state.req_wf(sorted_state.spec_reqs()[j]));
            }
            if popped is Some {
                assert(sorted_state.req_wf(sorted_state.spec_reqs()[
                    sorted_state.spec_reqs().len() - 1]));
            }
            assert(self.wf());
            assert forall|i: int, j: int|
                0 <= i < j < self.spec_reqs().len() implies (
            #[trigger] self.spec_reqs()[i]).request_time >= (
            #[trigger] self.spec_reqs()[j]).request_time by {
                assert(sorted_state.spec_reqs()[i].request_time
                    >= sorted_state.spec_reqs()[j].request_time);
            }
            if popped is Some {
                let cr = popped->0;
                assert(cr == sorted_state.spec_reqs()[sorted_state.spec_reqs().len() - 1]);
                assert forall|j: int|
                    0 <= j < self.spec_reqs().len() implies cr.request_time <= (
                #[trigger] self.spec_reqs()[j]).request_time by {
                    assert(sorted_state.spec_reqs()[j].request_time >= cr.request_time);
                }
            }
        }
        let period = match &self.timestamp_sampler {
            Some(h) => h.get_period(),
            None => {
                proof {
                    assert(false);
                }
                return ;
            },
        };
        let ghost before_adv = *self;
        if period == u64::MAX || self.current_time > u64::MAX - 1 - period {
            self.current_time = u64::MAX;
        } else {
            self.current_time = self.current_time + period + 1;
        }
        proof {
            assert(self.current_time >= pre.spec_current_time());
            if pre.stream_ok() {
                let h = pre.spec_ts()->0;
                assert(self.current_time >= pre.spec_current_time() + h.spec_period() + 1
                    || self.current_time == u64::MAX);
                assert forall|j: int|
                    0 <= j < self.spec_reqs().len() implies (self.spec_last_time() <= (
                #[trigger] self.spec_reqs()[j]).request_time && self.spec_reqs()[j].request_time
                    <= self.spec_current_time()) by {
                    assert(pre.spec_current_time() <= before_adv.spec_reqs()[j].request_time);
                    assert(before_adv.spec_reqs()[j].request_time as int <= pre.spec_current_time()
                        + h.spec_period() + 1);
                    assert(pre.spec_last_time() <= pre.spec_current_time());
                }
                if self.spec_current_req() is Some {
                    let r = self.spec_current_req()->0;
                    assert(pre.spec_current_time() <= r.request_time);
                    assert(r.request_time as int <= pre.spec_current_time() + h.spec_period()
                        + 1);
                    assert forall|j: int|
                        0 <= j < self.spec_reqs().len() implies r.request_time <= (
                    #[trigger] self.spec_reqs()[j]).request_time by {
                        assert(sorted_desc(sorted_state.spec_reqs()));
                        assert(sorted_state.spec_reqs()[sorted_state.spec_reqs().len() - 1]
                            == r);
                        assert(sorted_state.spec_reqs()[j] == self.spec_reqs()[j]);
                    }
                }
                assert(self.stream_ok());
            }
        }
    }
}

impl LoopixEmailModel {
    /// One step of the packet stream of the request under consumption:
    /// the next packet's timestamp, the guard after moving to it, and the
    /// request id; this model uses no mailbox hop.
    fn fetch_next(&mut self) -> (r: Option<(u64, Option<Mixnode>, Option<MailBox>, Option<u128>)>)
        requires
            old(self).wf(),
            old(self).ready(),
        ensures
            final(self).wf(),
            final(self).ready(),
            final(self).spec_reqs() == old(self).spec_reqs(),
            final(self).spec_limit() == old(self).spec_limit(),
            final(self).spec_current_time() == old(self).spec_current_time(),
            final(self).spec_userid() == old(self).spec_userid(),
            final(self).spec_kind() == old(self).spec_kind(),
            final(self).spec_topos_len() == old(self).spec_topos_len(),
            final(self).spec_epoch() == old(self).spec_epoch(),
            final(self).spec_contacts() == old(self).spec_contacts(),
            final(self).spec_ts() == old(self).spec_ts(),
            final(self).spec_ss() == old(self).spec_ss(),
            forall|u: u32| final(self).senders_has(u) == old(self).senders_has(u),
            final(self).senders_cleared() == old(self).senders_cleared(),
            old(self).stream_ok() ==> final(self).stream_ok(),
            r matches Some(item) ==> item.0 < old(self).spec_limit(),
            r matches Some(item) ==> final(self).spec_last_time() == item.0,
            r is None ==> final(self).spec_last_time() == old(self).spec_last_time(),
            old(self).stream_ok() ==> (r matches Some(item) ==> item.0 >= old(
                self,
            ).spec_last_time()),
            old(self).spec_current_req() is None ==> r is None && *final(self) == *old(self),
            r matches Some(item) ==> final(self).emissions() == old(self).emissions().push(item),
            r is None ==> final(self).emissions() == old(self).emissions(),
            old(self).spec_current_req() matches Some(req) ==> ((req.request_size >= 0
                && req.request_time < old(self).spec_limit()) ==> (r matches Some(item)
                && item.0 == req.request_time)),
            old(self).spec_current_req() matches Some(req) ==> ({
                &&& (req.request_size >= 0 ==> final(self).spec_current_req() == Some(
                    (UserRequest {
                        request_size: (req.request_size - PAYLOAD_SIZE) as isize,
                        ..req
                    }),
                ))
                &&& (req.request_size < 0 ==> (r is None && final(self).spec_current_req()
                    == Some(req)))
                &&& ((req.request_size >= 0 && req.request_time >= old(self).spec_limit())
                    ==> r is None)
                &&& ((req.request_size >= 0 && req.request_time < old(self).spec_limit()) ==> (
                r matches Some(item) && item.1 == final(self).spec_uinfo().spec_selected_guard()
                    && item.2 == old(self).spec_mailbox_for(req.topos_idx as int) && item.3
                    == Some(req.requestid) && crate::usermodel::guards_advance(
                    old(self).spec_uinfo(),
                    final(self).spec_uinfo(),
                    req.request_time,
                )))
            }),
    {
        let req0 = match &self.current_req {
            Some(r) => *r,
            None => {
                return None;
            },
        };
        let reqid = req0.get_requestid();
        let mut req = req0;
        let stepped = req.next();
        self.current_req = Some(req);
        match stepped {
            Some(timestamp) => {
                if timestamp < self.limit {
                    proof {
                        assert(self.limit >= 1);
                        vstd::arithmetic::div_mod::lemma_div_is_ordered(
                            timestamp as int,
                            (self.limit - 1) as int,
                            self.epoch as int,
                        );
                    }
                    self.uinfo.update(timestamp, &mut self.rng);
                    let guard = self.uinfo.get_selected_guard();
                    self.last = Ghost(timestamp);
                    let item = (timestamp, guard, None, Some(reqid));
                    self.emitted = Ghost(self.emitted@.push(item));
                    proof {
                        lemma_loopix_frame_req(old(self), self);
                    }
                    Some(item)
                } else {
                    proof {
                        lemma_loopix_frame_req(old(self), self);
                    }
                    None
                }
            },
            None => {
                proof {
                    lemma_loopix_frame_req(old(self), self);
                }
                None
            },
        }
    }
}

/// Validity, readiness and stream order carry over to a model state
/// whose relevant parts are unchanged (the clock may advance, the limit
/// and samplers may be replaced under their own side conditions).
proof fn lemma_loopix_frame(pre: &LoopixEmailModel, post: &LoopixEmailModel)
    requires
        pre.wf(),
        post.uinfo.wf(),
        post.uinfo.spec_epoch() == pre.uinfo.spec_epoch(),
        post.uinfo.spec_topos() == pre.uinfo.spec_topos(),
        post.epoch == pre.epoch,
        post.limit == pre.limit || (post.limit > 0 ==> ((post.limit - 1) as u64) / (
        post.epoch as u64) < post.uinfo.spec_topos().len()),
        post.timestamp_sampler == pre.timestamp_sampler || (post.timestamp_sampler matches Some(h)
            && h.wf()),
        post.size_sampler == pre.size_sampler || (post.size_sampler matches Some(h) && h.wf()),
        post.req_list@ == pre.req_list@,
        post.current_req == pre.current_req,
        post.last == pre.last,
        post.current_time >= pre.current_time,
    ensures
        post.wf(),
        (pre.ready() && post.uinfo.spec_contacts() == pre.uinfo.spec_contacts()
            && post.timestamp_sampler == pre.timestamp_sampler && post.size_sampler
            == pre.size_sampler) ==> post.ready(),
        (pre.stream_ok() && post.timestamp_sampler == pre.timestamp_sampler) ==> post.stream_ok(),
{
    if post.timestamp_sampler == pre.timestamp_sampler {
        assert(post.spec_ts() == pre.spec_ts());
    }
    if post.size_sampler == pre.size_sampler {
        assert(post.spec_ss() == pre.spec_ss());
    }
    assert(post.spec_reqs() == pre.spec_reqs());
    assert forall|i: int|
        0 <= i < post.spec_reqs().len() implies post.req_wf(#[trigger] post.spec_reqs()[i]) by {
        assert(pre.req_wf(pre.spec_reqs()[i]));
    }
    assert(post.wf());
    if pre.ready() && post.uinfo.spec_contacts() == pre.uinfo.spec_contacts()
        && post.timestamp_sampler == pre.timestamp_sampler && post.size_sampler
        == pre.size_sampler {
        assert(post.ready());
    }
    if pre.stream_ok() && post.timestamp_sampler == pre.timestamp_sampler {
        let h = pre.spec_ts()->0;
        assert forall|j: int|
            0 <= j < h.spec_timestamps().len() implies (#[trigger] h.spec_timestamps()[j]) as int
            <= h.spec_period() + 1 by {
        }
        assert forall|i: int|
            0 <= i < post.spec_reqs().len() implies (post.last@ <= (
        #[trigger] post.spec_reqs()[i]).request_time && post.spec_reqs()[i].request_time
            <= post.current_time) by {
            assert(pre.last@ <= pre.spec_reqs()[i].request_time);
            assert(pre.spec_reqs()[i].request_time <= pre.current_time);
        }
        assert forall|i: int, j: int|
            0 <= i < j < post.spec_reqs().len() implies (
        #[trigger] post.spec_reqs()[i]).request_time >= (
        #[trigger] post.spec_reqs()[j]).request_time by {
            assert(pre.spec_reqs()[i].request_time >= pre.spec_reqs()[j].request_time);
        }
        if post.spec_current_req() is Some {
            let r = post.spec_current_req()->0;
            assert forall|i: int|
                0 <= i < post.spec_reqs().len() implies r.request_time <= (
            #[trigger] post.spec_reqs()[i]).request_time by {
                assert(r.request_time <= pre.spec_reqs()[i].request_time);
            }
        }
        assert(post.stream_ok());
    }
}

/// As `lemma_loopix_frame`, but across one packet step: the request under
/// consumption keeps its time and topology index while its size shrinks,
/// and the last emitted timestamp may move up to that request's time.
proof fn lemma_loopix_frame_req(pre: &LoopixEmailModel, post: &LoopixEmailModel)
    requires
        pre.wf(),
        post.uinfo.wf(),
        post.uinfo.spec_epoch() == pre.uinfo.spec_epoch(),
        post.uinfo.spec_topos() == pre.uinfo.spec_topos(),
        post.epoch == pre.epoch,
        post.limit == pre.limit,
        post.timestamp_sampler == pre.timestamp_sampler,
        post.size_sampler == pre.size_sampler,
        post.req_list@ == pre.req_list@,
        post.current_time == pre.current_time,
        post.current_req is Some <==> pre.current_req is Some,
        post.current_req is Some ==> ((post.current_req->0).topos_idx == (
        pre.current_req->0).topos_idx && (post.current_req->0).request_time == (
        pre.current_req->0).request_time),
        post.last@ == pre.last@ || (post.current_req is Some && post.last@ == (
        post.current_req->0).request_time),
    ensures
        post.wf(),
        (pre.ready() && post.uinfo.spec_contacts() == pre.uinfo.spec_contacts())
            ==> post.ready(),
        pre.stream_ok() ==> post.stream_ok(),
{
    assert(post.spec_ts() == pre.spec_ts());
    assert(post.spec_ss() == pre.spec_ss());
    assert(post.spec_reqs() == pre.spec_reqs());
    assert forall|i: int|
        0 <= i < post.spec_reqs().len() implies post.req_wf(#[trigger] post.spec_reqs()[i]) by {
        assert(pre.req_wf(pre.spec_reqs()[i]));
    }
    if post.current_req is Some {
        assert(pre.req_wf(pre.current_req->0));
    }
    assert(post.wf());
    if pre.ready() && post.uinfo.spec_contacts() == pre.uinfo.spec_contacts() {
        assert(post.ready());
    }
    if pre.stream_ok() {
        assert forall|i: int|
            0 <= i < post.spec_reqs().len() implies (post.last@ <= (
        #[trigger] post.spec_reqs()[i]).request_time && post.spec_reqs()[i].request_time
            <= post.current_time) by {
            assert(pre.last@ <= pre.spec_reqs()[i].request_time);
            assert(pre.spec_reqs()[i].request_time <= pre.current_time);
            if post.last@ != pre.last@ {
                assert((pre.current_req->0).request_time <= pre.spec_reqs()[i].request_time);
            }
        }
        assert forall|i: int, j: int|
            0 <= i < j < post.spec_reqs().len() implies (
        #[trigger] post.spec_reqs()[i]).request_time >= (
        #[trigger] post.spec_reqs()[j]).request_time by {
            assert(pre.spec_reqs()[i].request_time >= pre.spec_reqs()[j].request_time);
        }
        if post.spec_current_req() is Some {
            let r = post.spec_current_req()->0;
            assert forall|i: int|
                0 <= i < post.spec_reqs().len() implies r.request_time <= (
            #[trigger] post.spec_reqs()[i]).request_time by {
                assert((pre.current_req->0).request_time <= pre.spec_reqs()[i].request_time);
            }
        }
        assert(post.stream_ok());
    }
}

impl UserModel for LoopixEmailModel {
    closed spec fn wf(&self) -> bool {
        &&& self.uinfo.wf()
        &&& self.epoch == self.uinfo.spec_epoch()
        &&& self.limit > 0 ==> ((self.limit - 1) as u64) / (self.epoch as u64)
            < self.uinfo.spec_topos().len()
        &&& (self.spec_ts() matches Some(h) ==> h.wf())
        &&& (self.spec_ss() matches Some(h) ==> h.wf())
        &&& (self.spec_current_req() matches Some(r) ==> self.req_wf(r))
        &&& forall|i: int|
            0 <= i < self.spec_reqs().len() ==> self.req_wf(#[trigger] self.spec_reqs()[i])
    }

    closed spec fn ready(&self) -> bool {
        &&& self.timestamp_sampler is Some
        &&& self.size_sampler is Some
        &&& self.uinfo.spec_contacts().len() > 0
    }

    closed spec fn stream_ok(&self) -> bool {
        &&& self.ts_bins_bounded()
        &&& self.last@ <= self.current_time
        &&& (self.spec_current_req() matches Some(r) ==> (self.last@ <= r.request_time
            && r.request_time <= self.current_time && (forall|i: int|
            0 <= i < self.spec_reqs().len() ==> r.request_time <= (
            #[trigger] self.spec_reqs()[i]).request_time)))
        &&& sorted_desc(self.spec_reqs())
        &&& forall|i: int|
            0 <= i < self.spec_reqs().len() ==> (self.last@ <= (
            #[trigger] self.spec_reqs()[i]).request_time && self.spec_reqs()[i].request_time
                <= self.current_time)
    }

    closed spec fn spec_limit(&self) -> u64 {
        self.limit
    }

    closed spec fn spec_current_time(&self) -> u64 {
        self.current_time
    }

    closed spec fn spec_last_time(&self) -> u64 {
        self.last@
    }

    closed spec fn spec_userid(&self) -> u32 {
        self.uinfo.spec_userid()
    }

    closed spec fn spec_epoch(&self) -> u32 {
        self.epoch
    }

    closed spec fn spec_topos_len(&self) -> nat {
        self.uinfo.spec_topos().len()
    }

    closed spec fn spec_contacts(&self) -> Seq<u32> {
        self.uinfo.spec_contacts()
    }

    closed spec fn spec_kind(&self) -> AnonModelKind {
        AnonModelKind::ClientOnly
    }

    closed spec fn senders_has(&self, user: u32) -> bool {
        self.uinfo.senders_map().contains_key(user)
    }

    closed spec fn senders_cleared(&self) -> bool {
        self.uinfo.senders_map() =~= Map::<u32, crossbeam_channel::Sender<UserRequest>>::empty()
    }

    closed spec fn emissions(&self) -> Seq<Emission> {
        self.emitted@
    }

    closed spec fn spec_guard_for(&self, topo_idx: int) -> Option<Mixnode> {
        match self.uinfo.spec_guards() {
            Some(gs) => crate::usermodel::first_online(gs, self.uinfo.spec_topos()[topo_idx]),
            None => None,
        }
    }

    /// This model uses no mailbox hop.
    closed spec fn spec_mailbox_for(&self, _topo_idx: int) -> Option<MailBox> {
        None
    }

    closed spec fn exhausted(&self) -> bool {
        &&& (self.current_req is None ==> self.req_list@.len() == 0)
        &&& (self.current_req matches Some(cr) ==> !(cr.request_size >= 0 && cr.request_time
            < self.limit))
    }

    closed spec fn progress(&self) -> (int, int, int) {
        (
            if self.current_time < self.limit {
                self.limit - self.current_time
            } else {
                0
            },
            self.req_list@.len() as int,
            match self.current_req {
                Some(cr) => if cr.request_size >= 0 {
                    cr.request_size + PAYLOAD_SIZE
                } else {
                    0
                },
                None => 0,
            },
        )
    }

    proof fn progress_nonneg(&self) {
    }

    closed spec fn has_timestamp_sampler(&self) -> bool {
        self.timestamp_sampler is Some
    }

    closed spec fn has_size_sampler(&self) -> bool {
        self.size_sampler is Some
    }

    proof fn ready_from_setup(&self) {
    }

    fn new(tot_users: u32, epoch: u32, uinfo: UserModelInfo) -> (m: Self) {
        let rng = rng_from_entropy();
        LoopixEmailModel {
            tot_users,
            current_time: 0,
            req_list: Vec::new(),
            current_req: None,
            uinfo,
            timestamp_sampler: None,
            size_sampler: None,
            limit: 0,
            epoch,
            rng,
            last: Ghost(0),
            emitted: Ghost(Seq::empty()),
        }
    }

    fn get_current_time(&self) -> u64 {
        self.current_time
    }

    fn get_userid(&self) -> u32 {
        self.uinfo.get_userid()
    }

    fn get_limit(&self) -> u64 {
        self.limit
    }

    fn set_limit(&mut self, limit: u64) {
        self.limit = limit;
        proof {
            lemma_loopix_frame(old(self), self);
        }
    }

    /// The email model advances its clock in fixed thousand-second steps
    /// when asked directly; message timings themselves come from the
    /// histogram batches.
    fn get_next_message_timing(&mut self) -> u64 {
        if self.current_time > u64::MAX - 1000 {
            self.current_time = u64::MAX;
        } else {
            self.current_time = self.current_time + 1000;
        }
        proof {
            lemma_loopix_frame(old(self), self);
        }
        self.current_time
    }

    fn model_kind(&self) -> AnonModelKind {
        AnonModelKind::ClientOnly
    }

    fn get_request(&self) -> Option<UserRequest> {
        self.uinfo.get_request()
    }

    fn get_guard_for(&self, topo_idx: usize) -> Option<Mixnode> {
        self.uinfo.get_guard_for(topo_idx)
    }

    /// This model uses no mailbox hop.
    fn get_mailbox(&self, _topo_idx: usize) -> Option<MailBox> {
        None
    }

    fn set_contacts(&mut self, contacts: u32, total_users: u32) {
        self.uinfo.set_contacts(contacts, total_users, &mut self.rng);
        proof {
            lemma_loopix_frame(old(self), self);
        }
    }

    fn get_contacts(&self) -> Option<&Vec<u32>> {
        Some(self.uinfo.contacts())
    }

    /// This model does not use channels; the receiver is dropped.
    fn with_receiver(&mut self, _r: crossbeam_channel::Receiver<UserRequest>) {
    }

    fn with_timestamp_sampler(&mut self, h: Arc<Histogram>) {
        self.timestamp_sampler = Some(h);
        proof {
            lemma_loopix_frame(old(self), self);
        }
    }

    fn with_size_sampler(&mut self, h: Arc<Histogram>) {
        self.size_sampler = Some(h);
        proof {
            lemma_loopix_frame(old(self), self);
        }
    }

    /// This model sends nothing to peers.
    fn add_sender(&mut self, _user: u32, _s: crossbeam_channel::Sender<UserRequest>) {
    }

    fn drop_senders(&mut self) {
        self.uinfo.drop_senders();
        proof {
            lemma_loopix_frame(old(self), self);
        }
    }

    fn update(&mut self, message_timing: u64) {
        self.uinfo.update(message_timing, &mut self.rng);
        proof {
            lemma_loopix_frame(old(self), self);
        }
    }

    /// One step of the iteration: refill when the batch is empty, then
    /// consume one packet; a pending request with a packet below the
    /// limit is always served while the batch holds more requests.
    fn next(&mut self) -> (r: Option<Emission>)
        ensures
            old(self).spec_current_req() matches Some(req) ==> ((old(self).spec_reqs().len() > 0
                && req.request_size >= 0 && req.request_time < old(self).spec_limit()) ==> (
            r matches Some(item) && item.0 == req.request_time)),
    {
        if self.req_list.len() == 0 {
            self.init_list();
        }
        let n = self.fetch_next();
        match n {
            Some(item) => Some(item),
            None => {
                if self.req_list.len() == 0 && self.current_time < self.limit {
                    self.init_list();
                    self.fetch_next()
                } else {
                    let popped = self.req_list.pop();
                    self.current_req = popped;
                    self.fetch_next()
                }
            },
        }
    }
}

} // verus!
