//! Per-user state shared by every behavioural model: the persistent guard
//! list, the peer channels, and the trait a concrete model implements.

use std::collections::HashMap;
use std::sync::Arc;
use vstd::prelude::*;

use crate::channels::{channel_send, channel_try_recv};
use crate::config::{
    TopologyConfig, GUARDS_LAYER, GUARDS_SAMPLE_SIZE, GUARDS_SAMPLE_SIZE_EXTEND,
};
use crate::histogram::Histogram;
use crate::mailbox::MailBox;
use crate::mixnode::Mixnode;
use crate::rng::rng_from_entropy;
use crate::userasyncmodel::UserRequest;

verus! {

broadcast use vstd::std_specs::hash::group_hash_axioms;

/// One yielded packet: its timestamp, the guard in use, the mailbox when
/// the model works with one, and the request id when the packet belongs
/// to a request.
pub type Emission = (u64, Option<Mixnode>, Option<MailBox>, Option<u128>);

/// What a model simulates: a client alone, or both ends of each exchange.
#[derive(PartialEq, Eq, Structural, Clone, Copy, Debug)]
pub enum AnonModelKind {
    ClientOnly,
    BothPeers,
}

/// The first guard in `gs` that is online at `topo`, scanning in order.
pub open spec fn first_online(gs: Seq<Mixnode>, topo: TopologyConfig) -> Option<Mixnode>
    decreases gs.len(),
{
    if gs.len() == 0 {
        None
    } else if topo.is_online(gs[0].mixid) {
        Some(gs[0])
    } else {
        first_online(gs.subrange(1, gs.len() as int), topo)
    }
}

/// If some guard before `k` is online, the scan returns the first such;
/// if none up to the end is, it returns none.
pub proof fn lemma_first_online_index(gs: Seq<Mixnode>, topo: TopologyConfig, k: int)
    requires
        0 <= k <= gs.len(),
        forall|i: int| 0 <= i < k ==> !topo.is_online((#[trigger] gs[i]).mixid),
        k < gs.len() ==> topo.is_online(gs[k].mixid),
    ensures
        k < gs.len() ==> first_online(gs, topo) == Some(gs[k]),
        k == gs.len() ==> first_online(gs, topo) is None,
    decreases k + 1,
{
    if gs.len() > 0 {
        if k == 0 {
        } else {
            let t = gs.subrange(1, gs.len() as int);
            assert(!topo.is_online(gs[0].mixid));
            assert(forall|i: int|
                0 <= i < k - 1 ==> !topo.is_online((#[trigger] t[i]).mixid)) by {
                assert(forall|i: int| 0 <= i < k - 1 ==> t[i] == gs[i + 1]);
            }
            lemma_first_online_index(t, topo, k - 1);
        }
    }
}

/// Per-user, per-run state: the guard list and its current selection, the
/// outbound channel per peer, the inbox, and the chosen contacts.
pub struct UserModelInfo {
    userid: u32,
    /// the time-ordered topologies, shared read-only by every user
    topos: Arc<Vec<TopologyConfig>>,
    /// persistent first-hop candidates, in sampling order
    guards: Option<Vec<Mixnode>>,
    /// the guard currently preferred
    selected_guard: Option<Mixnode>,
    /// outbound channel to each known peer (and to self)
    senders: HashMap<u32, crossbeam_channel::Sender<UserRequest>>,
    /// inbound inbox
    receiver: Option<crossbeam_channel::Receiver<UserRequest>>,
    /// epoch length in seconds
    epoch: u32,
    /// chosen peer ids
    contacts_list: Vec<u32>,
    /// last topology index observed
    curr_idx: usize,
}

impl UserModelInfo {
    pub closed spec fn spec_userid(&self) -> u32 {
        self.userid
    }

    pub closed spec fn spec_epoch(&self) -> u32 {
        self.epoch
    }

    pub closed spec fn spec_topos(&self) -> Seq<TopologyConfig> {
        self.topos@
    }

    pub closed spec fn spec_guards(&self) -> Option<Seq<Mixnode>> {
        match self.guards {
            Some(gs) => Some(gs@),
            None => None,
        }
    }

    pub closed spec fn spec_selected_guard(&self) -> Option<Mixnode> {
        self.selected_guard
    }

    pub closed spec fn spec_curr_idx(&self) -> usize {
        self.curr_idx
    }

    pub closed spec fn spec_contacts(&self) -> Seq<u32> {
        self.contacts_list@
    }

    pub closed spec fn senders_map(&self) -> Map<u32, crossbeam_channel::Sender<UserRequest>> {
        self.senders@
    }

    pub closed spec fn has_receiver(&self) -> bool {
        self.receiver is Some
    }

    /// Valid state: a positive epoch, well-formed topologies, and a
    /// non-empty guard list with a selection from it whenever guards are
    /// enabled.
    pub open spec fn wf(&self) -> bool {
        &&& self.spec_epoch() > 0
        &&& self.spec_topos().len() > 0
        &&& forall|i: int|
            0 <= i < self.spec_topos().len() ==> (#[trigger] self.spec_topos()[i]).wf()
        &&& match self.spec_guards() {
            Some(gs) => gs.len() > 0 && self.spec_selected_guard() is Some && gs.contains(
                self.spec_selected_guard()->0,
            ),
            None => self.spec_selected_guard() is None,
        }
        &&& self.spec_guards() is Some ==> forall|i: int|
            0 <= i < self.spec_topos().len() ==> (#[trigger] self.spec_topos()[i]).has_sampler(
                GUARDS_LAYER as int,
            )
        &&& forall|i: int|
            0 <= i < self.spec_topos().len() ==> (#[trigger] self.spec_topos()[i]).mailbox_map().contains_key(
                self.spec_userid(),
            )
    }

    /// Set up a user: when guards are enabled, sample the initial guard
    /// candidates from the guard layer of the first topology and select
    /// the first of them.
    pub fn new(userid: u32, topos: Arc<Vec<TopologyConfig>>, epoch: u32, use_guards: bool) -> (r:
        UserModelInfo)
        requires
            epoch > 0,
            topos@.len() > 0,
            forall|i: int| 0 <= i < topos@.len() ==> (#[trigger] topos@[i]).wf(),
            use_guards ==> forall|i: int|
                0 <= i < topos@.len() ==> (#[trigger] topos@[i]).has_sampler(GUARDS_LAYER as int),
            forall|i: int|
                0 <= i < topos@.len() ==> (#[trigger] topos@[i]).mailbox_map().contains_key(
                    userid,
                ),
        ensures
            r.wf(),
            r.spec_userid() == userid,
            r.spec_epoch() == epoch,
            r.spec_topos() == topos@,
            r.spec_curr_idx() == 0,
            r.spec_contacts() == Seq::<u32>::empty(),
            r.senders_map() == Map::<u32, crossbeam_channel::Sender<UserRequest>>::empty(),
            !r.has_receiver(),
            use_guards <==> r.spec_guards() is Some,
            r.spec_guards() is Some ==> r.spec_guards()->0.len() == GUARDS_SAMPLE_SIZE && (forall|
                i: int,
            |
                0 <= i < r.spec_guards()->0.len() ==> topos@[0].layer_seq(
                    GUARDS_LAYER as int,
                ).contains(#[trigger] r.spec_guards()->0[i])) && r.spec_selected_guard() == Some(
                r.spec_guards()->0[0],
            ),
    {
        let mut rng = rng_from_entropy();
        let mut guards: Option<Vec<Mixnode>> = None;
        let mut selected_guard: Option<Mixnode> = None;
        if use_guards {
            let gs = topos[0].sample_guards(GUARDS_LAYER, GUARDS_SAMPLE_SIZE, &mut rng);
            let g0 = gs[0];
            guards = Some(gs);
            selected_guard = Some(g0);
        }
        UserModelInfo {
            userid,
            topos,
            guards,
            selected_guard,
            senders: HashMap::new(),
            receiver: None,
            epoch,
            contacts_list: Vec::new(),
            curr_idx: 0,
        }
    }

    /// This user's mailbox under the topology at `topo_idx`.
    pub fn get_mailbox(&self, topo_idx: usize) -> (r: MailBox)
        requires
            topo_idx < self.spec_topos().len(),
            self.spec_topos()[topo_idx as int].mailbox_map().contains_key(self.spec_userid()),
        ensures
            r == self.spec_topos()[topo_idx as int].mailbox_map()[self.spec_userid()],
    {
        match self.topos[topo_idx].get_mailbox(self.userid) {
            Some(mb) => *mb,
            None => {
                proof {
                    assert(false);
                }
                MailBox { mixid: 0, is_malicious: false }
            },
        }
    }

    pub fn get_userid(&self) -> (r: u32)
        ensures
            r == self.spec_userid(),
    {
        self.userid
    }

    /// How many topologies this user knows.
    pub fn topos_len(&self) -> (n: usize)
        ensures
            n == self.spec_topos().len(),
    {
        self.topos.len()
    }

    /// Install the inbound channel.
    pub fn with_receiver(&mut self, r: crossbeam_channel::Receiver<UserRequest>)
        ensures
            final(self).has_receiver(),
            final(self).spec_guards() == old(self).spec_guards(),
            final(self).spec_selected_guard() == old(self).spec_selected_guard(),
            final(self).spec_userid() == old(self).spec_userid(),
            final(self).spec_epoch() == old(self).spec_epoch(),
            final(self).spec_topos() == old(self).spec_topos(),
            final(self).spec_curr_idx() == old(self).spec_curr_idx(),
            final(self).spec_contacts() == old(self).spec_contacts(),
            final(self).senders_map() == old(self).senders_map(),
            old(self).wf() ==> final(self).wf(),
    {
        self.receiver = Some(r);
        proof {
            if old(self).wf() {
                lemma_wf_same_guards(old(self), self);
            }
        }
    }

    /// The first known guard that is online at the topology `topo_idx`,
    /// or none when guards are disabled or all of them are offline there.
    /// Reading never extends the guard list; only `update` does.
    pub fn get_guard_for(&self, topo_idx: usize) -> (r: Option<Mixnode>)
        requires
            topo_idx < self.spec_topos().len(),
        ensures
            r == match self.spec_guards() {
                Some(gs) => first_online(gs, self.spec_topos()[topo_idx as int]),
                None => None,
            },
    {
        match &self.guards {
            Some(gs) => {
                let n = gs.len();
                let mut k: usize = 0;
                while k < n && !self.is_guard_online(topo_idx, gs[k].mixid)
                    invariant
                        0 <= k <= n,
                        n == gs@.len(),
                        topo_idx < self.spec_topos().len(),
                        forall|i: int|
                            0 <= i < k ==> !self.spec_topos()[topo_idx as int].is_online(
                                (#[trigger] gs@[i]).mixid,
                            ),
                    decreases n - k,
                {
                    k = k + 1;
                }
                proof {
                    lemma_first_online_index(gs@, self.spec_topos()[topo_idx as int], k as int);
                }
                if k < n {
                    Some(gs[k])
                } else {
                    None
                }
            },
            None => None,
        }
    }

    /// One pending request from the inbox, or none when the inbox is
    /// empty, closed, or was never installed.
    pub fn get_request(&self) -> (r: Option<UserRequest>)
        ensures
            !self.has_receiver() ==> r is None,
    {
        match &self.receiver {
            Some(recv) => channel_try_recv(recv),
            None => None,
        }
    }

    /// Register the outbound channel for a peer.
    pub fn add_sender(&mut self, user: u32, sender: crossbeam_channel::Sender<UserRequest>)
        ensures
            final(self).senders_map() == old(self).senders_map().insert(user, sender),
            final(self).spec_guards() == old(self).spec_guards(),
            final(self).spec_selected_guard() == old(self).spec_selected_guard(),
            final(self).spec_userid() == old(self).spec_userid(),
            final(self).spec_epoch() == old(self).spec_epoch(),
            final(self).spec_topos() == old(self).spec_topos(),
            final(self).spec_curr_idx() == old(self).spec_curr_idx(),
            final(self).spec_contacts() == old(self).spec_contacts(),
            final(self).has_receiver() == old(self).has_receiver(),
            old(self).wf() ==> final(self).wf(),
    {
        self.senders.insert(user, sender);
        proof {
            if old(self).wf() {
                lemma_wf_same_guards(old(self), self);
            }
        }
    }

    /// Drop every outbound channel, so that each peer's inbox can close
    /// once all its senders are gone.
    pub fn drop_senders(&mut self)
        ensures
            final(self).senders_map() == Map::<u32, crossbeam_channel::Sender<UserRequest>>::empty(),
            final(self).spec_guards() == old(self).spec_guards(),
            final(self).spec_selected_guard() == old(self).spec_selected_guard(),
            final(self).spec_userid() == old(self).spec_userid(),
            final(self).spec_epoch() == old(self).spec_epoch(),
            final(self).spec_topos() == old(self).spec_topos(),
            final(self).spec_curr_idx() == old(self).spec_curr_idx(),
            final(self).spec_contacts() == old(self).spec_contacts(),
            final(self).has_receiver() == old(self).has_receiver(),
            old(self).wf() ==> final(self).wf(),
    {
        self.senders = HashMap::new();
        proof {
            if old(self).wf() {
                lemma_wf_same_guards(old(self), self);
            }
        }
    }

    /// Hand a request to its receiving peer's inbox.  A missing sender for
    /// a declared contact is a wiring bug, so it is ruled out here; the
    /// send itself can still fail when the receiving end is gone, and the
    /// request is handed back in that case.
    pub fn send_request(&self, req: UserRequest) -> (r: Result<(), UserRequest>)
        requires
            self.senders_map().contains_key(req.peers.1),
        ensures
            r is Err ==> r->Err_0 == req,
    {
        let peer = req.get_peers().1;
        match self.senders.get(&peer) {
            Some(sender) => channel_send(sender, req),
            None => {
                proof {
                    assert(false);
                }
                Err(req)
            },
        }
    }

    /// The guard currently preferred, if guards are enabled.
    pub fn get_selected_guard(&self) -> (r: Option<Mixnode>)
        ensures
            r == self.spec_selected_guard(),
    {
        self.selected_guard
    }

    /// The whole guard list, if guards are enabled.
    pub fn get_guards(&self) -> (r: Option<&Vec<Mixnode>>)
        ensures
            match r {
                Some(gs) => self.spec_guards() == Some(gs@),
                None => self.spec_guards() is None,
            },
    {
        match &self.guards {
            Some(gs) => Some(gs),
            None => None,
        }
    }

    /// The chosen peer ids.
    pub fn contacts(&self) -> (r: &Vec<u32>)
        ensures
            r@ == self.spec_contacts(),
    {
        &self.contacts_list
    }

    /// Record a chosen peer.
    pub fn push_contact(&mut self, peer: u32)
        ensures
            final(self).spec_contacts() == old(self).spec_contacts().push(peer),
            final(self).spec_guards() == old(self).spec_guards(),
            final(self).spec_selected_guard() == old(self).spec_selected_guard(),
            final(self).spec_userid() == old(self).spec_userid(),
            final(self).spec_epoch() == old(self).spec_epoch(),
            final(self).spec_topos() == old(self).spec_topos(),
            final(self).spec_curr_idx() == old(self).spec_curr_idx(),
            final(self).senders_map() == old(self).senders_map(),
            final(self).has_receiver() == old(self).has_receiver(),
            old(self).wf() ==> final(self).wf(),
    {
        self.contacts_list.push(peer);
        proof {
            if old(self).wf() {
                lemma_wf_same_guards(old(self), self);
            }
        }
    }

    /// A guard is online at a topology iff its id is not in that
    /// topology's unselected pool.
    fn is_guard_online(&self, topoidx: usize, mixid: u32) -> (r: bool)
        requires
            topoidx < self.spec_topos().len(),
        ensures
            r == self.spec_topos()[topoidx as int].is_online(mixid),
    {
        self.topos[topoidx].unselected().get(&mixid).is_none()
    }

    /// Move to the topology of `message_timing` and keep the selected
    /// guard stable: nothing changes while the topology index does not
    /// advance or guards are disabled; otherwise the first online guard
    /// is selected, and when every known guard is offline the list is
    /// extended and the first fresh candidate selected.
    #[verifier::loop_isolation(false)]
    pub fn update(&mut self, message_timing: u64, rng: &mut rand::rngs::SmallRng)
        requires
            old(self).wf(),
            old(self).spec_guards() is Some && message_timing / (old(self).spec_epoch() as u64) > (
            old(self).spec_curr_idx() as u64) ==> message_timing / (old(self).spec_epoch() as u64)
                < old(self).spec_topos().len() && old(self).spec_topos()[(message_timing / (old(
                self,
            ).spec_epoch() as u64)) as int].has_sampler(GUARDS_LAYER as int),
        ensures
            final(self).wf(),
            final(self).spec_userid() == old(self).spec_userid(),
            final(self).spec_epoch() == old(self).spec_epoch(),
            final(self).spec_topos() == old(self).spec_topos(),
            final(self).spec_contacts() == old(self).spec_contacts(),
            final(self).senders_map() == old(self).senders_map(),
            final(self).has_receiver() == old(self).has_receiver(),
            (message_timing / (old(self).spec_epoch() as u64) <= old(self).spec_curr_idx() as u64
                || old(self).spec_guards() is None) ==> *final(self) == *old(self),
            guards_advance(*old(self), *final(self), message_timing),
    {
        let idx64 = message_timing / (self.epoch as u64);
        if self.guards.is_some() && idx64 > (self.curr_idx as u64) {
            let tlen = self.topos.len();
            proof {
                assert(idx64 < tlen as u64);
            }
            let idx = idx64 as usize;
            self.curr_idx = idx;
            match self.get_guard_for(idx) {
                Some(g) => {
                    self.selected_guard = Some(g);
                    proof {
                        lemma_first_online_member(
                            old(self).spec_guards()->0,
                            old(self).spec_topos()[idx as int],
                        );
                    }
                },
                None => {
                    let mut fresh = self.topos[idx].sample_guards(
                        GUARDS_LAYER,
                        GUARDS_SAMPLE_SIZE_EXTEND,
                        rng,
                    );
                    let mut gs = match &self.guards {
                        Some(gs) => gs.clone(),
                        None => {
                            proof {
                                assert(false);
                            }
                            return ;
                        },
                    };
                    let ghost gs0 = old(self).spec_guards()->0;
                    proof {
                        assert(gs@ =~= gs0);
                    }
                    let guard_idx = gs.len();
                    let ghost fresh0 = fresh@;
                    gs.append(&mut fresh);
                    let g = gs[guard_idx];
                    self.guards = Some(gs);
                    self.selected_guard = Some(g);
                    proof {
                        let ngs = self.spec_guards()->0;
                        assert(ngs == gs0 + fresh0);
                        assert(ngs.subrange(0, gs0.len() as int) =~= gs0);
                        assert(ngs.contains(ngs[guard_idx as int]));
                        assert(forall|i: int|
                            gs0.len() <= i < ngs.len() ==> #[trigger] ngs[i] == fresh0[i
                                - gs0.len()]);
                    }
                },
            }
        }
    }
}

/// Whether a sequence of ids holds no duplicates.
pub open spec fn distinct_ids(s: Seq<u32>) -> bool {
    forall|i: int, j: int| 0 <= i < j < s.len() ==> s[i] != s[j]
}

impl UserModelInfo {
    /// Choose `contacts` distinct peers other than this user, uniformly
    /// over the `total_users` ids: each pick removes a uniformly drawn
    /// candidate from the remaining pool.
    #[verifier::loop_isolation(false)]
    pub fn set_contacts(&mut self, contacts: u32, total_users: u32, rng: &mut rand::rngs::SmallRng)
        requires
            old(self).wf(),
            contacts < total_users,
            old(self).spec_contacts() == Seq::<u32>::empty(),
        ensures
            final(self).wf(),
            final(self).spec_contacts().len() == contacts,
            distinct_ids(final(self).spec_contacts()),
            forall|i: int|
                0 <= i < final(self).spec_contacts().len() ==> ((
                #[trigger] final(self).spec_contacts()[i]) != old(self).spec_userid()
                    && final(self).spec_contacts()[i] < total_users),
            final(self).spec_guards() == old(self).spec_guards(),
            final(self).spec_selected_guard() == old(self).spec_selected_guard(),
            final(self).spec_userid() == old(self).spec_userid(),
            final(self).spec_epoch() == old(self).spec_epoch(),
            final(self).spec_topos() == old(self).spec_topos(),
            final(self).spec_curr_idx() == old(self).spec_curr_idx(),
            final(self).senders_map() == old(self).senders_map(),
            final(self).has_receiver() == old(self).has_receiver(),
    {
        let mut pool: Vec<u32> = Vec::new();
        let mut p: u32 = 0;
        while p < total_users
            invariant
                0 <= p <= total_users,
                distinct_ids(pool@),
                forall|i: int|
                    0 <= i < pool@.len() ==> (#[trigger] pool@[i]) != self.spec_userid()
                        && pool@[i] < p,
                pool@.len() == p - (if self.spec_userid() < p {
                    1int
                } else {
                    0
                }),
            decreases total_users - p,
        {
            if p != self.userid {
                proof {
                    assert(forall|i: int| 0 <= i < pool@.len() ==> (#[trigger] pool@[i]) != p);
                }
                pool.push(p);
            }
            p = p + 1;
        }
        let mut count: u32 = contacts;
        while count > 0
            invariant
                0 <= count <= contacts,
                distinct_ids(pool@),
                distinct_ids(self.spec_contacts()),
                forall|i: int|
                    0 <= i < pool@.len() ==> (#[trigger] pool@[i]) != self.spec_userid()
                        && pool@[i] < total_users,
                forall|i: int|
                    0 <= i < self.spec_contacts().len() ==> (#[trigger] self.spec_contacts()[i])
                        != self.spec_userid() && self.spec_contacts()[i] < total_users,
                forall|i: int, j: int|
                    0 <= i < pool@.len() && 0 <= j < self.spec_contacts().len() ==> (
                    #[trigger] pool@[i]) != (#[trigger] self.spec_contacts()[j]),
                pool@.len() + self.spec_contacts().len() >= total_users - 1,
                self.spec_contacts().len() + count == contacts,
                self.wf(),
                self.spec_guards() == old(self).spec_guards(),
                self.spec_selected_guard() == old(self).spec_selected_guard(),
                self.spec_userid() == old(self).spec_userid(),
                self.spec_epoch() == old(self).spec_epoch(),
                self.spec_topos() == old(self).spec_topos(),
                self.spec_curr_idx() == old(self).spec_curr_idx(),
                self.senders_map() == old(self).senders_map(),
                self.has_receiver() == old(self).has_receiver(),
            decreases count,
        {
            proof {
                assert(pool@.len() > 0);
            }
            let k = crate::rng::gen_index(rng, pool.len());
            let ghost pool0 = pool@;
            let peer = pool.remove(k);
            proof {
                assert(forall|i: int|
                    0 <= i < pool@.len() ==> pool@[i] == (if i < k {
                        pool0[i]
                    } else {
                        pool0[i + 1]
                    }));
            }
            self.push_contact(peer);
            count = count - 1;
        }
    }
}

/// How one `update` call moves the guard state forward, when the
/// topology index advances and guards are enabled: the first online guard
/// of the list is selected; if there is none, the list is extended by
/// `GUARDS_SAMPLE_SIZE_EXTEND` candidates from the guard layer of the new
/// topology and the first fresh candidate is selected.
pub open spec fn guards_advance(pre: UserModelInfo, post: UserModelInfo, message_timing: u64) -> bool {
    let idx = message_timing / (pre.spec_epoch() as u64);
    (pre.spec_guards() is Some && idx > pre.spec_curr_idx() as u64) ==> {
        let gs = pre.spec_guards()->0;
        let topo = pre.spec_topos()[idx as int];
        &&& post.spec_curr_idx() == idx
        &&& match first_online(gs, topo) {
            Some(g) => post.spec_guards() == pre.spec_guards() && post.spec_selected_guard()
                == Some(g),
            None => {
                let ngs = post.spec_guards()->0;
                &&& post.spec_guards() is Some
                &&& ngs.len() == gs.len() + GUARDS_SAMPLE_SIZE_EXTEND
                &&& ngs.subrange(0, gs.len() as int) == gs
                &&& (forall|i: int|
                    gs.len() <= i < ngs.len() ==> topo.layer_seq(GUARDS_LAYER as int).contains(
                        #[trigger] ngs[i],
                    ))
                &&& post.spec_selected_guard() == Some(ngs[gs.len() as int])
            },
        }
    }
}

/// The first online guard is a member of the list.
proof fn lemma_first_online_member(gs: Seq<Mixnode>, topo: TopologyConfig)
    ensures
        first_online(gs, topo) matches Some(g) ==> gs.contains(g),
    decreases gs.len(),
{
    if gs.len() > 0 && !topo.is_online(gs[0].mixid) {
        let t = gs.subrange(1, gs.len() as int);
        lemma_first_online_member(t, topo);
        if first_online(t, topo) is Some {
            let g = first_online(t, topo)->0;
            let i = choose|i: int| 0 <= i < t.len() && t[i] == g;
            assert(gs[i + 1] == g);
        }
    }
}

/// Well-formedness carries over to states with the same guards, epoch and
/// topologies.
proof fn lemma_wf_same_guards(a: &UserModelInfo, b: &UserModelInfo)
    requires
        a.wf(),
        b.spec_epoch() == a.spec_epoch(),
        b.spec_topos() == a.spec_topos(),
        b.spec_guards() == a.spec_guards(),
        b.spec_selected_guard() == a.spec_selected_guard(),
        b.spec_userid() == a.spec_userid(),
    ensures
        b.wf(),
{
    assert forall|i: int|
        0 <= i < b.spec_topos().len() implies (#[trigger] b.spec_topos()[i]).wf() by {
        assert(a.spec_topos()[i].wf());
    }
    if b.spec_guards() is Some {
        assert forall|i: int|
            0 <= i < b.spec_topos().len() implies (#[trigger] b.spec_topos()[i]).has_sampler(
            GUARDS_LAYER as int,
        ) by {
            assert(a.spec_topos()[i].has_sampler(GUARDS_LAYER as int));
        }
    }
    assert forall|i: int|
        0 <= i < b.spec_topos().len() implies (
    #[trigger] b.spec_topos()[i]).mailbox_map().contains_key(b.spec_userid()) by {
        assert(a.spec_topos()[i].mailbox_map().contains_key(a.spec_userid()));
    }
}


/// What every concrete behavioural model offers the driver.  A model owns
/// its `UserModelInfo`, draws message timings from its own source of
/// randomness, and yields one tuple per packet until the next timestamp
/// would reach the limit.
pub trait UserModel: Sized {
    /// Structural validity, established by `new` and kept by every method.
    spec fn wf(&self) -> bool;

    /// Fully wired for its kind: samplers installed and channels attached
    /// where the model needs them.
    spec fn ready(&self) -> bool;

    /// The emitted timestamps will keep non-decreasing order.  A model
    /// whose timing source can jump backwards across refills does not
    /// offer this.
    spec fn stream_ok(&self) -> bool;

    spec fn spec_limit(&self) -> u64;

    spec fn spec_current_time(&self) -> u64;

    /// The last timestamp the model emitted, zero before the first.
    spec fn spec_last_time(&self) -> u64;

    spec fn spec_userid(&self) -> u32;

    spec fn spec_epoch(&self) -> u32;

    spec fn spec_topos_len(&self) -> nat;

    spec fn spec_contacts(&self) -> Seq<u32>;

    spec fn spec_kind(&self) -> AnonModelKind;

    /// Whether an outbound channel to `user` is registered.
    spec fn senders_has(&self, user: u32) -> bool;

    /// Whether a timestamp histogram is installed (always true for a
    /// model that needs none).
    spec fn has_timestamp_sampler(&self) -> bool;

    /// Whether a size histogram is installed (always true for a model
    /// that needs none).
    spec fn has_size_sampler(&self) -> bool;

    /// Whether every outbound channel is gone.
    spec fn senders_cleared(&self) -> bool;

    /// The log of every tuple this model has yielded, in order.
    spec fn emissions(&self) -> Seq<Emission>;

    /// The guard this model resolves for a topology index.
    spec fn spec_guard_for(&self, topo_idx: int) -> Option<Mixnode>;

    /// The mailbox this model resolves for a topology index (none for a
    /// model that works without mailboxes).
    spec fn spec_mailbox_for(&self, topo_idx: int) -> Option<MailBox>;

    /// Nothing deliverable is pending: a call that returned nothing found
    /// no packet below the limit to serve.
    spec fn exhausted(&self) -> bool;

    /// A lexicographic progress measure that every yield strictly
    /// decreases: remaining clock range, pending requests, packets of the
    /// request under consumption.
    spec fn progress(&self) -> (int, int, int);

    /// The progress measure is non-negative in a valid state.
    proof fn progress_nonneg(&self)
        requires
            self.wf(),
        ensures
            self.progress().0 >= 0,
            self.progress().1 >= 0,
            self.progress().2 >= 0,
    ;

    fn new(tot_users: u32, epoch: u32, uinfo: UserModelInfo) -> (m: Self)
        requires
            uinfo.wf(),
            uinfo.spec_epoch() == epoch,
        ensures
            m.wf(),
            m.spec_limit() == 0,
            m.spec_current_time() == 0,
            m.spec_last_time() == 0,
            m.spec_userid() == uinfo.spec_userid(),
            m.spec_epoch() == epoch,
            m.spec_topos_len() == uinfo.spec_topos().len(),
            m.spec_contacts() == uinfo.spec_contacts(),
            m.emissions() == Seq::<Emission>::empty(),
    ;

    fn get_current_time(&self) -> (t: u64)
        ensures
            t == self.spec_current_time(),
    ;

    fn get_userid(&self) -> (u: u32)
        ensures
            u == self.spec_userid(),
    ;

    fn get_limit(&self) -> (l: u64)
        ensures
            l == self.spec_limit(),
    ;

    fn set_limit(&mut self, limit: u64)
        requires
            old(self).wf(),
            limit > 0 ==> ((limit - 1) as u64) / (old(self).spec_epoch() as u64) < old(
                self,
            ).spec_topos_len(),
        ensures
            final(self).wf(),
            final(self).spec_limit() == limit,
            final(self).ready() == old(self).ready(),
            final(self).stream_ok() == old(self).stream_ok(),
            final(self).spec_userid() == old(self).spec_userid(),
            final(self).spec_kind() == old(self).spec_kind(),
            final(self).spec_last_time() == old(self).spec_last_time(),
            final(self).spec_topos_len() == old(self).spec_topos_len(),
            final(self).spec_epoch() == old(self).spec_epoch(),
            final(self).spec_contacts() == old(self).spec_contacts(),
            final(self).senders_cleared() == old(self).senders_cleared(),
            final(self).emissions() == old(self).emissions(),
    ;

    /// Advance the model clock to its next message timing.
    fn get_next_message_timing(&mut self) -> (t: u64)
        requires
            old(self).wf(),
        ensures
            final(self).wf(),
            t == final(self).spec_current_time(),
    ;

    fn model_kind(&self) -> (k: AnonModelKind)
        ensures
            k == self.spec_kind(),
    ;

    /// One pending request from this user's inbox, if any.
    fn get_request(&self) -> Option<UserRequest>;

    fn get_guard_for(&self, topo_idx: usize) -> (r: Option<Mixnode>)
        requires
            self.wf(),
            topo_idx < self.spec_topos_len(),
        ensures
            r == self.spec_guard_for(topo_idx as int),
    ;

    fn get_mailbox(&self, topo_idx: usize) -> (r: Option<MailBox>)
        requires
            self.wf(),
            topo_idx < self.spec_topos_len(),
        ensures
            r == self.spec_mailbox_for(topo_idx as int),
    ;

    fn set_contacts(&mut self, contacts: u32, total_users: u32)
        requires
            old(self).wf(),
            contacts < total_users,
            old(self).spec_contacts() == Seq::<u32>::empty(),
        ensures
            final(self).wf(),
            final(self).spec_contacts().len() == contacts,
            distinct_ids(final(self).spec_contacts()),
            forall|i: int|
                0 <= i < final(self).spec_contacts().len() ==> ((
                #[trigger] final(self).spec_contacts()[i]) != old(self).spec_userid()
                    && final(self).spec_contacts()[i] < total_users),
            final(self).spec_limit() == old(self).spec_limit(),
            final(self).spec_userid() == old(self).spec_userid(),
            final(self).spec_kind() == old(self).spec_kind(),
            final(self).spec_topos_len() == old(self).spec_topos_len(),
            final(self).spec_epoch() == old(self).spec_epoch(),
            forall|u: u32| final(self).senders_has(u) == old(self).senders_has(u),
            final(self).has_timestamp_sampler() == old(self).has_timestamp_sampler(),
            final(self).has_size_sampler() == old(self).has_size_sampler(),
    ;

    fn get_contacts(&self) -> (r: Option<&Vec<u32>>)
        ensures
            r is Some,
            r matches Some(cs) ==> cs@ == self.spec_contacts(),
    ;

    fn with_receiver(&mut self, r: crossbeam_channel::Receiver<UserRequest>)
        requires
            old(self).wf(),
        ensures
            final(self).wf(),
            final(self).spec_limit() == old(self).spec_limit(),
            final(self).spec_userid() == old(self).spec_userid(),
            final(self).spec_kind() == old(self).spec_kind(),
            final(self).spec_topos_len() == old(self).spec_topos_len(),
            final(self).spec_epoch() == old(self).spec_epoch(),
            final(self).spec_contacts() == old(self).spec_contacts(),
            forall|u: u32| final(self).senders_has(u) == old(self).senders_has(u),
            final(self).has_timestamp_sampler() == old(self).has_timestamp_sampler(),
            final(self).has_size_sampler() == old(self).has_size_sampler(),
    ;

    fn with_timestamp_sampler(&mut self, h: std::sync::Arc<Histogram>)
        requires
            old(self).wf(),
            h.wf(),
        ensures
            final(self).wf(),
            final(self).has_timestamp_sampler(),
            final(self).has_size_sampler() == old(self).has_size_sampler(),
            final(self).spec_limit() == old(self).spec_limit(),
            final(self).spec_userid() == old(self).spec_userid(),
            final(self).spec_kind() == old(self).spec_kind(),
            final(self).spec_topos_len() == old(self).spec_topos_len(),
            final(self).spec_epoch() == old(self).spec_epoch(),
            final(self).spec_contacts() == old(self).spec_contacts(),
            forall|u: u32| final(self).senders_has(u) == old(self).senders_has(u),
    ;

    fn with_size_sampler(&mut self, h: std::sync::Arc<Histogram>)
        requires
            old(self).wf(),
            h.wf(),
        ensures
            final(self).wf(),
            final(self).has_size_sampler(),
            final(self).has_timestamp_sampler() == old(self).has_timestamp_sampler(),
            final(self).spec_limit() == old(self).spec_limit(),
            final(self).spec_userid() == old(self).spec_userid(),
            final(self).spec_kind() == old(self).spec_kind(),
            final(self).spec_topos_len() == old(self).spec_topos_len(),
            final(self).spec_epoch() == old(self).spec_epoch(),
            final(self).spec_contacts() == old(self).spec_contacts(),
            forall|u: u32| final(self).senders_has(u) == old(self).senders_has(u),
    ;

    fn add_sender(&mut self, user: u32, s: crossbeam_channel::Sender<UserRequest>)
        requires
            old(self).wf(),
        ensures
            final(self).wf(),
            final(self).senders_has(user) || final(self).spec_kind()
                == AnonModelKind::ClientOnly,
            forall|u: u32|
                u != user ==> final(self).senders_has(u) == old(self).senders_has(u),
            final(self).spec_limit() == old(self).spec_limit(),
            final(self).spec_userid() == old(self).spec_userid(),
            final(self).spec_kind() == old(self).spec_kind(),
            final(self).spec_topos_len() == old(self).spec_topos_len(),
            final(self).spec_epoch() == old(self).spec_epoch(),
            final(self).spec_contacts() == old(self).spec_contacts(),
            final(self).has_timestamp_sampler() == old(self).has_timestamp_sampler(),
            final(self).has_size_sampler() == old(self).has_size_sampler(),
    ;

    /// Drop every outbound channel, so the receiving peers' inboxes can
    /// close.
    fn drop_senders(&mut self)
        requires
            old(self).wf(),
        ensures
            final(self).wf(),
            final(self).senders_cleared(),
            final(self).emissions() == old(self).emissions(),
            final(self).exhausted() == old(self).exhausted(),
            final(self).spec_limit() == old(self).spec_limit(),
            final(self).spec_userid() == old(self).spec_userid(),
            final(self).spec_kind() == old(self).spec_kind(),
            final(self).spec_topos_len() == old(self).spec_topos_len(),
            final(self).spec_epoch() == old(self).spec_epoch(),
            final(self).spec_contacts() == old(self).spec_contacts(),
    ;

    /// Advance guard state to the topology of `message_timing`.
    fn update(&mut self, message_timing: u64)
        requires
            old(self).wf(),
            message_timing / (old(self).spec_epoch() as u64) < old(self).spec_topos_len(),
        ensures
            final(self).wf(),
            final(self).spec_limit() == old(self).spec_limit(),
            final(self).spec_userid() == old(self).spec_userid(),
            final(self).spec_kind() == old(self).spec_kind(),
            final(self).spec_topos_len() == old(self).spec_topos_len(),
            final(self).spec_epoch() == old(self).spec_epoch(),
            final(self).spec_contacts() == old(self).spec_contacts(),
    ;

    /// A model with its samplers installed, at least one contact, and an
    /// outbound channel for every contact is ready to run.
    proof fn ready_from_setup(&self)
        requires
            self.wf(),
            self.has_timestamp_sampler(),
            self.has_size_sampler(),
            self.spec_contacts().len() > 0,
            self.spec_kind() == AnonModelKind::BothPeers ==> forall|j: int|
                0 <= j < self.spec_contacts().len() ==> self.senders_has(
                    #[trigger] self.spec_contacts()[j],
                ),
        ensures
            self.ready(),
    ;

    /// The next emitted packet.  Every yielded tuple is appended to the
    /// emission log; emitted timestamps stay below the limit, and from a
    /// monotone source they never decrease.
    fn next(&mut self) -> (r: Option<Emission>)
        requires
            old(self).wf(),
            old(self).ready(),
        ensures
            final(self).wf(),
            final(self).ready(),
            final(self).spec_limit() == old(self).spec_limit(),
            final(self).spec_userid() == old(self).spec_userid(),
            final(self).spec_kind() == old(self).spec_kind(),
            final(self).spec_topos_len() == old(self).spec_topos_len(),
            final(self).spec_epoch() == old(self).spec_epoch(),
            final(self).senders_cleared() == old(self).senders_cleared(),
            r matches Some(item) ==> item.0 < old(self).spec_limit(),
            r matches Some(item) ==> final(self).spec_last_time() == item.0,
            r matches Some(item) ==> final(self).emissions() == old(self).emissions().push(item),
            r matches Some(item) ==> ({
                let p = final(self).progress();
                let q = old(self).progress();
                p.0 < q.0 || (p.0 == q.0 && (p.1 < q.1 || (p.1 == q.1 && p.2 < q.2)))
            }),
            r is None ==> final(self).spec_last_time() == old(self).spec_last_time(),
            r is None ==> final(self).emissions() == old(self).emissions(),
            r is None ==> final(self).exhausted(),
            old(self).stream_ok() ==> final(self).stream_ok(),
            old(self).stream_ok() ==> (r matches Some(item) ==> item.0 >= old(
                self,
            ).spec_last_time()),
    ;
}

} // verus!
