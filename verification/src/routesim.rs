//! The simulation driver: per-user model setup, channel wiring, and the
//! two passes that turn emitted packets into output records.

use std::sync::Arc;
use vstd::prelude::*;

use crate::channels::{channel_sender_clone, channel_unbounded};
use crate::config::{TopologyConfig, GUARDS_LAYER, PATH_LENGTH};
use crate::histogram::Histogram;
use crate::mailbox::MailBox;
use crate::mixnode::Mixnode;
use crate::shared::arc_clone;
use crate::userasyncmodel::UserRequest;
use crate::usermodel::{distinct_ids, AnonModelKind, Emission, UserModel, UserModelInfo};

verus! {

/// Timestamps are rendered with a four-digit year: the last second of
/// year 9999.
pub const MAX_FORMAT_TS: u64 = 253402300799;

/// The date and time a Unix timestamp renders as, `YYYY-MM-DD HH:MM:SS`
/// in UTC.
pub uninterp spec fn datetime_string_of(timing: u64) -> Seq<char>;

/// One output record: everything one emitted packet turns into.
pub struct SimRecord {
    /// the packet's timestamp, in seconds
    pub timestamp: u64,
    /// the timestamp rendered as a date
    pub date: String,
    /// the emitting user
    pub userid: u32,
    /// the request this packet belongs to, if any
    pub requestid: Option<u128>,
    /// the sampled route, one mix per layer
    pub path: Vec<Mixnode>,
    /// the mailbox hop, when the model uses one
    pub mailbox: Option<MailBox>,
    /// whether every hop, mailbox included, is adversarial
    pub is_malicious: bool,
}

/// Whether a three-hop path together with an optional mailbox is fully
/// compromised.
pub open spec fn path_malicious(path: Seq<Mixnode>, mailbox: Option<MailBox>) -> bool {
    &&& path[0].is_malicious
    &&& path[1].is_malicious
    &&& path[2].is_malicious
    &&& (mailbox matches Some(m) ==> m.is_malicious)
}

/// One output record faithfully renders one emission: same timestamp,
/// mailbox and request id, the guard at the guard layer when one was in
/// use, hops carrying their layers' numbers, and the date rendering of
/// the timestamp.
pub open spec fn record_matches_emission(r: SimRecord, e: Emission) -> bool {
    &&& r.timestamp == e.0
    &&& r.mailbox == e.2
    &&& r.requestid == e.3
    &&& r.path@.len() == PATH_LENGTH
    &&& (e.1 matches Some(g) ==> r.path@[GUARDS_LAYER as int] == g)
    &&& (e.1 is None ==> r.path@[GUARDS_LAYER as int].layer == GUARDS_LAYER)
    &&& r.path@[0].layer == 0
    &&& r.path@[2].layer == 2
    &&& r.date@ == datetime_string_of(e.0)
}

/// The record's hops are drawn from the topology active at the
/// emission's timestamp: outside the slot a guard occupies, each hop is a
/// member of that topology's layer.
pub open spec fn record_from_active_topology(
    r: SimRecord,
    e: Emission,
    configs: Seq<TopologyConfig>,
    epoch: u32,
) -> bool {
    forall|l: int|
        0 <= l < 3 && !(l == GUARDS_LAYER && e.1 is Some) ==> configs[(e.0 / (
        epoch as u64)) as int].layer_seq(l).contains(#[trigger] r.path@[l])
}

/// The record's mailbox and guard-layer hop are the ones the model
/// resolves for some topology index (the request's, in the receiving
/// pass).
pub open spec fn record_resolved<T: UserModel>(r: SimRecord, m: T, tlen: int) -> bool {
    exists|idx: int|
        0 <= idx < tlen && r.mailbox == #[trigger] m.spec_mailbox_for(idx) && (m.spec_guard_for(
            idx,
        ) matches Some(g) ==> r.path@[GUARDS_LAYER as int] == g) && (m.spec_guard_for(idx) is None
            ==> r.path@[GUARDS_LAYER as int].layer == GUARDS_LAYER)
}

/// Everything one simulation run needs.
pub struct Runable {
    /// The number of users we want to simulate
    users: u32,
    /// The network topologies, sorted by epoch
    configs: Arc<Vec<TopologyConfig>>,
    /// The number of virtual days for running the experiment
    days: u32,
    /// Does this simulation use the guard principle?
    use_guards: bool,
    /// each topology's lifetime in seconds
    epoch: u32,
    /// print to console rather than in batches
    to_console: bool,
    /// Timestamps histogram
    timestamps_h: Option<Arc<Histogram>>,
    /// Sizes histogram
    sizes_h: Option<Arc<Histogram>>,
    /// The number of contacts each user has
    contacts: u32,
}

impl Runable {
    pub closed spec fn spec_users(&self) -> u32 {
        self.users
    }

    pub closed spec fn spec_epoch(&self) -> u32 {
        self.epoch
    }

    pub closed spec fn spec_days(&self) -> u32 {
        self.days
    }

    pub closed spec fn spec_contacts_n(&self) -> u32 {
        self.contacts
    }

    pub closed spec fn spec_configs(&self) -> Seq<TopologyConfig> {
        self.configs@
    }

    pub closed spec fn guards_enabled(&self) -> bool {
        self.use_guards
    }

    pub closed spec fn console_enabled(&self) -> bool {
        self.to_console
    }

    pub closed spec fn has_ts_hist(&self) -> bool {
        self.timestamps_h is Some
    }

    pub closed spec fn has_ss_hist(&self) -> bool {
        self.sizes_h is Some
    }

    pub open spec fn has_histograms(&self) -> bool {
        self.has_ts_hist() && self.has_ss_hist()
    }

    /// A runnable simulation: a positive epoch, enough well-formed and
    /// fully sampled topologies to cover the simulated days, a mailbox in
    /// each topology for every user, and a date range the formatter can
    /// render.
    pub closed spec fn wf(&self) -> bool {
        &&& self.epoch > 0
        &&& self.configs@.len() > 0
        &&& forall|i: int| 0 <= i < self.configs@.len() ==> (#[trigger] self.configs@[i]).wf()
        &&& forall|i: int|
            0 <= i < self.configs@.len() ==> (#[trigger] self.configs@[i]).fully_sampled()
        &&& forall|i: int, u: u32|
            0 <= i < self.configs@.len() && u < self.users ==> #[trigger] self.configs@[i].mailbox_map().contains_key(
                u,
            )
        &&& (self.days as int) * 86400 <= (self.epoch as int) * self.configs@.len()
        &&& (self.days as int) * 86400 <= MAX_FORMAT_TS
        &&& (self.timestamps_h matches Some(h) ==> h.wf())
        &&& (self.sizes_h matches Some(h) ==> h.wf())
    }

    /// Create a new simulation to run.
    pub fn new(users: u32, configs: Vec<TopologyConfig>, days: u32, epoch: u32, contacts: u32) -> (r:
        Runable)
        requires
            epoch > 0,
            configs@.len() > 0,
            forall|i: int| 0 <= i < configs@.len() ==> (#[trigger] configs@[i]).wf(),
            forall|i: int| 0 <= i < configs@.len() ==> (#[trigger] configs@[i]).fully_sampled(),
            forall|i: int, u: u32|
                0 <= i < configs@.len() && u < users ==> #[trigger] configs@[i].mailbox_map().contains_key(
                    u,
                ),
            (days as int) * 86400 <= (epoch as int) * configs@.len(),
            (days as int) * 86400 <= MAX_FORMAT_TS,
        ensures
            r.wf(),
            r.spec_users() == users,
            r.spec_epoch() == epoch,
            r.spec_days() == days,
            r.spec_contacts_n() == contacts,
            r.spec_configs() == configs@,
            !r.guards_enabled(),
            !r.console_enabled(),
            !r.has_histograms(),
    {
        Runable {
            users,
            configs: Arc::new(configs),
            days,
            use_guards: false,
            epoch,
            to_console: false,
            timestamps_h: None,
            sizes_h: None,
            contacts,
        }
    }

    /// Enable guards for this simulation.
    pub fn with_guards(&mut self)
        ensures
            final(self).guards_enabled(),
            old(self).wf() ==> final(self).wf(),
            final(self).spec_users() == old(self).spec_users(),
            final(self).spec_epoch() == old(self).spec_epoch(),
            final(self).spec_days() == old(self).spec_days(),
            final(self).spec_contacts_n() == old(self).spec_contacts_n(),
            final(self).spec_configs() == old(self).spec_configs(),
            final(self).has_histograms() == old(self).has_histograms(),
            final(self).console_enabled() == old(self).console_enabled(),
    {
        self.use_guards = true;
        proof {
            if old(self).wf() {
                lemma_runable_frame(old(self), self);
            }
        }
    }

    /// Print one record per line instead of batching.
    pub fn with_console(&mut self)
        ensures
            final(self).console_enabled(),
            old(self).wf() ==> final(self).wf(),
            final(self).spec_users() == old(self).spec_users(),
            final(self).spec_epoch() == old(self).spec_epoch(),
            final(self).spec_days() == old(self).spec_days(),
            final(self).spec_contacts_n() == old(self).spec_contacts_n(),
            final(self).spec_configs() == old(self).spec_configs(),
            final(self).has_histograms() == old(self).has_histograms(),
            final(self).guards_enabled() == old(self).guards_enabled(),
    {
        self.to_console = true;
        proof {
            if old(self).wf() {
                lemma_runable_frame(old(self), self);
            }
        }
    }

    /// Install the timestamps histogram.
    pub fn with_timestamps_hist(&mut self, h: Histogram)
        requires
            h.wf(),
        ensures
            old(self).wf() ==> final(self).wf(),
            final(self).spec_users() == old(self).spec_users(),
            final(self).spec_epoch() == old(self).spec_epoch(),
            final(self).spec_days() == old(self).spec_days(),
            final(self).spec_contacts_n() == old(self).spec_contacts_n(),
            final(self).spec_configs() == old(self).spec_configs(),
            final(self).guards_enabled() == old(self).guards_enabled(),
            final(self).console_enabled() == old(self).console_enabled(),
            final(self).has_ts_hist(),
            final(self).has_ss_hist() == old(self).has_ss_hist(),
    {
        self.timestamps_h = Some(Arc::new(h));
        proof {
            if old(self).wf() {
                lemma_runable_frame(old(self), self);
            }
        }
    }

    /// Install the sizes histogram.
    pub fn with_sizes_hist(&mut self, h: Histogram)
        requires
            h.wf(),
        ensures
            old(self).wf() ==> final(self).wf(),
            final(self).spec_users() == old(self).spec_users(),
            final(self).spec_epoch() == old(self).spec_epoch(),
            final(self).spec_days() == old(self).spec_days(),
            final(self).spec_contacts_n() == old(self).spec_contacts_n(),
            final(self).spec_configs() == old(self).spec_configs(),
            final(self).guards_enabled() == old(self).guards_enabled(),
            final(self).console_enabled() == old(self).console_enabled(),
            final(self).has_ss_hist(),
            final(self).has_ts_hist() == old(self).has_ts_hist(),
    {
        self.sizes_h = Some(Arc::new(h));
        proof {
            if old(self).wf() {
                lemma_runable_frame(old(self), self);
            }
        }
    }

    /// The simulated time horizon, in seconds.
    pub fn days_to_timestamp(&self) -> (r: u64)
        ensures
            r == (self.spec_days() as int) * 86400,
    {
        (self.days as u64) * 24 * 60 * 60
    }

    /// Sample a route from the topology active at `message_timing`,
    /// placing the given guard at the guard layer.
    pub fn sample_path(
        &self,
        message_timing: u64,
        rng: &mut rand::rngs::SmallRng,
        guard: Option<&Mixnode>,
    ) -> (r: Vec<Mixnode>)
        requires
            self.wf(),
            message_timing / (self.spec_epoch() as u64) < self.spec_configs().len(),
        ensures
            r@.len() == PATH_LENGTH,
            guard is Some ==> r@[GUARDS_LAYER as int] == *guard->0,
            forall|l: int|
                0 <= l < 3 && !(l == GUARDS_LAYER && guard is Some) ==> (#[trigger] r@[l]).layer
                    == l,
            forall|l: int|
                0 <= l < 3 && !(l == GUARDS_LAYER && guard is Some)
                    ==> self.spec_configs()[(message_timing / (
                self.spec_epoch() as u64)) as int].layer_seq(l).contains(#[trigger] r@[l]),
    {
        let tlen = self.configs.len();
        proof {
            assert((message_timing / (self.spec_epoch() as u64)) < tlen as u64);
        }
        let idx = (message_timing / (self.epoch as u64)) as usize;
        let r = self.configs[idx].sample_path(rng, guard);
        proof {
            let topo = self.spec_configs()[idx as int];
            crate::config::lemma_layers_unselected_partition(topo);
            assert forall|l: int|
                0 <= l < 3 && !(l == GUARDS_LAYER && guard is Some) implies (
            #[trigger] r@[l]).layer == l by {
                assert(topo.layer_seq(l).contains(r@[l]));
                let k = choose|k: int| 0 <= k < topo.layer_seq(l).len() && topo.layer_seq(l)[k]
                    == r@[l];
                assert(topo.layer_seq(l)[k].layer == l);
            }
        }
        r
    }

    /// Whether the three mixnodes of a path, and the mailbox when one is
    /// given, are all compromised.
    pub fn is_path_malicious(&self, path: &Vec<Mixnode>, mailbox: Option<&MailBox>) -> (r: bool)
        requires
            path@.len() >= PATH_LENGTH,
        ensures
            r == path_malicious(
                path@,
                match mailbox {
                    Some(m) => Some(*m),
                    None => None,
                },
            ),
    {
        let mut mal_mix: u32 = 0;
        if path[0].is_malicious {
            mal_mix = mal_mix + 1;
        }
        if path[1].is_malicious {
            mal_mix = mal_mix + 1;
        }
        if path[2].is_malicious {
            mal_mix = mal_mix + 1;
        }
        match mailbox {
            Some(extendedhop) => {
                if extendedhop.is_malicious {
                    mal_mix = mal_mix + 1;
                }
                mal_mix == 4
            },
            None => mal_mix == 3,
        }
    }

    /// Relies on chrono's `DateTime::from_timestamp` and `format` for
    /// `Utc`: the UTC rendering of a timestamp, a function of the
    /// timestamp alone; timestamps up to year 9999 are within chrono's
    /// documented range.
    #[verifier::external_body]
    pub fn format_message_timing(timing: u64) -> (r: String)
        requires
            timing <= MAX_FORMAT_TS,
        ensures
            r@ == datetime_string_of(timing),
    {
        let dt = chrono::DateTime::<chrono::Utc>::from_timestamp(timing as i64, 0).unwrap();
        dt.format("%Y-%m-%d %H:%M:%S").to_string()
    }

    /// Build one wired user model per user: contacts chosen, histograms
    /// attached, one inbox per user, and an outbound channel to every
    /// contact and to the user itself.
    #[verifier::loop_isolation(false)]
    pub fn init<T: UserModel>(&self) -> (models: Vec<T>)
        requires
            self.wf(),
            self.has_histograms(),
            0 < self.spec_contacts_n() < self.spec_users(),
        ensures
            models@.len() == self.spec_users(),
            forall|i: int|
                0 <= i < models@.len() ==> ({
                    let m = #[trigger] models@[i];
                    &&& m.wf()
                    &&& m.ready()
                    &&& m.spec_limit() == 0
                    &&& m.spec_epoch() == self.spec_epoch()
                    &&& m.spec_topos_len() == self.spec_configs().len()
                    &&& m.spec_userid() == i as u32
                    &&& m.spec_contacts().len() == self.spec_contacts_n()
                    &&& distinct_ids(m.spec_contacts())
                    &&& (forall|k: int|
                        0 <= k < m.spec_contacts().len() ==> ((#[trigger] m.spec_contacts()[k])
                            != i as u32 && m.spec_contacts()[k] < self.spec_users()))
                }),
    {
        let users = self.users;
        let ts = match &self.timestamps_h {
            Some(h) => h,
            None => {
                proof {
                    assert(false);
                }
                return Vec::new();
            },
        };
        let ss = match &self.sizes_h {
            Some(h) => h,
            None => {
                proof {
                    assert(false);
                }
                return Vec::new();
            },
        };
        // one channel per user; every sender handle can be cloned later
        let mut senders: Vec<crossbeam_channel::Sender<UserRequest>> = Vec::new();
        let mut receivers: Vec<crossbeam_channel::Receiver<UserRequest>> = Vec::new();
        let mut i: u32 = 0;
        while i < users
            invariant
                0 <= i <= users,
                senders@.len() == i,
                receivers@.len() == i,
            decreases users - i,
        {
            let (s, r) = channel_unbounded();
            senders.push(s);
            receivers.push(r);
            i = i + 1;
        }
        let mut models: Vec<T> = Vec::new();
        let mut user: u32 = 0;
        while user < users
            invariant
                0 <= user <= users,
                models@.len() == user,
                senders@.len() == users,
                receivers@.len() == users - user,
                forall|k: int|
                    0 <= k < models@.len() ==> ({
                        let m = #[trigger] models@[k];
                        &&& m.wf()
                        &&& m.ready()
                        &&& m.spec_limit() == 0
                        &&& m.spec_epoch() == self.spec_epoch()
                        &&& m.spec_topos_len() == self.spec_configs().len()
                        &&& m.spec_userid() == k as u32
                        &&& m.spec_contacts().len() == self.spec_contacts_n()
                        &&& distinct_ids(m.spec_contacts())
                        &&& (forall|j: int|
                            0 <= j < m.spec_contacts().len() ==> ((
                            #[trigger] m.spec_contacts()[j]) != k as u32 && m.spec_contacts()[j]
                                < self.spec_users()))
                    }),
            decreases users - user,
        {
            let uinfo = UserModelInfo::new(
                user,
                arc_clone(&self.configs),
                self.epoch,
                self.use_guards,
            );
            let mut model: T = UserModel::new(users, self.epoch, uinfo);
            model.set_contacts(self.contacts, users);
            let ghost m1 = model;
            model.with_size_sampler(arc_clone(ss));
            model.with_timestamp_sampler(arc_clone(ts));
            let r = receivers.remove(0);
            model.with_receiver(r);
            proof {
                assert(model.spec_contacts() == m1.spec_contacts());
                assert(distinct_ids(model.spec_contacts()));
                assert forall|k: int|
                    0 <= k < model.spec_contacts().len() implies ((
                #[trigger] model.spec_contacts()[k]) < users && model.spec_contacts()[k]
                    != model.spec_userid()) by {
                    assert(m1.spec_contacts()[k] < users);
                    assert(m1.spec_contacts()[k] != m1.spec_userid());
                }
            }
            let ghost old_userid: u32 = model.spec_userid();
            proof {
                assert(old_userid == user);
            }
            // an outbound channel to every contact, and a self-loop
            let n_contacts = match model.get_contacts() {
                Some(cs) => cs.len(),
                None => {
                    proof {
                        assert(false);
                    }
                    0
                },
            };
            proof {
                assert(n_contacts == model.spec_contacts().len());
            }
            let mut j: usize = 0;
            while j < n_contacts
                invariant
                    0 <= j <= n_contacts,
                    model.wf(),
                    n_contacts == model.spec_contacts().len(),
                    model.spec_contacts() == m1.spec_contacts(),
                    senders@.len() == users,
                    forall|k: int|
                        0 <= k < model.spec_contacts().len() ==> ((
                        #[trigger] model.spec_contacts()[k]) < users
                            && model.spec_contacts()[k] != model.spec_userid()),
                    model.spec_userid() == old_userid,
                    model.spec_kind() == AnonModelKind::BothPeers ==> forall|k: int|
                        0 <= k < j ==> model.senders_has(#[trigger] model.spec_contacts()[k]),
                    model.has_timestamp_sampler(),
                    model.has_size_sampler(),
                    model.spec_limit() == 0,
                    model.spec_epoch() == self.spec_epoch(),
                    model.spec_topos_len() == self.spec_configs().len(),
                    model.spec_contacts().len() == self.spec_contacts_n(),
                decreases n_contacts - j,
            {
                let c = match model.get_contacts() {
                    Some(cs) => cs[j],
                    None => {
                        proof {
                            assert(false);
                        }
                        0
                    },
                };
                let sc = channel_sender_clone(&senders[c as usize]);
                let ghost mpre = model;
                model.add_sender(c, sc);
                proof {
                    assert(model.spec_contacts() == mpre.spec_contacts());
                    assert forall|k: int|
                        0 <= k < model.spec_contacts().len() implies ((
                    #[trigger] model.spec_contacts()[k]) < users && model.spec_contacts()[k]
                        != model.spec_userid()) by {
                        assert(mpre.spec_contacts()[k] < users);
                        assert(mpre.spec_contacts()[k] != mpre.spec_userid());
                    }
                    if model.spec_kind() == AnonModelKind::BothPeers {
                        assert forall|k: int|
                            0 <= k < j + 1 implies model.senders_has(
                            #[trigger] model.spec_contacts()[k],
                        ) by {
                            let ck = model.spec_contacts()[k];
                            if ck == c {
                                assert(model.senders_has(c));
                            } else {
                                assert(mpre.senders_has(mpre.spec_contacts()[k]));
                            }
                        }
                    }
                }
                j = j + 1;
            }
            let sc = channel_sender_clone(&senders[user as usize]);
            let ghost mpre2 = model;
            model.add_sender(user, sc);
            proof {
                assert(model.spec_contacts() == mpre2.spec_contacts());
                assert(model.spec_contacts() == m1.spec_contacts());
                assert(distinct_ids(model.spec_contacts()));
                if model.spec_kind() == AnonModelKind::BothPeers {
                    assert forall|k: int|
                        0 <= k < model.spec_contacts().len() implies model.senders_has(
                        #[trigger] model.spec_contacts()[k],
                    ) by {
                        let ck = model.spec_contacts()[k];
                        assert(mpre2.spec_contacts()[k] != mpre2.spec_userid());
                        assert(ck != user);
                        assert(mpre2.senders_has(mpre2.spec_contacts()[k]));
                    }
                }
                model.ready_from_setup();
            }
            let ghost models0 = models@;
            models.push(model);
            proof {
                assert forall|k: int|
                    0 <= k < models@.len() implies ({
                    let m = #[trigger] models@[k];
                    &&& m.wf()
                    &&& m.ready()
                    &&& m.spec_limit() == 0
                    &&& m.spec_epoch() == self.spec_epoch()
                    &&& m.spec_topos_len() == self.spec_configs().len()
                    &&& m.spec_userid() == k as u32
                    &&& m.spec_contacts().len() == self.spec_contacts_n()
                    &&& distinct_ids(m.spec_contacts())
                    &&& (forall|j: int|
                        0 <= j < m.spec_contacts().len() ==> ((#[trigger] m.spec_contacts()[j])
                            != k as u32 && m.spec_contacts()[j] < self.spec_users()))
                }) by {
                    if k < models0.len() {
                        assert(models0[k].wf() && models0[k].ready() && models0[k].spec_limit()
                            == 0 && models0[k].spec_epoch() == self.spec_epoch()
                            && models0[k].spec_topos_len() == self.spec_configs().len()
                            && models0[k].spec_userid() == k as u32
                            && models0[k].spec_contacts().len() == self.spec_contacts_n()
                            && distinct_ids(models0[k].spec_contacts()));
                        let cs = models0[k].spec_contacts();
                        assert(forall|j: int|
                            0 <= j < cs.len() ==> ((#[trigger] cs[j]) != k as u32 && cs[j]
                                < self.spec_users()));
                    }
                }
            }
            user = user + 1;
        }
        models
    }

    /// Build one user model per user, without contacts, histograms or
    /// channels, for synchronous runs.
    #[verifier::loop_isolation(false)]
    pub fn init_sync<T: UserModel>(&self) -> (models: Vec<T>)
        requires
            self.wf(),
        ensures
            models@.len() == self.spec_users(),
            forall|i: int|
                0 <= i < models@.len() ==> ({
                    let m = #[trigger] models@[i];
                    &&& m.wf()
                    &&& m.spec_limit() == 0
                    &&& m.spec_epoch() == self.spec_epoch()
                    &&& m.spec_topos_len() == self.spec_configs().len()
                    &&& m.spec_userid() == i as u32
                    &&& m.spec_contacts().len() == 0
                }),
    {
        let users = self.users;
        let mut models: Vec<T> = Vec::new();
        let mut user: u32 = 0;
        while user < users
            invariant
                0 <= user <= users,
                models@.len() == user,
                forall|k: int|
                    0 <= k < models@.len() ==> ({
                        let m = #[trigger] models@[k];
                        &&& m.wf()
                        &&& m.spec_limit() == 0
                        &&& m.spec_epoch() == self.spec_epoch()
                        &&& m.spec_topos_len() == self.spec_configs().len()
                        &&& m.spec_userid() == k as u32
                        &&& m.spec_contacts().len() == 0
                    }),
            decreases users - user,
        {
            let uinfo = UserModelInfo::new(
                user,
                arc_clone(&self.configs),
                self.epoch,
                self.use_guards,
            );
            let model: T = UserModel::new(users, self.epoch, uinfo);
            models.push(model);
            user = user + 1;
        }
        models
    }

    /// The sending pass for one user: set the limit, drain the model's
    /// packet stream, sample one route per packet, and close the user's
    /// outbound channels when the model works both ends.  From a monotone
    /// model the records come out in non-decreasing time order.
    #[verifier::loop_isolation(false)]
    pub fn run_user_pass1<T: UserModel>(
        &self,
        model: &mut T,
        rng: &mut rand::rngs::SmallRng,
    ) -> (records: Vec<SimRecord>)
        requires
            self.wf(),
            old(model).wf(),
            old(model).ready(),
            old(model).spec_epoch() == self.spec_epoch(),
            old(model).spec_topos_len() == self.spec_configs().len(),
        ensures
            final(model).wf(),
            final(model).spec_kind() == AnonModelKind::BothPeers
                ==> final(model).senders_cleared(),
            forall|i: int|
                0 <= i < records@.len() ==> ({
                    let r = #[trigger] records@[i];
                    &&& r.path@.len() == PATH_LENGTH
                    &&& r.is_malicious == path_malicious(r.path@, r.mailbox)
                    &&& r.timestamp < (self.spec_days() as int) * 86400
                    &&& r.userid == old(model).spec_userid()
                }),
            old(model).stream_ok() ==> (forall|i: int, j: int|
                0 <= i < j < records@.len() ==> (#[trigger] records@[i]).timestamp <= (
                #[trigger] records@[j]).timestamp),
            final(model).emissions().len() == old(model).emissions().len() + records@.len(),
            forall|i: int|
                0 <= i < records@.len() ==> record_matches_emission(
                    #[trigger] records@[i],
                    final(model).emissions()[old(model).emissions().len() + i],
                ),
            forall|i: int|
                0 <= i < records@.len() ==> record_from_active_topology(
                    #[trigger] records@[i],
                    final(model).emissions()[old(model).emissions().len() + i],
                    self.spec_configs(),
                    self.spec_epoch(),
                ),
            final(model).exhausted(),
    {
        let limit = self.days_to_timestamp();
        proof {
            if limit > 0 {
                lemma_limit_fits(
                    limit as int,
                    self.spec_epoch() as int,
                    self.spec_configs().len() as int,
                );
            }
        }
        model.set_limit(limit);
        let mut records: Vec<SimRecord> = Vec::new();
        loop
            invariant
                model.wf(),
                model.ready(),
                model.spec_limit() == limit,
                model.spec_userid() == old(model).spec_userid(),
                model.spec_kind() == old(model).spec_kind(),
                model.spec_epoch() == self.spec_epoch(),
                model.spec_topos_len() == self.spec_configs().len(),
                forall|i: int|
                    0 <= i < records@.len() ==> ({
                        let r = #[trigger] records@[i];
                        &&& r.path@.len() == PATH_LENGTH
                        &&& r.is_malicious == path_malicious(r.path@, r.mailbox)
                        &&& r.timestamp < (self.spec_days() as int) * 86400
                        &&& r.userid == old(model).spec_userid()
                    }),
                old(model).stream_ok() ==> model.stream_ok(),
                old(model).stream_ok() ==> (forall|i: int|
                    0 <= i < records@.len() ==> (#[trigger] records@[i]).timestamp
                        <= model.spec_last_time()),
                old(model).stream_ok() ==> (forall|i: int, j: int|
                    0 <= i < j < records@.len() ==> (#[trigger] records@[i]).timestamp <= (
                    #[trigger] records@[j]).timestamp),
                model.emissions().len() == old(model).emissions().len() + records@.len(),
                forall|i: int|
                    0 <= i < records@.len() ==> record_matches_emission(
                        #[trigger] records@[i],
                        model.emissions()[old(model).emissions().len() + i],
                    ),
                forall|i: int|
                    0 <= i < records@.len() ==> record_from_active_topology(
                        #[trigger] records@[i],
                        model.emissions()[old(model).emissions().len() + i],
                        self.spec_configs(),
                        self.spec_epoch(),
                    ),
            decreases model.progress().0, model.progress().1, model.progress().2,
        {
            proof {
                model.progress_nonneg();
            }
            match model.next() {
                Some(item) => {
                    let (message_timing, guard, mailbox, requestid) = item;
                    proof {
                        assert(limit > 0);
                        vstd::arithmetic::div_mod::lemma_div_is_ordered(
                            message_timing as int,
                            (limit - 1) as int,
                            self.spec_epoch() as int,
                        );
                        lemma_limit_fits(
                            limit as int,
                            self.spec_epoch() as int,
                            self.spec_configs().len() as int,
                        );
                    }
                    let path = self.sample_path(message_timing, rng, guard.as_ref());
                    let is_malicious = self.is_path_malicious(&path, mailbox.as_ref());
                    let date = Runable::format_message_timing(message_timing);
                    let record = SimRecord {
                        timestamp: message_timing,
                        date,
                        userid: model.get_userid(),
                        requestid,
                        path,
                        mailbox,
                        is_malicious,
                    };
                    records.push(record);
                    proof {
                        assert(record_matches_emission(
                            records@[records@.len() - 1],
                            model.emissions()[model.emissions().len() - 1],
                        ));
                        assert(record_from_active_topology(
                            records@[records@.len() - 1],
                            model.emissions()[model.emissions().len() - 1],
                            self.spec_configs(),
                            self.spec_epoch(),
                        ));
                        model.progress_nonneg();
                    }
                },
                None => {
                    break ;
                },
            }
        }
        if model.model_kind() == AnonModelKind::BothPeers {
            model.drop_senders();
        }
        records
    }

    /// The receiving pass for one user: drain the inbox, resolve each
    /// request's guard and mailbox under the topology it was created in,
    /// and emit one record per packet below the limit.  Requests whose
    /// topology index lies outside the loaded topologies cannot be
    /// resolved and are skipped.
    #[verifier::loop_isolation(false)]
    pub fn run_user_pass2<T: UserModel>(
        &self,
        model: &mut T,
        rng: &mut rand::rngs::SmallRng,
    ) -> (records: Vec<SimRecord>)
        requires
            self.wf(),
            old(model).wf(),
            old(model).spec_epoch() == self.spec_epoch(),
            old(model).spec_topos_len() == self.spec_configs().len(),
            old(model).spec_limit() as int <= (self.spec_days() as int) * 86400,
        ensures
            final(model).wf(),
            *final(model) == *old(model),
            forall|i: int|
                0 <= i < records@.len() ==> ({
                    let r = #[trigger] records@[i];
                    &&& r.path@.len() == PATH_LENGTH
                    &&& r.is_malicious == path_malicious(r.path@, r.mailbox)
                    &&& r.userid == old(model).spec_userid()
                    &&& r.timestamp < old(model).spec_limit()
                    &&& r.requestid is Some
                    &&& r.date@ == datetime_string_of(r.timestamp)
                    &&& r.path@[0].layer == 0
                    &&& r.path@[2].layer == 2
                    &&& (forall|l: int|
                        0 <= l < 3 && l != GUARDS_LAYER
                            ==> self.spec_configs()[(r.timestamp / (
                        self.spec_epoch() as u64)) as int].layer_seq(l).contains(
                            #[trigger] r.path@[l],
                        ))
                }),
            forall|i: int|
                0 <= i < records@.len() ==> record_resolved(
                    #[trigger] records@[i],
                    *old(model),
                    self.spec_configs().len() as int,
                ),
    {
        let mut records: Vec<SimRecord> = Vec::new();
        let tlen = self.configs.len();
        let mut fuel: u64 = u64::MAX;
        loop
            invariant
                model.wf(),
                *model == *old(model),
                model.spec_limit() == old(model).spec_limit(),
                model.spec_userid() == old(model).spec_userid(),
                model.spec_epoch() == self.spec_epoch(),
                model.spec_topos_len() == self.spec_configs().len(),
                tlen == self.spec_configs().len(),
                forall|i: int|
                    0 <= i < records@.len() ==> record_resolved(
                        #[trigger] records@[i],
                        *old(model),
                        self.spec_configs().len() as int,
                    ),
                forall|i: int|
                    0 <= i < records@.len() ==> ({
                        let r = #[trigger] records@[i];
                        &&& r.path@.len() == PATH_LENGTH
                        &&& r.is_malicious == path_malicious(r.path@, r.mailbox)
                        &&& r.userid == old(model).spec_userid()
                        &&& r.timestamp < old(model).spec_limit()
                        &&& r.requestid is Some
                        &&& r.date@ == datetime_string_of(r.timestamp)
                        &&& r.path@[0].layer == 0
                        &&& r.path@[2].layer == 2
                        &&& (forall|l: int|
                            0 <= l < 3 && l != GUARDS_LAYER
                                ==> self.spec_configs()[(r.timestamp / (
                            self.spec_epoch() as u64)) as int].layer_seq(l).contains(
                                #[trigger] r.path@[l],
                            ))
                    }),
            decreases fuel,
        {
            if fuel == 0 {
                break ;
            }
            fuel = fuel - 1;
            let request = match model.get_request() {
                Some(r) => r,
                None => {
                    break ;
                },
            };
            let topo_idx = request.get_topos_idx() as usize;
            if topo_idx < tlen {
                let guard = model.get_guard_for(topo_idx);
                let mailbox = model.get_mailbox(topo_idx);
                let user = model.get_userid();
                let requestid = request.get_requestid();
                let mut req = request;
                let ghost size0 = req.request_size as int;
                loop
                    invariant
                        model.wf(),
                        *model == *old(model),
                        model.spec_limit() == old(model).spec_limit(),
                        model.spec_userid() == old(model).spec_userid(),
                        model.spec_epoch() == self.spec_epoch(),
                        model.spec_topos_len() == self.spec_configs().len(),
                        tlen == self.spec_configs().len(),
                        user == old(model).spec_userid(),
                        forall|i: int|
                            0 <= i < records@.len() ==> record_resolved(
                                #[trigger] records@[i],
                                *old(model),
                                self.spec_configs().len() as int,
                            ),
                        forall|i: int|
                            0 <= i < records@.len() ==> ({
                                let r = #[trigger] records@[i];
                                &&& r.path@.len() == PATH_LENGTH
                                &&& r.is_malicious == path_malicious(r.path@, r.mailbox)
                                &&& r.userid == old(model).spec_userid()
                                &&& r.timestamp < old(model).spec_limit()
                                &&& r.requestid is Some
                                &&& r.date@ == datetime_string_of(r.timestamp)
                                &&& r.path@[0].layer == 0
                                &&& r.path@[2].layer == 2
                                &&& (forall|l: int|
                                    0 <= l < 3 && l != GUARDS_LAYER
                                        ==> self.spec_configs()[(r.timestamp / (
                                    self.spec_epoch() as u64)) as int].layer_seq(l).contains(
                                        #[trigger] r.path@[l],
                                    ))
                            }),
                    decreases
                            (if req.request_size >= 0 {
                                req.request_size + PAYLOAD_STEP
                            } else {
                                0
                            }),
                {
                    let message_timing = match req.next() {
                        Some(t) => t,
                        None => {
                            break ;
                        },
                    };
                    let limit = model.get_limit();
                    if message_timing < limit {
                        proof {
                            assert(limit > 0);
                            vstd::arithmetic::div_mod::lemma_div_is_ordered(
                                message_timing as int,
                                (limit - 1) as int,
                                self.spec_epoch() as int,
                            );
                            lemma_limit_fits(
                                limit as int,
                                self.spec_epoch() as int,
                                self.spec_configs().len() as int,
                            );
                        }
                        let path = self.sample_path(message_timing, rng, guard.as_ref());
                        let is_malicious = self.is_path_malicious(&path, mailbox.as_ref());
                        let date = Runable::format_message_timing(message_timing);
                        let record = SimRecord {
                            timestamp: message_timing,
                            date,
                            userid: user,
                            requestid: Some(requestid),
                            path,
                            mailbox,
                            is_malicious,
                        };
                        records.push(record);
                        proof {
                            let r = records@[records@.len() - 1];
                            assert(r.mailbox == old(model).spec_mailbox_for(topo_idx as int));
                            assert((old(model).spec_guard_for(topo_idx as int) matches Some(g)
                                ==> r.path@[GUARDS_LAYER as int] == g) && (old(
                                model,
                            ).spec_guard_for(topo_idx as int) is None ==> r.path@[
                            GUARDS_LAYER as int].layer == GUARDS_LAYER));
                            assert(record_resolved(
                                r,
                                *old(model),
                                self.spec_configs().len() as int,
                            ));
                        }
                    }
                }
            }
        }
        records
    }
}

/// Well-formedness carries over to a simulation whose topologies and
/// bounds are unchanged and whose histograms, where replaced, are
/// themselves well-formed.
proof fn lemma_runable_frame(pre: &Runable, post: &Runable)
    requires
        pre.wf(),
        post.users == pre.users,
        post.configs@ == pre.configs@,
        post.days == pre.days,
        post.epoch == pre.epoch,
        post.timestamps_h == pre.timestamps_h || (post.timestamps_h matches Some(h) && h.wf()),
        post.sizes_h == pre.sizes_h || (post.sizes_h matches Some(h) && h.wf()),
    ensures
        post.wf(),
{
    assert forall|i: int| 0 <= i < post.configs@.len() implies (#[trigger] post.configs@[i]).wf()
        && post.configs@[i].fully_sampled() by {
        assert(pre.configs@[i].wf());
        assert(pre.configs@[i].fully_sampled());
    }
    assert forall|i: int, u: u32|
        0 <= i < post.configs@.len() && u < post.users implies #[trigger] post.configs@[i].mailbox_map().contains_key(
        u,
    ) by {
        assert(pre.configs@[i].mailbox_map().contains_key(u));
    }
}

/// One payload's worth of bytes, as a signed step for the packet loop.
pub const PAYLOAD_STEP: isize = 2048;

/// A limit within the covered range points into the topology array.
proof fn lemma_limit_fits(limit: int, epoch: int, tlen: int)
    requires
        epoch > 0,
        tlen > 0,
        limit >= 1,
        limit <= epoch * tlen,
    ensures
        (limit - 1) / epoch < tlen,
{
    assert((limit - 1) / epoch < tlen) by (nonlinear_arith)
        requires
            epoch > 0,
            tlen > 0,
            limit >= 1,
            limit <= epoch * tlen,
    ;
}

} // verus!
