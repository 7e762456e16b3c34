//! One epoch's network topology: three layers of mixnodes, a weighted
//! sampler per layer, the pool of unselected nodes, and one mailbox per
//! user.

use std::collections::HashMap;
use vstd::prelude::*;

use crate::mailbox::MailBox;
use crate::mixerror::MixError;
use crate::mixnode::{mixnode_of_line, Mixnode};
use crate::parse::{parse_u32_spec, split_commas, split_sep, BYTE_UNDERSCORE};
use crate::parse::{parse_u32_field, split_commas_bytes, split_sep_bytes};
use crate::weighted::{sum_u128, weight_sampler_weights, WeightSampler};

verus! {

broadcast use vstd::std_specs::hash::group_hash_axioms;

/// Number of layers a path traverses.
pub const PATH_LENGTH: usize = 3;

/// Size of one packet's payload, in bytes.
pub const PAYLOAD_SIZE: usize = 2048;

/// How many guard candidates a fresh user samples.
pub const GUARDS_SAMPLE_SIZE: usize = 5;

/// How many candidates are added when every known guard is offline.
pub const GUARDS_SAMPLE_SIZE_EXTEND: usize = 2;

/// The layer guards are drawn from.
pub const GUARDS_LAYER: usize = 1;

/// The unselected pool's entry for `id` is the parse of one of the
/// lines: a mix with that id, outside the three path layers.
pub open spec fn unselected_from_line(lines: Seq<Seq<u8>>, upto: int, id: u32, m: Mixnode) -> bool {
    exists|i: int|
        1 <= i < upto && mixnode_of_line(#[trigger] lines[i]) == Some(m) && m.mixid == id
}

/// A mailbox copies the id and compromise flag of one mix of a layer.
pub open spec fn mailbox_from_layer(mb: MailBox, layer: Seq<Mixnode>) -> bool {
    exists|j: int|
        0 <= j < layer.len() && mb.mixid == (#[trigger] layer[j]).mixid && mb.is_malicious
            == layer[j].is_malicious
}

/// A topology: a set of mixes for each layer, a weighted sampler per
/// non-empty layer, and a map of the mixes outside the three layers.
#[derive(Clone)]
pub struct TopologyConfig {
    pub filename: String,
    pub epoch: u32,
    layers: Vec<Vec<Mixnode>>,
    samplers: Vec<Option<WeightSampler>>,
    unselected: HashMap<u32, Mixnode>,
    mailboxes: HashMap<u32, MailBox>,
}

impl TopologyConfig {
    /// The epoch this topology is valid for.
    pub closed spec fn spec_epoch(&self) -> u32 {
        self.epoch
    }

    /// The name of the file this topology was read from.
    pub closed spec fn spec_filename(&self) -> Seq<char> {
        self.filename@
    }

    /// The epoch this topology is valid for.
    pub fn get_epoch(&self) -> (e: u32)
        ensures
            e == self.spec_epoch(),
    {
        self.epoch
    }

    /// The mixes of layer `l`, in push order.
    pub closed spec fn layer_seq(&self, l: int) -> Seq<Mixnode> {
        self.layers@[l]@
    }

    /// The mixes outside the three path layers, keyed by mixid.
    pub closed spec fn unselected_map(&self) -> Map<u32, Mixnode> {
        self.unselected@
    }

    /// The mailboxes, keyed by userid.
    pub closed spec fn mailbox_map(&self) -> Map<u32, MailBox> {
        self.mailboxes@
    }

    /// Whether layer `l` has a sampler.
    pub closed spec fn has_sampler(&self, l: int) -> bool {
        self.samplers@[l] is Some
    }

    /// Every layer has a sampler, as after a successful load.
    pub open spec fn fully_sampled(&self) -> bool {
        forall|l: int| 0 <= l < 3 ==> self.has_sampler(l)
    }

    /// A mix is online at this topology iff its id is not in the
    /// unselected pool.
    pub open spec fn is_online(&self, mixid: u32) -> bool {
        !self.unselected_map().contains_key(mixid)
    }

    /// Structural invariant: three layers, three sampler slots, every mix
    /// stored in layer `l` carries layer `l`, every sampler was built over
    /// its layer's weights, and the unselected pool holds only mixes
    /// outside the three layers, keyed by their own id.
    pub closed spec fn wf(&self) -> bool {
        &&& self.layers@.len() == 3
        &&& self.samplers@.len() == 3
        &&& forall|l: int, k: int|
            0 <= l < 3 && 0 <= k < self.layers@[l]@.len() ==> (#[trigger] self.layers@[l]@[k]).layer
                == l
        &&& forall|l: int|
            0 <= l < 3 && (#[trigger] self.samplers@[l]) is Some ==> weight_sampler_weights(
                self.samplers@[l]->0,
            ) == self.layers@[l]@.map_values(|m: Mixnode| m.weight)
        &&& forall|k: u32|
            self.unselected_map().contains_key(k) ==> !(0 <= (
            #[trigger] self.unselected_map()[k]).layer < 3) && self.unselected_map()[k].mixid == k
    }

    /// An empty topology with the given name and epoch.
    pub fn new(filename: String, epoch: u32) -> (c: TopologyConfig)
        ensures
            c.wf(),
            c.spec_epoch() == epoch,
            c.spec_filename() == filename@,
            forall|l: int| 0 <= l < 3 ==> #[trigger] c.layer_seq(l) =~= Seq::<Mixnode>::empty(),
            forall|l: int| 0 <= l < 3 ==> !c.has_sampler(l),
            c.unselected_map() =~= Map::<u32, Mixnode>::empty(),
            c.mailbox_map() =~= Map::<u32, MailBox>::empty(),
    {
        let mut layers: Vec<Vec<Mixnode>> = Vec::new();
        layers.push(Vec::new());
        layers.push(Vec::new());
        layers.push(Vec::new());
        let mut samplers: Vec<Option<WeightSampler>> = Vec::new();
        samplers.push(None);
        samplers.push(None);
        samplers.push(None);
        TopologyConfig {
            filename,
            epoch,
            layers,
            samplers,
            unselected: HashMap::new(),
            mailboxes: HashMap::new(),
        }
    }

    /// Draw one mailbox per user from the first layer.
    #[verifier::loop_isolation(false)]
    pub fn with_mailboxes(&mut self, tot_users: u32)
        requires
            old(self).wf(),
            old(self).layer_seq(0).len() > 0,
        ensures
            final(self).wf(),
            forall|u: u32| u < tot_users ==> #[trigger] final(self).mailbox_map().contains_key(u),
            forall|u: u32|
                u < tot_users ==> mailbox_from_layer(
                    (#[trigger] final(self).mailbox_map()[u]),
                    old(self).layer_seq(0),
                ),
            forall|u: u32|
                #[trigger] final(self).mailbox_map().contains_key(u)
                    ==> (u < tot_users || old(self).mailbox_map().contains_key(u)),
            forall|u: u32|
                u >= tot_users && old(self).mailbox_map().contains_key(u)
                    ==> (#[trigger] final(self).mailbox_map().contains_key(u)
                    && final(self).mailbox_map()[u] == old(self).mailbox_map()[u]),
            final(self).spec_epoch() == old(self).spec_epoch(),
            final(self).spec_filename() == old(self).spec_filename(),
            forall|l: int| 0 <= l < 3 ==> #[trigger] final(self).layer_seq(l) == old(
                self,
            ).layer_seq(l),
            forall|l: int| 0 <= l < 3 ==> (final(self).has_sampler(l) <==> old(self).has_sampler(
                l,
            )),
            final(self).unselected_map() == old(self).unselected_map(),
    {
        let mut user: u32 = 0;
        while user < tot_users
            invariant
                0 <= user <= tot_users,
                forall|u: u32| u < user ==> #[trigger] self.mailbox_map().contains_key(u),
                forall|u: u32|
                    u < user ==> mailbox_from_layer(
                        (#[trigger] self.mailbox_map()[u]),
                        old(self).layer_seq(0),
                    ),
                forall|u: u32|
                    #[trigger] self.mailbox_map().contains_key(u)
                        ==> (u < user || old(self).mailbox_map().contains_key(u)),
                forall|u: u32|
                    u >= tot_users && old(self).mailbox_map().contains_key(u)
                        ==> (#[trigger] self.mailbox_map().contains_key(u)
                        && self.mailbox_map()[u] == old(self).mailbox_map()[u]),
                self.epoch == old(self).epoch,
                self.filename == old(self).filename,
                self.layers == old(self).layers,
                self.samplers == old(self).samplers,
                self.unselected == old(self).unselected,
            decreases tot_users - user,
        {
            let first_layer = vstd::slice::slice_subrange(self.layers.as_slice(), 0, 1);
            proof {
                assert(self.layers@[0]@ == old(self).layers@[0]@);
                assert(first_layer@[0] == self.layers@[0]);
            }
            let mb = MailBox::new(first_layer);
            proof {
                let (i, j) = choose|i: int, j: int|
                    0 <= i < first_layer@.len() && 0 <= j < first_layer@[i]@.len() && mb.mixid
                        == (#[trigger] first_layer@[i]@[j]).mixid && mb.is_malicious
                        == first_layer@[i]@[j].is_malicious;
                assert(i == 0);
                assert(first_layer@[0]@ == old(self).layer_seq(0));
                assert(mailbox_from_layer(mb, old(self).layer_seq(0)));
            }
            let ghost m0 = self.mailbox_map();
            self.mailboxes.insert(user, mb);
            proof {
                assert(self.mailbox_map() == m0.insert(user, mb));
                assert forall|u: u32|
                    u < user + 1 implies #[trigger] self.mailbox_map().contains_key(u) by {
                    if u < user {
                        assert(m0.contains_key(u));
                    }
                }
                assert forall|u: u32|
                    u < user + 1 implies mailbox_from_layer(
                    (#[trigger] self.mailbox_map()[u]),
                    old(self).layer_seq(0),
                ) by {
                    if u < user {
                        assert(self.mailbox_map()[u] == m0[u]);
                        assert(mailbox_from_layer(m0[u], old(self).layer_seq(0)));
                    } else {
                        assert(self.mailbox_map()[u] == mb);
                    }
                }
            }
            user = user + 1;
        }
        proof {
            lemma_wf_same_partition(old(self), self);
        }
    }

    /// The mailbox of `userid`, if one was drawn.
    pub fn get_mailbox(&self, userid: u32) -> (r: Option<&MailBox>)
        ensures
            r is Some <==> self.mailbox_map().contains_key(userid),
            r is Some ==> *r->0 == self.mailbox_map()[userid],
    {
        self.mailboxes.get(&userid)
    }

    /// The three layers.
    pub fn layers(&self) -> (r: &Vec<Vec<Mixnode>>)
        ensures
            self.wf() ==> r@.len() == 3,
            forall|l: int| 0 <= l < r@.len() ==> #[trigger] r@[l]@ == self.layer_seq(l),
    {
        &self.layers
    }

    /// The pool of mixes outside the three layers.
    pub fn unselected(&self) -> (r: &HashMap<u32, Mixnode>)
        ensures
            r@ == self.unselected_map(),
    {
        &self.unselected
    }

    /// Sample `n_guards` mixes, with replacement, from layer `l`; an
    /// unsampled layer yields nothing.
    #[verifier::loop_isolation(false)]
    pub fn sample_guards(&self, l: usize, n_guards: usize, rng: &mut rand::rngs::SmallRng) -> (r:
        Vec<Mixnode>)
        requires
            self.wf(),
            l < 3,
        ensures
            self.has_sampler(l as int) ==> r@.len() == n_guards,
            !self.has_sampler(l as int) ==> r@.len() == 0,
            forall|i: int| 0 <= i < r@.len() ==> self.layer_seq(l as int).contains(#[trigger] r@[i]),
    {
        proof {
            assert(self.has_sampler(l as int) == (self.samplers@[l as int] is Some));
        }
        let mut out: Vec<Mixnode> = Vec::new();
        match &self.samplers[l] {
            Some(ws) => {
                let mut i: usize = 0;
                while i < n_guards
                    invariant
                        self.wf(),
                        l < 3,
                        self.samplers@[l as int] is Some,
                        ws == self.samplers@[l as int]->0,
                        0 <= i <= n_guards,
                        out@.len() == i,
                        forall|j: int|
                            0 <= j < out@.len() ==> self.layer_seq(l as int).contains(
                                #[trigger] out@[j],
                            ),
                    decreases n_guards - i,
                {
                    let idx = ws.sample(rng);
                    let m = self.layers[l][idx];
                    proof {
                        assert(self.layer_seq(l as int)[idx as int] == m);
                    }
                    out.push(m);
                    i = i + 1;
                }
            },
            None => {},
        }
        out
    }

    /// Sample a route through the layers.  When every layer has a sampler
    /// the path has exactly `PATH_LENGTH` hops; a supplied guard takes the
    /// place of the draw at `GUARDS_LAYER`.
    pub fn sample_path(&self, rng: &mut rand::rngs::SmallRng, guard: Option<&Mixnode>) -> (r: Vec<
        Mixnode,
    >)
        requires
            self.wf(),
        ensures
            r@.len() <= 3,
            self.fully_sampled() ==> r@.len() == 3,
            self.fully_sampled() && guard is Some ==> r@[GUARDS_LAYER as int] == *guard->0,
            self.fully_sampled() ==> forall|l: int|
                0 <= l < 3 && !(l == GUARDS_LAYER && guard is Some) ==> self.layer_seq(l).contains(
                    #[trigger] r@[l],
                ),
    {
        proof {
            assert(self.has_sampler(0) == (self.samplers@[0] is Some));
            assert(self.has_sampler(1) == (self.samplers@[1] is Some));
            assert(self.has_sampler(2) == (self.samplers@[2] is Some));
        }
        let mut path: Vec<Mixnode> = Vec::new();
        if let Some(ws) = &self.samplers[0] {
            let idx = ws.sample(rng);
            proof {
                assert(idx < self.layer_seq(0).len());
            }
            let m = self.layers[0][idx];
            proof {
                assert(self.layer_seq(0)[idx as int] == m);
            }
            path.push(m);
        }
        if let Some(ws) = &self.samplers[GUARDS_LAYER] {
            match guard {
                Some(g) => path.push(*g),
                None => {
                    let idx = ws.sample(rng);
                    proof {
                        assert(idx < self.layer_seq(GUARDS_LAYER as int).len());
                    }
                    let m = self.layers[GUARDS_LAYER][idx];
                    proof {
                        assert(self.layer_seq(GUARDS_LAYER as int)[idx as int] == m);
                    }
                    path.push(m);
                },
            }
        }
        if let Some(ws) = &self.samplers[2] {
            let idx = ws.sample(rng);
            proof {
                assert(idx < self.layer_seq(2).len());
            }
            let m = self.layers[2][idx];
            proof {
                assert(self.layer_seq(2)[idx as int] == m);
            }
            path.push(m);
        }
        path
    }
}

/// Well-formedness carries over to a topology with equal layers,
/// samplers and unselected pool.
proof fn lemma_wf_same_partition(a: &TopologyConfig, b: &TopologyConfig)
    requires
        a.wf(),
        b.layers == a.layers,
        b.samplers == a.samplers,
        b.unselected == a.unselected,
    ensures
        b.wf(),
{
    assert forall|l: int|
        0 <= l < 3 && (#[trigger] b.samplers@[l]) is Some implies weight_sampler_weights(
        b.samplers@[l]->0,
    ) == b.layers@[l]@.map_values(|m: Mixnode| m.weight) by {
        assert(a.samplers@[l] is Some);
        assert(weight_sampler_weights(a.samplers@[l]->0) == a.layers@[l]@.map_values(
            |m: Mixnode| m.weight,
        ));
    }
    assert forall|l: int, k: int|
        0 <= l < 3 && 0 <= k < b.layers@[l]@.len() implies (#[trigger] b.layers@[l]@[k]).layer
        == l by {
        assert(a.layers@[l]@[k].layer == l);
    }
    assert forall|k: u32| b.unselected_map().contains_key(k) implies !(0 <= (
        #[trigger] b.unselected_map()[k]).layer < 3) && b.unselected_map()[k].mixid == k by {
        assert(a.unselected_map().contains_key(k));
        assert(!(0 <= a.unselected_map()[k].layer < 3) && a.unselected_map()[k].mixid == k);
    }
}

/// The epoch named by a topology file header: the part after `_` in the
/// fourth comma-separated field.  A header with fewer than four fields, or
/// a fourth field without `_`, names epoch 0; a field whose part after the
/// first `_` is not an integer names none.
pub open spec fn header_epoch_spec(h: Seq<u8>) -> Option<u32> {
    let fields = split_commas(h);
    if fields.len() < 4 {
        Some(0)
    } else {
        let parts = split_sep(fields[3], BYTE_UNDERSCORE);
        if parts.len() < 2 {
            Some(0)
        } else {
            parse_u32_spec(parts[1])
        }
    }
}

/// Read the epoch from a topology file header line.
pub fn header_epoch(h: &[u8]) -> (r: Option<u32>)
    ensures
        r == header_epoch_spec(h@),
{
    let fields = split_commas_bytes(h);
    if fields.len() < 4 {
        return Some(0);
    }
    let parts = split_sep_bytes(fields[3].as_slice(), BYTE_UNDERSCORE);
    if parts.len() < 2 {
        return Some(0);
    }
    parse_u32_field(parts[1].as_slice())
}

/// The mixes of layer `l` among the parses of `lines[1..upto]`, in file
/// order.
pub open spec fn spec_layer_mixes(lines: Seq<Seq<u8>>, upto: int, l: int) -> Seq<Mixnode>
    decreases upto,
{
    if upto <= 1 {
        Seq::<Mixnode>::empty()
    } else {
        let rest = spec_layer_mixes(lines, upto - 1, l);
        match mixnode_of_line(lines[upto - 1]) {
            Some(m) => if 0 <= m.layer < 3 && m.layer == l {
                rest.push(m)
            } else {
                rest
            },
            None => rest,
        }
    }
}

/// Whether a layer's mixes can feed the weighted alias sampler: at least
/// one mix, at most `u32::MAX`, each weight at most `u128::MAX / len`,
/// and a positive total weight.
pub open spec fn layer_weights_ok(mixes: Seq<Mixnode>) -> bool {
    let w = mixes.map_values(|m: Mixnode| m.weight);
    &&& 0 < w.len() <= u32::MAX
    &&& forall|i: int| 0 <= i < w.len() ==> w[i] <= u128::MAX / (w.len() as u128)
    &&& sum_u128(w) > 0
}

/// Everything `load_from_lines` needs of its input: a header, every
/// following line naming a mixnode, a parseable epoch, and three layers
/// that can feed a sampler.
pub open spec fn loadable(lines: Seq<Seq<u8>>) -> bool {
    &&& lines.len() > 0
    &&& header_epoch_spec(lines[0]) is Some
    &&& forall|i: int| 1 <= i < lines.len() ==> mixnode_of_line(#[trigger] lines[i]) is Some
    &&& forall|l: int| 0 <= l < 3 ==> layer_weights_ok(spec_layer_mixes(lines, lines.len() as int, l))
}

/// Build the weighted sampler over one layer's mixes.
#[verifier::loop_isolation(false)]
fn build_layer_sampler(layer: &Vec<Mixnode>) -> (r: Option<WeightSampler>)
    ensures
        r is Some <==> layer_weights_ok(layer@),
        r is Some ==> weight_sampler_weights(r->0) =~= layer@.map_values(|m: Mixnode| m.weight),
{
    let n = layer.len();
    let mut weights: Vec<u128> = Vec::new();
    let mut k: usize = 0;
    while k < n
        invariant
            0 <= k <= n,
            n == layer@.len(),
            weights@.len() == k,
            forall|j: int| 0 <= j < k ==> weights@[j] == layer@[j].weight,
        decreases n - k,
    {
        weights.push(layer[k].weight);
        k = k + 1;
    }
    proof {
        assert(weights@ =~= layer@.map_values(|m: Mixnode| m.weight));
    }
    WeightSampler::new(&weights)
}

/// Build a topology from the lines of one topology file.  The first line
/// is the header; each further line is `mixid, weight, is_malicious,
/// layer`.  Mixes with layer 0, 1 or 2 fill the layers in file order;
/// every other mix goes to the unselected pool.  One mailbox is drawn for
/// each of `tot_users` users.
#[verifier::loop_isolation(false)]
#[verifier::rlimit(100)]
pub fn load_from_lines(filename: &str, lines: &Vec<Vec<u8>>, tot_users: u32) -> (r: Result<
    TopologyConfig,
    MixError,
>)
    ensures
        r is Ok <==> loadable(lines.deep_view()),
        r is Ok ==> ({
            let c = r->Ok_0;
            &&& c.wf()
            &&& c.fully_sampled()
            &&& c.spec_epoch() == header_epoch_spec(lines.deep_view()[0])->0
            &&& forall|l: int|
                0 <= l < 3 ==> #[trigger] c.layer_seq(l) == spec_layer_mixes(
                    lines.deep_view(),
                    lines.deep_view().len() as int,
                    l,
                )
            &&& forall|i: int|
                1 <= i < lines.deep_view().len() ==> ({
                    let m = mixnode_of_line(#[trigger] lines.deep_view()[i])->0;
                    !(0 <= m.layer < 3) ==> c.unselected_map().contains_key(m.mixid)
                })
            &&& forall|id: u32|
                #[trigger] c.unselected_map().contains_key(id) ==> unselected_from_line(
                    lines.deep_view(),
                    lines.deep_view().len() as int,
                    id,
                    c.unselected_map()[id],
                )
            &&& forall|u: u32| #[trigger] c.mailbox_map().contains_key(u) <==> u < tot_users
            &&& forall|u: u32|
                u < tot_users ==> mailbox_from_layer(
                    (#[trigger] c.mailbox_map()[u]),
                    c.layer_seq(0),
                )
        }),
{
    let ghost glines = lines.deep_view();
    proof {
        assert forall|k: int| 0 <= k < lines@.len() implies #[trigger] glines[k] == lines@[k]@ by {
            assert(glines[k] == lines@[k].deep_view());
            assert(lines@[k].deep_view() =~= lines@[k]@);
        }
    }
    if lines.len() == 0 {
        return Err(MixError::new("an empty topology file cannot be loaded"));
    }
    let epoch = match header_epoch(lines[0].as_slice()) {
        Some(e) => e,
        None => {
            proof {
                assert(header_epoch_spec(glines[0]) is None);
                assert(!loadable(glines));
            }
            return Err(MixError::new("the header does not name an integer epoch"));
        },
    };
    let mut layer0: Vec<Mixnode> = Vec::new();
    let mut layer1: Vec<Mixnode> = Vec::new();
    let mut layer2: Vec<Mixnode> = Vec::new();
    let mut unselected: HashMap<u32, Mixnode> = HashMap::new();
    let n = lines.len();
    let mut i: usize = 1;
    while i < n
        invariant
            1 <= i <= n,
            n == glines.len(),
            glines == lines.deep_view(),
            forall|k: int|
                0 <= k < lines@.len() ==> #[trigger] glines[k] == lines@[k].deep_view(),
            forall|j: int| 1 <= j < i ==> mixnode_of_line(#[trigger] glines[j]) is Some,
            layer0@ == spec_layer_mixes(glines, i as int, 0),
            layer1@ == spec_layer_mixes(glines, i as int, 1),
            layer2@ == spec_layer_mixes(glines, i as int, 2),
            forall|j: int|
                1 <= j < i ==> ({
                    let m = mixnode_of_line(#[trigger] glines[j])->0;
                    !(0 <= m.layer < 3) ==> unselected@.contains_key(m.mixid)
                }),
            forall|k: u32|
                unselected@.contains_key(k) ==> !(0 <= (#[trigger] unselected@[k]).layer < 3)
                    && unselected@[k].mixid == k,
            forall|id: u32|
                #[trigger] unselected@.contains_key(id) ==> unselected_from_line(
                    glines,
                    i as int,
                    id,
                    unselected@[id],
                ),
        decreases n - i,
    {
        proof {
            assert(glines[i as int] == lines@[i as int]@);
        }
        let mix = match Mixnode::from_bytes(lines[i].as_slice()) {
            Ok(m) => m,
            Err(e) => {
                proof {
                    assert(mixnode_of_line(glines[i as int]) is None);
                    assert(!loadable(glines));
                }
                return Err(e);
            },
        };
        if 0 <= mix.layer && mix.layer < 3 {
            if mix.layer == 0 {
                layer0.push(mix);
            } else if mix.layer == 1 {
                layer1.push(mix);
            } else {
                layer2.push(mix);
            }
        } else {
            let ghost u0 = unselected@;
            unselected.insert(mix.mixid, mix);
            proof {
                assert(mixnode_of_line(glines[i as int]) == Some(mix));
                assert forall|id: u32| #[trigger] unselected@.contains_key(id)
                    implies unselected_from_line(glines, i + 1, id, unselected@[id]) by {
                    if id == mix.mixid {
                        assert(1 <= i < i + 1 && mixnode_of_line(glines[i as int]) == Some(mix)
                            && mix.mixid == id);
                    } else {
                        assert(u0.contains_key(id));
                        assert(unselected_from_line(glines, i as int, id, u0[id]));
                    }
                }
            }
        }
        proof {
            assert forall|id: u32| #[trigger] unselected@.contains_key(id)
                implies unselected_from_line(glines, i + 1, id, unselected@[id]) by {
                assert(unselected_from_line(glines, i as int, id, unselected@[id])
                    || unselected_from_line(glines, i + 1, id, unselected@[id]));
            }
        }
        i = i + 1;
    }
    let ghost gl0 = layer0@;
    let ghost gl1 = layer1@;
    let ghost gl2 = layer2@;
    proof {
        assert(gl0 == spec_layer_mixes(glines, n as int, 0));
        assert(gl1 == spec_layer_mixes(glines, n as int, 1));
        assert(gl2 == spec_layer_mixes(glines, n as int, 2));
    }
    let sampler0 = match build_layer_sampler(&layer0) {
        Some(ws) => ws,
        None => {
            proof {
                assert(!layer_weights_ok(spec_layer_mixes(glines, n as int, 0)));
                assert(!loadable(glines));
            }
            return Err(MixError::new("the first layer cannot feed the weighted sampler"));
        },
    };
    let sampler1 = match build_layer_sampler(&layer1) {
        Some(ws) => ws,
        None => {
            proof {
                assert(!layer_weights_ok(spec_layer_mixes(glines, n as int, 1)));
                assert(!loadable(glines));
            }
            return Err(MixError::new("the second layer cannot feed the weighted sampler"));
        },
    };
    let sampler2 = match build_layer_sampler(&layer2) {
        Some(ws) => ws,
        None => {
            proof {
                assert(!layer_weights_ok(spec_layer_mixes(glines, n as int, 2)));
                assert(!loadable(glines));
            }
            return Err(MixError::new("the third layer cannot feed the weighted sampler"));
        },
    };
    let mut layers: Vec<Vec<Mixnode>> = Vec::new();
    layers.push(layer0);
    layers.push(layer1);
    layers.push(layer2);
    let mut samplers: Vec<Option<WeightSampler>> = Vec::new();
    samplers.push(Some(sampler0));
    samplers.push(Some(sampler1));
    samplers.push(Some(sampler2));
    let mut config = TopologyConfig {
        filename: filename.to_owned(),
        epoch,
        layers,
        samplers,
        unselected,
        mailboxes: HashMap::new(),
    };
    proof {
        lemma_spec_layer_mixes_layer(glines, n as int, 0);
        lemma_spec_layer_mixes_layer(glines, n as int, 1);
        lemma_spec_layer_mixes_layer(glines, n as int, 2);
        assert(config.layers@.len() == 3);
        assert(config.layers@[0]@ == gl0);
        assert(config.layers@[1]@ == gl1);
        assert(config.layers@[2]@ == gl2);
        assert(config.samplers@[0] == Some(sampler0));
        assert(config.samplers@[1] == Some(sampler1));
        assert(config.samplers@[2] == Some(sampler2));
        assert forall|l: int, k: int|
            0 <= l < 3 && 0 <= k < config.layers@[l]@.len() implies (
        #[trigger] config.layers@[l]@[k]).layer == l by {
            if l == 0 {
                assert(spec_layer_mixes(glines, n as int, 0)[k].layer == 0);
            } else if l == 1 {
                assert(spec_layer_mixes(glines, n as int, 1)[k].layer == 1);
            } else {
                assert(spec_layer_mixes(glines, n as int, 2)[k].layer == 2);
            }
        }
        assert forall|l: int|
            0 <= l < 3 && (#[trigger] config.samplers@[l]) is Some implies weight_sampler_weights(
            config.samplers@[l]->0,
        ) == config.layers@[l]@.map_values(|m: Mixnode| m.weight) by {
            if l == 0 {
                assert(weight_sampler_weights(sampler0) == gl0.map_values(|m: Mixnode| m.weight));
            } else if l == 1 {
                assert(weight_sampler_weights(sampler1) == gl1.map_values(|m: Mixnode| m.weight));
            } else {
                assert(weight_sampler_weights(sampler2) == gl2.map_values(|m: Mixnode| m.weight));
            }
        }
        assert(config.wf());
        assert(layer_weights_ok(gl0));
        assert(layer_weights_ok(gl1));
        assert(layer_weights_ok(gl2));
        assert forall|l: int| 0 <= l < 3 implies layer_weights_ok(
            spec_layer_mixes(glines, n as int, l),
        ) by {
            if l == 0 {
                assert(layer_weights_ok(spec_layer_mixes(glines, n as int, 0)));
            } else if l == 1 {
                assert(layer_weights_ok(spec_layer_mixes(glines, n as int, 1)));
            } else {
                assert(layer_weights_ok(spec_layer_mixes(glines, n as int, 2)));
            }
        }
        assert(glines[0] == lines@[0]@);
        assert(loadable(glines));
        assert(config.layer_seq(0).len() > 0);
        assert(config.has_sampler(0) && config.has_sampler(1) && config.has_sampler(2));
    }
    let ghost pre = *&config;
    config.with_mailboxes(tot_users);
    proof {
        assert(config.wf());
        assert forall|l: int| 0 <= l < 3 implies #[trigger] config.layer_seq(l)
            == spec_layer_mixes(glines, n as int, l) by {
            assert(config.layer_seq(l) == pre.layer_seq(l));
        }
        assert forall|j: int|
            1 <= j < n implies ({
                let m = mixnode_of_line(#[trigger] glines[j])->0;
                !(0 <= m.layer < 3) ==> config.unselected_map().contains_key(m.mixid)
            }) by {
            assert(config.unselected_map() == pre.unselected_map());
        }
        assert forall|id: u32| #[trigger] config.unselected_map().contains_key(id)
            implies unselected_from_line(glines, n as int, id, config.unselected_map()[id]) by {
            assert(config.unselected_map() == pre.unselected_map());
            assert(pre.unselected_map().contains_key(id));
            assert(unselected_from_line(glines, n as int, id, pre.unselected_map()[id]));
        }
        assert(config.fully_sampled()) by {
            assert(config.has_sampler(0) && config.has_sampler(1) && config.has_sampler(2));
        }
        assert(pre.mailbox_map() =~= Map::<u32, MailBox>::empty());
        assert forall|u: u32| #[trigger] config.mailbox_map().contains_key(u) implies u
            < tot_users by {
            if !(u < tot_users) {
                assert(pre.mailbox_map().contains_key(u));
            }
        }
        assert forall|u: u32| u < tot_users implies #[trigger] config.mailbox_map().contains_key(
            u,
        ) by {
            assert(mailbox_from_layer(config.mailbox_map()[u], pre.layer_seq(0)));
        }
        assert forall|u: u32| u < tot_users implies mailbox_from_layer(
            (#[trigger] config.mailbox_map()[u]),
            config.layer_seq(0),
        ) by {
            assert(mailbox_from_layer(config.mailbox_map()[u], pre.layer_seq(0)));
            assert(config.layer_seq(0) == pre.layer_seq(0));
        }
    }
    Ok(config)
}

/// Every loaded mix lives in exactly one place: a mix stored in layer `l`
/// carries layer `l`, and a mix in the unselected pool carries a layer
/// outside the three path layers, so the two sets cannot share a mix.
pub proof fn lemma_layers_unselected_partition(c: TopologyConfig)
    requires
        c.wf(),
    ensures
        forall|l: int, k: int|
            0 <= l < 3 && 0 <= k < c.layer_seq(l).len() ==> (#[trigger] c.layer_seq(l)[k]).layer
                == l,
        forall|id: u32|
            c.unselected_map().contains_key(id) ==> !(0 <= (
            #[trigger] c.unselected_map()[id]).layer < 3) && c.unselected_map()[id].mixid == id,
        forall|l: int, k: int, id: u32|
            0 <= l < 3 && 0 <= k < c.layer_seq(l).len() && c.unselected_map().contains_key(id)
                ==> (#[trigger] c.layer_seq(l)[k]) != (#[trigger] c.unselected_map()[id]),
{
    assert forall|l: int, k: int, id: u32|
        0 <= l < 3 && 0 <= k < c.layer_seq(l).len() && c.unselected_map().contains_key(id) implies (
    #[trigger] c.layer_seq(l)[k]) != (#[trigger] c.unselected_map()[id]) by {
        assert(c.layer_seq(l)[k].layer == l);
        assert(!(0 <= c.unselected_map()[id].layer < 3));
    }
}

/// Every mix gathered for layer `l` carries layer `l`.
proof fn lemma_spec_layer_mixes_layer(lines: Seq<Seq<u8>>, upto: int, l: int)
    ensures
        forall|k: int|
            0 <= k < spec_layer_mixes(lines, upto, l).len() ==> (#[trigger] spec_layer_mixes(
                lines,
                upto,
                l,
            )[k]).layer == l,
    decreases upto,
{
    if upto > 1 {
        lemma_spec_layer_mixes_layer(lines, upto - 1, l);
        let rest = spec_layer_mixes(lines, upto - 1, l);
        assert forall|k: int|
            0 <= k < spec_layer_mixes(lines, upto, l).len() implies (#[trigger] spec_layer_mixes(
            lines,
            upto,
            l,
        )[k]).layer == l by {
            if k < rest.len() {
                assert(rest[k].layer == l);
            }
        }
    }
}

} // verus!
