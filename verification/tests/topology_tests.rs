//! Loading topologies, sampling paths and guards, and the guard
//! lifecycle.

use rand::SeedableRng;
use routesim::config::{load_from_lines, GUARDS_LAYER};
use routesim::mailbox::MailBox;
use routesim::mixnode::Mixnode;
use routesim::usermodel::UserModelInfo;
use std::sync::Arc;

/// A small topology in the file format: a header naming the epoch, then
/// `mixid, weight, is_malicious, layer` lines.  Layer 0 gets fifty mixes
/// so indexed assertions have room; layers 1 and 2 get a handful.
fn layout_lines(epoch: u32, malicious_layer2: bool) -> Vec<Vec<u8>> {
    let mut lines: Vec<Vec<u8>> = Vec::new();
    lines.push(format!("mixid, bandwidth, malicious, epoch_{}", epoch).into_bytes());
    for id in 0..50u32 {
        let weight = if id == 42 { "1.8480844586590168".to_string() } else { format!("{}.5", id + 1) };
        lines.push(format!("{}, {}, False, 0", id, weight).into_bytes());
    }
    for id in 50..55u32 {
        lines.push(format!("{}, 10, False, 1", id).into_bytes());
    }
    for id in 55..60u32 {
        let mal = if malicious_layer2 { "True" } else { "False" };
        lines.push(format!("{}, 10, {}, 2", id, mal).into_bytes());
    }
    // two mixes outside the path layers
    lines.push("90, 3, False, -1".as_bytes().to_vec());
    lines.push("91, 3, True, -1".as_bytes().to_vec());
    lines
}

#[test]
fn load_test_topology_config() {
    let config = load_from_lines("single_layout", &layout_lines(42, false), 1).unwrap();
    let mix = &config.layers()[0][42];
    assert_eq!(mix.is_malicious, false);
    // 1.8480844586590168 in fixed point with sixteen fractional digits
    assert_eq!(mix.weight, 18480844586590168u128);
    assert_eq!(config.get_epoch(), 42);
}

#[test]
fn test_sample_path() {
    let config = load_from_lines("single_layout", &layout_lines(0, false), 10).unwrap();
    let mut rng = rand::rngs::SmallRng::from_entropy();
    let path = config.sample_path(&mut rng, None);
    assert_eq!(path.len(), 3);
}

#[test]
fn sampled_paths_follow_the_layers() {
    let config = load_from_lines("single_layout", &layout_lines(0, false), 1).unwrap();
    let mut rng = rand::rngs::SmallRng::from_entropy();
    for _ in 0..10000 {
        let path = config.sample_path(&mut rng, None);
        assert_eq!(path.len(), 3);
        assert_eq!(path[0].layer, 0);
        assert_eq!(path[1].layer, 1);
        assert_eq!(path[2].layer, 2);
    }
}

#[test]
fn a_supplied_guard_takes_the_guard_layer() {
    let config = load_from_lines("single_layout", &layout_lines(0, false), 1).unwrap();
    let mut rng = rand::rngs::SmallRng::from_entropy();
    let guards = config.sample_guards(GUARDS_LAYER, 1, &mut rng);
    let guard = guards[0];
    for _ in 0..100 {
        let path = config.sample_path(&mut rng, Some(&guard));
        assert_eq!(path.len(), 3);
        assert_eq!(path[GUARDS_LAYER].mixid, guard.mixid);
    }
}

#[test]
fn mailboxes_come_from_the_first_layer() {
    let config = load_from_lines("single_layout", &layout_lines(0, false), 5).unwrap();
    for user in 0..5u32 {
        let mb = config.get_mailbox(user).unwrap();
        assert!(mb.mixid < 50);
    }
    assert!(config.get_mailbox(5).is_none());
}

/// One topology where guard candidates all come down to a single mix, and
/// a second topology where that mix has moved to the unselected pool.
fn guard_switch_lines() -> (Vec<Vec<u8>>, Vec<Vec<u8>>) {
    let mut first: Vec<Vec<u8>> = Vec::new();
    first.push("mixid, bandwidth, malicious, epoch_0".as_bytes().to_vec());
    first.push("1, 5, False, 0".as_bytes().to_vec());
    first.push("2, 5, False, 1".as_bytes().to_vec());
    first.push("3, 5, False, 2".as_bytes().to_vec());
    let mut second: Vec<Vec<u8>> = Vec::new();
    second.push("mixid, bandwidth, malicious, epoch_1".as_bytes().to_vec());
    second.push("1, 5, False, 0".as_bytes().to_vec());
    second.push("4, 5, False, 1".as_bytes().to_vec());
    second.push("3, 5, False, 2".as_bytes().to_vec());
    second.push("2, 5, False, -1".as_bytes().to_vec());
    (first, second)
}

#[test]
fn guard_switches_when_it_goes_offline() {
    let (first, second) = guard_switch_lines();
    let t0 = load_from_lines("first", &first, 1).unwrap();
    let t1 = load_from_lines("second", &second, 1).unwrap();
    let topos = Arc::new(vec![t0, t1]);
    let mut rng = rand::rngs::SmallRng::from_entropy();
    let mut uinfo = UserModelInfo::new(0, topos, 100, true);
    // the only guard candidate in the first topology is mix 2
    let selected = uinfo.get_selected_guard().unwrap();
    assert_eq!(selected.mixid, 2);
    // mix 2 is unselected in the second topology: the guard must change
    uinfo.update(150, &mut rng);
    let after = uinfo.get_selected_guard().unwrap();
    assert_ne!(after.mixid, 2);
    assert_eq!(after.mixid, 4);
}

#[test]
fn update_is_idempotent_within_an_epoch() {
    let (first, second) = guard_switch_lines();
    let t0 = load_from_lines("first", &first, 1).unwrap();
    let t1 = load_from_lines("second", &second, 1).unwrap();
    let topos = Arc::new(vec![t0, t1]);
    let mut rng = rand::rngs::SmallRng::from_entropy();
    let mut uinfo = UserModelInfo::new(0, topos, 100, true);
    let before = uinfo.get_selected_guard().unwrap();
    // timestamps within the current epoch change nothing
    uinfo.update(0, &mut rng);
    uinfo.update(99, &mut rng);
    let after = uinfo.get_selected_guard().unwrap();
    assert_eq!(before.mixid, after.mixid);
}

#[test]
fn header_without_epoch_field_names_epoch_zero() {
    let mut lines: Vec<Vec<u8>> = Vec::new();
    lines.push("mixid, bandwidth, malicious".as_bytes().to_vec());
    lines.push("1, 5, False, 0".as_bytes().to_vec());
    lines.push("2, 5, False, 1".as_bytes().to_vec());
    lines.push("3, 5, False, 2".as_bytes().to_vec());
    let t = load_from_lines("plain", &lines, 1).unwrap();
    assert_eq!(t.get_epoch(), 0);
}

#[test]
fn load_refuses_bad_topologies() {
    // an unparseable mix line
    let mut lines: Vec<Vec<u8>> = Vec::new();
    lines.push("mixid, bandwidth, malicious, epoch_0".as_bytes().to_vec());
    lines.push("not a mix line".as_bytes().to_vec());
    assert!(load_from_lines("bad", &lines, 1).is_err());
    // an empty layer cannot feed the sampler
    let mut lines2: Vec<Vec<u8>> = Vec::new();
    lines2.push("mixid, bandwidth, malicious, epoch_0".as_bytes().to_vec());
    lines2.push("1, 5, False, 0".as_bytes().to_vec());
    lines2.push("2, 5, False, 2".as_bytes().to_vec());
    assert!(load_from_lines("bad2", &lines2, 1).is_err());
    // no lines at all
    assert!(load_from_lines("empty", &Vec::new(), 1).is_err());
}

#[test]
fn a_mailbox_is_drawn_from_the_given_layers() {
    let layer: Vec<Mixnode> = vec![
        Mixnode { layer: 0, weight: 1, mixid: 7, is_malicious: false },
        Mixnode { layer: 0, weight: 1, mixid: 8, is_malicious: true },
    ];
    let layers = vec![layer];
    for _ in 0..50 {
        let mb = MailBox::new(&layers);
        assert!(mb.mixid == 7 || mb.mixid == 8);
        assert_eq!(mb.is_malicious, mb.mixid == 8);
    }
}
