//! Date formatting, path compromise, and the driver passes.

use rand::SeedableRng;
use routesim::config::load_from_lines;
use routesim::mailbox::MailBox;
use routesim::routesim::Runable;
use routesim::simplemodel::SimpleSynchronousModel;
use routesim::userasyncmodel::SimpleEmailModel;
use routesim::usermodel::{AnonModelKind, UserModel};

#[test]
fn test_date_formatting() {
    let mut timing = 60 * 11;
    let mut strdate = Runable::format_message_timing(timing);
    assert_eq!(strdate, "1970-01-01 00:11:00");
    timing = timing + 1;
    strdate = Runable::format_message_timing(timing);
    assert_eq!(strdate, "1970-01-01 00:11:01");
    timing = timing + 25 * 60 * 60;
    strdate = Runable::format_message_timing(timing);
    assert_eq!(strdate, "1970-01-02 01:11:01");
}

fn layout_lines(epoch: u32, malicious_all: bool) -> Vec<Vec<u8>> {
    let flag = if malicious_all { "True" } else { "False" };
    let mut lines: Vec<Vec<u8>> = Vec::new();
    lines.push(format!("mixid, bandwidth, malicious, epoch_{}", epoch).into_bytes());
    for id in 0..10u32 {
        lines.push(format!("{}, 10, {}, 0", id, flag).into_bytes());
    }
    for id in 10..20u32 {
        lines.push(format!("{}, 10, {}, 1", id, flag).into_bytes());
    }
    for id in 20..30u32 {
        lines.push(format!("{}, 10, {}, 2", id, flag).into_bytes());
    }
    lines
}

#[test]
fn malicious_path_needs_every_hop() {
    let config = load_from_lines("all_bad", &layout_lines(0, true), 2).unwrap();
    let good_config = load_from_lines("all_good", &layout_lines(0, false), 2).unwrap();
    let runner = Runable::new(2, vec![config], 1, 86401, 1);
    let mut rng = rand::rngs::SmallRng::from_entropy();
    let bad_path = {
        let r = Runable::new(2, vec![load_from_lines("b", &layout_lines(0, true), 2).unwrap()], 1, 86401, 1);
        r.sample_path(0, &mut rng, None)
    };
    let good_path = {
        let r = Runable::new(2, vec![good_config], 1, 86401, 1);
        r.sample_path(0, &mut rng, None)
    };
    // all three hops malicious, no mailbox: compromised
    assert!(runner.is_path_malicious(&bad_path, None));
    // a clean path is never compromised
    assert!(!runner.is_path_malicious(&good_path, None));
    // the mailbox hop counts too
    let bad_mb = MailBox { mixid: 1, is_malicious: true };
    let good_mb = MailBox { mixid: 1, is_malicious: false };
    assert!(runner.is_path_malicious(&bad_path, Some(&bad_mb)));
    assert!(!runner.is_path_malicious(&bad_path, Some(&good_mb)));
    assert!(!runner.is_path_malicious(&good_path, Some(&bad_mb)));
}

#[test]
fn synchronous_pass_emits_interval_timings() {
    let config = load_from_lines("plain", &layout_lines(0, false), 3).unwrap();
    let mut runner = Runable::new(3, vec![config], 1, 86401, 1);
    runner.with_guards();
    let mut models: Vec<SimpleSynchronousModel> = runner.init_sync();
    assert_eq!(models.len(), 3);
    let mut rng = rand::rngs::SmallRng::from_entropy();
    let records = runner.run_user_pass1(&mut models[0], &mut rng);
    assert!(records.len() > 0);
    // messages are spaced by 300 to 900 seconds below one day
    let mut last = 0u64;
    for r in &records {
        assert!(r.timestamp > last);
        assert!(r.timestamp - last >= 300 && r.timestamp - last < 900);
        assert!(r.timestamp < 86400);
        assert_eq!(r.path.len(), 3);
        assert_eq!(r.userid, 0);
        last = r.timestamp;
    }
    assert_eq!(models[0].model_kind(), AnonModelKind::ClientOnly);
}

fn build_timestamp_hist() -> routesim::histogram::Histogram {
    let jdata = r#"
    {
        "nbr_sampling": 10,
        "data": [
            1,
            1,
            1,
            3,
            3,
            3,
            4,
            4,
            14,
            14,
            3200,
            3201,
            4000
        ]
    }"#;
    routesim::histogram::Histogram::from_json(jdata, 5).unwrap()
}

fn build_size_hist() -> routesim::histogram::Histogram {
    let jdata = r#"
    {
        "nbr_sampling": 0,
        "bin_size": 200,
        "data": [
            30,
            42,
            150,
            800,
            810,
            830,
            4400,
            4450,
            7200
        ]
    }"#;
    routesim::histogram::Histogram::from_json(jdata, 5).unwrap()
}

#[test]
fn test_simple_email() {
    let max = 4000;
    let config = load_from_lines("single_layout", &layout_lines(0, false), 10).unwrap();
    let t_sampler = build_timestamp_hist();
    let s_sampler = build_size_hist();
    let mut topologies = vec![];
    topologies.push(config.clone());
    topologies.push(config);
    let mut runner = Runable::new(10, topologies, 1, 43200, 3);
    let limit = runner.days_to_timestamp() - 1;
    assert_eq!(limit, 86400 - 1);
    runner.with_timestamps_hist(t_sampler);
    runner.with_sizes_hist(s_sampler);
    let mut usermodels: Vec<SimpleEmailModel> = runner.init();

    let usermodel = usermodels.get_mut(0).unwrap();
    usermodel.set_limit(limit);
    let contacts: Vec<u32> = usermodel.get_contacts().unwrap().iter().map(|c| *c).collect();
    assert_eq!(contacts.len(), 3);
    assert!(!contacts.contains(&0u32));
    if let Some((message_timing, _guard, _mailbox, _requestid)) = usermodel.next() {
        assert!(message_timing <= max);
    } else {
        panic!("We should have messages!");
    }

    let mut last_timing: u64 = 0;
    while let Some((message_timing, _guard, _mailbox, _requestid)) = usermodel.next() {
        assert!(message_timing >= last_timing);
        last_timing = message_timing;
    }
    assert!(last_timing >= 80000);
}

#[test]
fn email_passes_produce_and_receive_records() {
    let config = load_from_lines("single_layout", &layout_lines(0, false), 4).unwrap();
    let t_sampler = build_timestamp_hist();
    let s_sampler = build_size_hist();
    let mut runner = Runable::new(4, vec![config.clone(), config], 1, 43200, 2);
    runner.with_timestamps_hist(t_sampler);
    runner.with_sizes_hist(s_sampler);
    runner.with_guards();
    let mut usermodels: Vec<SimpleEmailModel> = runner.init();
    let mut rng = rand::rngs::SmallRng::from_entropy();
    let mut total_sent = 0;
    for m in usermodels.iter_mut() {
        let records = runner.run_user_pass1(m, &mut rng);
        for r in &records {
            assert_eq!(r.path.len(), 3);
            assert!(r.requestid.is_some());
            assert!(r.mailbox.is_some());
            assert!(r.timestamp < 86400);
        }
        total_sent += records.len();
    }
    assert!(total_sent > 0);
    // after pass one every sender is dropped, so pass two drains and ends
    let mut total_received = 0;
    for m in usermodels.iter_mut() {
        let records = runner.run_user_pass2(m, &mut rng);
        for r in &records {
            assert_eq!(r.path.len(), 3);
            assert!(r.requestid.is_some());
        }
        total_received += records.len();
    }
    assert!(total_received > 0);
}

#[test]
fn loopix_model_yields_request_packets_without_mailboxes() {
    let config = load_from_lines("single_layout", &layout_lines(0, false), 4).unwrap();
    let t_sampler = build_timestamp_hist();
    let s_sampler = build_size_hist();
    let mut runner = Runable::new(4, vec![config.clone(), config], 1, 43200, 2);
    runner.with_timestamps_hist(t_sampler);
    runner.with_sizes_hist(s_sampler);
    runner.with_guards();
    let mut usermodels: Vec<routesim::loopixemailmodel::LoopixEmailModel> = runner.init();
    let m = usermodels.get_mut(0).unwrap();
    assert_eq!(m.model_kind(), AnonModelKind::ClientOnly);
    m.set_limit(86399);
    let mut seen = 0;
    let mut last = 0u64;
    while let Some((timing, _guard, mailbox, requestid)) = m.next() {
        assert!(timing < 86399);
        assert!(timing >= last);
        assert!(mailbox.is_none());
        assert!(requestid.is_some());
        last = timing;
        seen += 1;
    }
    assert!(seen > 0);
}

#[test]
fn records_render_as_output_lines() {
    let date = Runable::format_message_timing(660);
    let mix = |id: u32| routesim::mixnode::Mixnode { layer: 0, weight: 1, mixid: id, is_malicious: false };
    let r = routesim::routesim::SimRecord {
        timestamp: 660,
        date: date.clone(),
        userid: 3,
        requestid: Some(42),
        path: vec![mix(1), mix(2), mix(3)],
        mailbox: Some(MailBox { mixid: 7, is_malicious: false }),
        is_malicious: true,
    };
    let mut count = 0u32;
    let line = routesim::render::format_record(&r, true, &mut count);
    assert_eq!(line, "1970-01-01 00:11:00 3 42 1,2,3,7 true;");
    assert_eq!(count, 0);
    // batched output: the ten-thousandth record ends its line
    let mut count = 9999u32;
    let line = routesim::render::format_record(&r, false, &mut count);
    assert_eq!(line, "1970-01-01 00:11:00 3 42 1,2,3,7 true\n");
    assert_eq!(count, 0);
    // no request id, no mailbox
    let plain = routesim::routesim::SimRecord {
        timestamp: 660,
        date,
        userid: 3,
        requestid: None,
        path: vec![mix(1), mix(2), mix(3)],
        mailbox: None,
        is_malicious: false,
    };
    let mut count = 0u32;
    let line = routesim::render::format_record(&plain, false, &mut count);
    assert_eq!(line, "1970-01-01 00:11:00 3 1,2,3, false;");
    assert_eq!(count, 1);
}
