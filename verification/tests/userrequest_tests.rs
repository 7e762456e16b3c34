//! Requests: stable ids, the packet stream, and peer channels.

use routesim::channels::{channel_send, channel_try_recv, channel_unbounded};
use routesim::userasyncmodel::UserRequest;

#[test]
fn request_id_depends_only_on_the_triple() {
    let a = UserRequest::new(1200, 4096, (3, 7), 0);
    let b = UserRequest::new(1200, 4096, (3, 7), 5);
    // the topology index is not part of the id
    assert_eq!(a.get_requestid(), b.get_requestid());
    let c = UserRequest::new(1200, 4096, (3, 8), 0);
    assert_ne!(a.get_requestid(), c.get_requestid());
}

#[test]
fn request_id_is_a_digest_not_an_echo() {
    // were the id just an echoed field, this zero request would carry id 0
    let zero = UserRequest::new(0, 0, (0, 0), 0);
    assert_ne!(zero.get_requestid(), 0u128);
}

#[test]
fn packet_stream_counts_payloads() {
    // 4096 bytes: three packets (the boundary byte still yields one)
    let mut r = UserRequest::new(10, 4096, (0, 1), 0);
    assert_eq!(r.next(), Some(10));
    assert_eq!(r.next(), Some(10));
    assert_eq!(r.next(), Some(10));
    assert_eq!(r.next(), None);
    // a zero-byte request still sends one packet
    let mut z = UserRequest::new(99, 0, (0, 1), 0);
    assert_eq!(z.next(), Some(99));
    assert_eq!(z.next(), None);
}

#[test]
fn channels_carry_requests_across() {
    let (s, r) = channel_unbounded();
    let req = UserRequest::new(77, 123, (1, 2), 0);
    assert!(channel_send(&s, req).is_ok());
    let got = channel_try_recv(&r).unwrap();
    assert_eq!(got.get_requestid(), req.get_requestid());
    assert_eq!(got.get_request_time(), 77);
    assert_eq!(got.get_request_size(), 123);
    assert_eq!(got.get_peers(), (1, 2));
    assert!(channel_try_recv(&r).is_none());
}

#[test]
fn interval_draws_stay_in_range() {
    let mut rng = <rand::rngs::SmallRng as rand::SeedableRng>::from_entropy();
    for _ in 0..1000 {
        let v = routesim::rng::gen_range_u64(&mut rng, 300, 900);
        assert!(v >= 300 && v < 900);
    }
}
