//! Histogram construction from JSON data and sampling.

use rand::SeedableRng;
use routesim::histogram::Histogram;

fn get_histo() -> Result<Histogram, routesim::MixError> {
    let jdata = r#"
    {
        "nbr_sampling": 10,
        "data": [
            1,
            1,
            1,
            3,
            3,
            3,
            4,
            4,
            14,
            14
        ]
    }"#;
    let histogram = Histogram::from_json(jdata, 5)?;
    Ok(histogram)
}

#[test]
fn test_from_json() {
    let histogram = get_histo();
    assert!(histogram.is_ok(), "The histogram wasn't loaded properly");
    assert_eq!(histogram.unwrap().timestamps(), &vec![0, 5, 15]);
}

#[test]
fn test_sampling() {
    let histogram = get_histo().unwrap();
    let mut rng = rand::rngs::SmallRng::from_entropy();
    for _ in 0..100 {
        let sample1 = histogram.sample(&mut rng);
        assert!(sample1 <= 15, "{} is larger than 15", sample1);
    }
}

#[test]
fn histogram_bins_and_weights() {
    let h = get_histo().unwrap();
    assert_eq!(h.timestamps(), &vec![0, 5, 15]);
    assert_eq!(h.weights(), &vec![6, 2, 2]);
    assert_eq!(h.get_period(), 13);
    assert_eq!(h.get_nbr_sampling(), 10);
}

#[test]
fn histogram_samples_are_bin_values() {
    let h = get_histo().unwrap();
    let mut rng = rand::rngs::SmallRng::from_entropy();
    for _ in 0..200 {
        let s = h.sample(&mut rng);
        assert!(s == 0 || s == 5 || s == 15);
    }
}

#[test]
fn histogram_rejects_bad_inputs() {
    // not the expected JSON shape
    assert!(Histogram::from_json("not json at all", 5).is_err());
    assert!(Histogram::from_json(r#"{"data": [1, 2]}"#, 5).is_err());
    // fewer than two data points
    assert!(Histogram::from_json(r#"{"nbr_sampling": 1, "data": [7]}"#, 5).is_err());
    assert!(Histogram::from_json(r#"{"nbr_sampling": 1, "data": []}"#, 5).is_err());
    // a zero bin size
    assert!(Histogram::from_json(r#"{"nbr_sampling": 1, "data": [1, 2]}"#, 0).is_err());
}
