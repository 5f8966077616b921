use str_distance::Jaro;
use str_distance::JaroWinkler;
use str_distance::Metric;
use str_distance::Ratio;
use str_distance::Winkler;
use str_distance::WinklerConfig;

fn r2f(r: Ratio) -> f64 {
    r.num as f64 / r.den as f64
}

#[test]
fn jaro() {
    assert_eq!(r2f(Jaro.str_distance("", "")), 0.0);
    assert_eq!(r2f(Jaro.str_distance("foo", "foo")), 0.0);
    assert_eq!(format!("{:.6}", r2f(Jaro.str_distance("foo", "foo "))), "0.083333");
    assert_eq!(
        format!(
            "{:.6}",
            r2f(Jaro.str_distance("D N H Enterprises Inc", "D &amp; H Enterprises, Inc."))
        ),
        "0.177293"
    );
    assert_eq!(format!("{:.6}", r2f(Jaro.str_distance("elephant", "hippo"))), "0.558333");
}

#[test]
fn winkler() {
    assert_eq!(
        format!("{:.6}", r2f(JaroWinkler::default().str_distance("martha", "marhta"))),
        "0.038889"
    );
}

#[test]
fn winkler_custom_config() {
    let config = WinklerConfig::new(Ratio::new(1, 4), Ratio::new(7, 10), 4);
    let metric = Winkler::with_config(Jaro, config);
    // the inner Jaro distance 1/18 is boosted by the 3-element prefix:
    // (1/18) * (4 - 3) / 4 = 1/72
    assert_eq!(
        format!("{:.6}", r2f(metric.str_distance("martha", "marhta"))),
        "0.013889"
    );
}

#[test]
fn winkler_no_boost_above_threshold() {
    // distant strings are left unchanged by the boost
    let plain = Jaro.str_distance("elephant", "hippo");
    let boosted = JaroWinkler::default().str_distance("elephant", "hippo");
    assert_eq!(plain, boosted);
}

#[test]
fn jaro_reflexivity_example() {
    assert_eq!(r2f(Jaro.str_distance("martha", "martha")), 0.0);
    let v: Vec<char> = "martha".chars().collect();
    let r = Jaro.distance(&v, &v);
    assert_eq!(r.num, 0);
}

#[test]
fn jaro_symmetry_example() {
    assert_eq!(
        Jaro.str_distance("elephant", "hippo"),
        Jaro.str_distance("hippo", "elephant")
    );
    assert_eq!(
        Jaro.str_distance("martha", "marhta"),
        Jaro.str_distance("marhta", "martha")
    );
}

#[test]
fn jaro_one_empty_input() {
    assert_eq!(r2f(Jaro.str_distance("", "abc")), 1.0);
    assert_eq!(r2f(Jaro.str_distance("a", "b")), 1.0);
    assert_eq!(r2f(Jaro.str_distance("a", "a")), 0.0);
}

#[test]
fn jaro_no_matches() {
    assert_eq!(r2f(Jaro.str_distance("abcd", "wxyz")), 1.0);
}
