use str_distance::Metric;
use str_distance::Partial;
use str_distance::RatcliffObershelp;
use str_distance::Ratio;
use str_distance::TokenSet;
use str_distance::TokenSort;

fn r2f(r: Ratio) -> f64 {
    r.num as f64 / r.den as f64
}

#[test]
fn token_set_ratcliff() {
    let s1 = "Real Madrid vs FC Barcelona";
    let s2 = "Barcelona vs Real Madrid";
    assert_eq!(r2f(TokenSet::new(RatcliffObershelp).str_distance(s1, s2)), 0.0);

    let s2 = "Barcelona vs Rel Madrid";
    assert_eq!(
        format!("{:.6}", r2f(TokenSet::new(RatcliffObershelp).str_distance(s1, s2))),
        "0.080000"
    );
}

#[test]
fn token_set_no_shared_words() {
    // without a word-level intersection the inner metric sees the raw inputs
    let a = "aaa bbb";
    let b = "ccc ddd";
    assert_eq!(
        TokenSet::new(RatcliffObershelp).str_distance(a, b),
        RatcliffObershelp.str_distance(a, b)
    );
}

#[test]
fn token_sort_reorders_words() {
    assert_eq!(
        r2f(TokenSort::new(RatcliffObershelp).str_distance("great is rust", "rust is great")),
        0.0
    );
    assert_eq!(
        TokenSort::new(RatcliffObershelp).str_distance("hello world", "world olleh"),
        RatcliffObershelp.str_distance("hello world", "olleh world")
    );
}

#[test]
fn partial_window_minimum() {
    // the shorter input is slid over the longer one; "bc" fits "abcd" exactly
    assert_eq!(r2f(Partial::new(RatcliffObershelp).str_distance("bc", "abcd")), 0.0);
    // equal lengths delegate directly
    assert_eq!(
        Partial::new(RatcliffObershelp).str_distance("abc", "abd"),
        RatcliffObershelp.str_distance("abc", "abd")
    );
    // an empty input against a non-empty one is maximally distant
    assert_eq!(r2f(Partial::new(RatcliffObershelp).str_distance("", "abcd")), 1.0);
}

#[test]
fn token_set_repetition_tolerance() {
    // repeated words collapse before comparison
    assert_eq!(
        r2f(TokenSet::new(RatcliffObershelp).str_distance("aa bb aa", "bb aa")),
        0.0
    );
}
