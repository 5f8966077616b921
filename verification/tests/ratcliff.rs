use str_distance::ratcliff::longest_common_subsequence;
use str_distance::ratcliff::match_sequences;
use str_distance::Metric;
use str_distance::RatcliffObershelp;
use str_distance::Ratio;

fn r2f(r: Ratio) -> f64 {
    r.num as f64 / r.den as f64
}

#[test]
fn common_subseq() {
    let s1: Vec<char> = "aaabc".chars().collect();
    let s2: Vec<char> = "axaxbcaaa".chars().collect();
    let subs = longest_common_subsequence(&s1, &s2);
    assert_eq!(subs.s1_idx, 0);
    assert_eq!(subs.s2_idx, 6);
    assert_eq!(subs.len, 3);
}

#[test]
fn empty_common_subseq() {
    let s1: Vec<char> = "".chars().collect();
    let s2: Vec<char> = "kitten".chars().collect();
    let subs = longest_common_subsequence(&s1, &s2);
    assert!(subs.is_empty());
}

#[test]
fn ratcliff_obershelp() {
    assert_eq!(r2f(RatcliffObershelp.str_distance("", "kitten")), 1.0);
    assert_eq!(
        format!("{:.6}", r2f(RatcliffObershelp.str_distance("alexandre", "aleksander"))),
        "0.263158"
    );
    assert_eq!(
        format!("{:.6}", r2f(RatcliffObershelp.str_distance("pennsylvania", "pencilvaneya"))),
        "0.333333"
    );
    assert_eq!(
        format!("{:.6}", r2f(RatcliffObershelp.str_distance("abandonned", "abandoned"))),
        "0.052632"
    );
    assert_eq!(
        format!(
            "{:.6}",
            r2f(RatcliffObershelp.str_distance("Result.unwrap()", "Result.unwarp()"))
        ),
        "0.066667"
    );
    assert_eq!(
        format!("{:.6}", r2f(RatcliffObershelp.str_distance("ahppen", "happen"))),
        "0.166667"
    );
}

#[test]
fn ratcliff_reflexivity_example() {
    assert_eq!(r2f(RatcliffObershelp.str_distance("kitten", "kitten")), 0.0);
    assert_eq!(r2f(RatcliffObershelp.str_distance("", "")), 0.0);
}

#[test]
fn ratcliff_symmetry_example() {
    assert_eq!(
        RatcliffObershelp.str_distance("alexandre", "aleksander"),
        RatcliffObershelp.str_distance("aleksander", "alexandre")
    );
}

#[test]
fn matched_count() {
    let s1: Vec<char> = "abandonned".chars().collect();
    let s2: Vec<char> = "abandoned".chars().collect();
    assert_eq!(match_sequences(&s1, &s2), 9);
    let s3: Vec<char> = "kitten".chars().collect();
    assert_eq!(match_sequences(&s3, &s3), 6);
}
