use str_distance::qgram::eq_map;
use str_distance::Cosine;
use str_distance::CosineScore;
use str_distance::Jaccard;
use str_distance::Metric;
use str_distance::Overlap;
use str_distance::QGram;
use str_distance::QGramIter;
use str_distance::Ratio;
use str_distance::SorensenDice;

fn r2f(r: Ratio) -> f64 {
    r.num as f64 / r.den as f64
}

fn cos_f(s: CosineScore) -> f64 {
    1.0 - s.dot as f64 / ((s.norm_a_sq as f64).sqrt() * (s.norm_b_sq as f64).sqrt())
}

#[test]
fn qgram_distance() {
    assert_eq!(QGram::new(2).str_distance("abc", "abc"), 0);
    assert_eq!(QGram::new(1).str_distance("abc", "cba"), 0);
    assert_eq!(QGram::new(1).str_distance("abc", "ccc"), 4);
    assert_eq!(QGram::new(4).str_distance("aü☃", "aüaüafs"), 4);
    assert_eq!(QGram::new(4).str_distance("abcdefg", "defgabc"), 6);
}

#[test]
fn cosine_distance() {
    assert_eq!(cos_f(Cosine::new(1).str_distance("", "")), 0.);
    assert_eq!(cos_f(Cosine::new(2).str_distance("abc", "ccc")), 1.);
    assert_eq!(
        format!("{:.6}", cos_f(Cosine::new(2).str_distance("leia", "leela"))),
        "0.711325"
    );
    assert_eq!(
        format!("{:.6}", cos_f(Cosine::new(2).str_distance("achieve", "acheive"))),
        "0.500000"
    );
    assert_eq!(cos_f(Cosine::new(3).str_distance("achieve", "acheive")), 0.8);
}

#[test]
fn jaccard_distance() {
    assert_eq!(r2f(Jaccard::new(1).str_distance("", "")), 0.);
    assert_eq!(r2f(Jaccard::new(1).str_distance("", "x")), 1.);
    assert_eq!(r2f(Jaccard::new(3).str_distance("abc", "abc")), 0.);
    assert_eq!(
        format!("{:.6}", r2f(Jaccard::new(1).str_distance("abc", "ccc"))),
        "0.666667"
    );
}

#[test]
fn sorensen_dice_distance() {
    assert_eq!(r2f(SorensenDice::new(1).str_distance("", "")), 0.);
    assert_eq!(r2f(SorensenDice::new(3).str_distance("", "abc")), 1.);
    assert_eq!(r2f(SorensenDice::new(3).str_distance("abc", "abc")), 0.);
    assert_eq!(r2f(SorensenDice::new(3).str_distance("abc", "xxx")), 1.);
    assert_eq!(r2f(SorensenDice::new(2).str_distance("monday", "montag")), 0.6);
    assert_eq!(r2f(SorensenDice::new(2).str_distance("nacht", "night")), 0.75);
}

#[test]
fn overlap_distance() {
    assert_eq!(r2f(SorensenDice::new(1).str_distance("", "")), 0.);
    assert_eq!(r2f(SorensenDice::new(1).str_distance("", "abc")), 1.);
    assert_eq!(r2f(SorensenDice::new(3).str_distance("abc", "abc")), 0.);
    assert_eq!(r2f(SorensenDice::new(3).str_distance("abc", "xxx")), 1.);
    assert_eq!(
        format!("{:.6}", r2f(SorensenDice::new(1).str_distance("monday", "montag"))),
        "0.333333"
    );
    assert_eq!(r2f(SorensenDice::new(1).str_distance("nacht", "night")), 0.4);
}

#[test]
fn qgram_iter() {
    let s: Vec<_> = "hello".chars().collect();
    let mut iter = QGramIter::new(&s, 2);
    assert_eq!(iter.next(), Some(vec!['h', 'e']));
    assert_eq!(iter.next(), Some(vec!['e', 'l']));
    assert_eq!(iter.next(), Some(vec!['l', 'l']));
    assert_eq!(iter.next(), Some(vec!['l', 'o']));
    assert_eq!(iter.next(), None);
    assert_eq!(iter.next(), None);

    let s: Vec<_> = "abc".chars().collect();
    let mut iter = QGramIter::new(&s, 2);
    assert_eq!(iter.next(), Some(vec!['a', 'b']));
    assert_eq!(iter.next(), Some(vec!['b', 'c']));
    assert_eq!(iter.next(), None);
}

#[test]
fn empty_qgram() {
    let s: Vec<_> = "".chars().collect();
    let mut iter = QGramIter::new(&s, 1);
    assert_eq!(iter.next(), None);
}

#[test]
fn single_qgram() {
    let s: Vec<_> = "hel".chars().collect();
    let mut iter = QGramIter::new(&s, 3);
    assert_eq!(iter.next(), Some(vec!['h', 'e', 'l']));
    assert_eq!(iter.next(), None);
}

#[test]
fn exceeding_qgram() {
    let s: Vec<_> = "hel".chars().collect();
    let mut iter = QGramIter::new(&s, 4);
    assert_eq!(iter.next(), None);
}

#[test]
fn size_hint() {
    let s: Vec<_> = "hel".chars().collect();
    let iter = QGramIter::new(&s, 4);
    assert_eq!(iter.size_hint(), (0, Some(0)));

    let s: Vec<_> = "hello".chars().collect();
    let iter = QGramIter::new(&s, 2);
    assert_eq!(iter.size_hint(), (4, Some(4)));
    assert_eq!(iter.count(), 4);

    let s: Vec<_> = "hello".chars().collect();
    let iter = QGramIter::new(&s, 3);
    assert_eq!(iter.size_hint(), (3, Some(3)));
    assert_eq!(iter.count(), 3);

    let s: Vec<_> = "hello00000".chars().collect();
    let mut iter = QGramIter::new(&s, 5);
    assert_eq!(iter.size_hint(), (6, Some(6)));
    iter.next();
    assert_eq!(iter.size_hint(), (5, Some(5)));

    let s: Vec<_> = "hello00000".chars().collect();
    let mut iter = QGramIter::new(&s, 1);
    assert_eq!(iter.size_hint(), (10, Some(10)));
    iter.nth(8);
    assert_eq!(iter.size_hint(), (1, Some(1)));
    iter.next();
    assert_eq!(iter.size_hint(), (0, Some(0)));
}

#[test]
fn count_eq() {
    let s1: Vec<_> = "abc".chars().collect();
    let s2: Vec<_> = "abc".chars().collect();
    let q1 = QGramIter::new(&s1, 2);
    let q2 = QGramIter::new(&s2, 2);

    assert_eq!(eq_map(q1, q2), vec![(1, 1), (1, 1)]);

    let s1: Vec<_> = "abc".chars().collect();
    let s2: Vec<_> = "abcdef".chars().collect();
    let q1 = QGramIter::new(&s1, 2);
    let q2 = QGramIter::new(&s2, 2);

    assert_eq!(eq_map(q1, q2), vec![(1, 1), (1, 1), (0, 1), (0, 1), (0, 1)]);
}

#[test]
fn count_distinct_intersect_counts() {
    let s1: Vec<_> = "nacht".chars().collect();
    let s2: Vec<_> = "night".chars().collect();
    let q1 = QGramIter::new(&s1, 1);
    let q2 = QGramIter::new(&s2, 1);
    assert_eq!(str_distance::qgram::count_distinct_intersect(q1, q2), (5, 5, 3));
}

#[test]
fn qgram_symmetry_example() {
    assert_eq!(
        QGram::new(2).str_distance("nacht", "night"),
        QGram::new(2).str_distance("night", "nacht")
    );
    assert_eq!(
        Jaccard::new(2).str_distance("nacht", "night"),
        Jaccard::new(2).str_distance("night", "nacht")
    );
    let c1 = Cosine::new(2).str_distance("leia", "leela");
    let c2 = Cosine::new(2).str_distance("leela", "leia");
    assert_eq!(c1.dot, c2.dot);
    assert_eq!(c1.norm_a_sq, c2.norm_b_sq);
    assert_eq!(c1.norm_b_sq, c2.norm_a_sq);
}

#[test]
fn qgram_reflexivity_example() {
    assert_eq!(QGram::new(2).str_distance("nacht", "nacht"), 0);
    assert_eq!(r2f(Jaccard::new(2).str_distance("nacht", "nacht")), 0.0);
    assert_eq!(r2f(Overlap::new(2).str_distance("nacht", "nacht")), 0.0);
    assert_eq!(cos_f(Cosine::new(2).str_distance("nacht", "nacht")), 0.0);
}

#[test]
fn qgram_normalized_values() {
    // inputs shorter than the fragment length fall back to direct equality
    assert_eq!(r2f(QGram::new(4).str_normalized("abc", "abc")), 0.0);
    assert_eq!(r2f(QGram::new(4).str_normalized("abc", "abd")), 1.0);
    // raw distance 4 over denominator 3 + 3 - 2 + 2 = 6
    let v1: Vec<char> = "abc".chars().collect();
    let v2: Vec<char> = "ccc".chars().collect();
    let r = QGram::new(1).normalized(&v1, &v2);
    assert_eq!((r.num, r.den), (4, 6));
    let n = Jaccard::new(1).normalized(&v1, &v2);
    assert!((0.0..=1.0).contains(&r2f(n)));
}

#[test]
fn overlap_default_fragment_length() {
    assert_eq!(Overlap::default().q, 1);
    assert_eq!(SorensenDice::default().q, 2);
    assert_eq!(
        format!("{:.6}", r2f(Overlap::new(1).str_distance("monday", "montag"))),
        "0.333333"
    );
    assert_eq!(r2f(Overlap::new(1).str_distance("nacht", "night")), 0.4);
}
