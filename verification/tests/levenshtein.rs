use str_distance::DamerauLevenshtein;
use str_distance::DistanceValue;
use str_distance::Levenshtein;
use str_distance::Ratio;

fn r2f(r: Ratio) -> f64 {
    r.num as f64 / r.den as f64
}

#[test]
fn levenshtein_dist() {
    assert_eq!(Levenshtein::default().str_distance("kitten", "sitting").value(), 3);
    assert_eq!(Levenshtein::default().str_distance("", "").value(), 0);
    assert_eq!(Levenshtein::default().str_distance("sunday", "saturday").value(), 3);
    assert_eq!(Levenshtein::default().str_distance("abc", "").value(), 3);
    let s1 = "The quick brown fox jumped over the angry dog.";
    let s2 = "Lorem ipsum dolor sit amet, dicta latine an eam.";
    assert_eq!(Levenshtein::default().str_distance(s1, s2).value(), 37);
    assert_eq!(Levenshtein::with_max_distance(10).str_distance(s1, s2).value(), 10);
}

#[test]
fn levenshtein_normalized() {
    assert_eq!(
        format!("{:.6}", r2f(Levenshtein::default().str_normalized("kitten", "sitting"))),
        "0.428571"
    );
    assert_eq!(r2f(Levenshtein::default().str_normalized("", "")), 0.);
    assert_eq!(r2f(Levenshtein::default().str_normalized("", "second")), 1.);
    assert_eq!(r2f(Levenshtein::default().str_normalized("first", "")), 1.);
    assert_eq!(r2f(Levenshtein::default().str_normalized("string", "string")), 0.);
}

#[test]
fn damerau_levenshtein_dist() {
    assert_eq!(DamerauLevenshtein::default().str_distance("", "").value(), 0);
    assert_eq!(DamerauLevenshtein::default().str_distance("abc", "").value(), 3);
    assert_eq!(DamerauLevenshtein::default().str_distance("abc", "öঙ香").value(), 3);
    assert_eq!(DamerauLevenshtein::default().str_distance("damerau", "aderuaxyz").value(), 6);
    assert_eq!(DamerauLevenshtein::default().str_distance("jellyifhs", "jellyfish").value(), 2);
    assert_eq!(
        DamerauLevenshtein::default()
            .str_distance("cape sand recycling ", "edith ann graham")
            .value(),
        17
    );
    let s1 = "The quick brown fox jumped over the angry dog.";
    let s2 = "Lehem ipsum dolor sit amet, dicta latine an eam.";
    assert_eq!(DamerauLevenshtein::default().str_distance(s1, s2).value(), 36);
    assert_eq!(
        DamerauLevenshtein::with_max_distance(10).str_distance(s1, s2),
        DistanceValue::Exceeded(10)
    );
}

#[test]
fn damerau_levenshtein_normalized() {
    assert_eq!(r2f(DamerauLevenshtein::default().str_normalized("", "")), 0.);
    assert_eq!(r2f(DamerauLevenshtein::default().str_normalized("", "second")), 1.);
    assert_eq!(
        format!("{:.6}", r2f(DamerauLevenshtein::default().str_normalized("kitten", "sitting"))),
        "0.428571"
    );
}

#[test]
fn damerau_levenshtein_strsim() {
    let s1 = "He said he was not there yesterday; however, many people saw him there.
She had the gift of being able to paint songs.
Mrs Miller wants the entire house repainted.
Lucifer was surprised at the amount of life at Death Valley.
Three generations with six decades of life experience.";
    let s2 = "The small white buoys marked the location of hundreds of crab pots.
Everyone says they love nature until they realize how dangerous she can be.
The stranger officiates the meal.
He drank life before spitting it out.
Dan ate the clouds like cotton candy.";

    assert_eq!(
        DamerauLevenshtein::default().str_distance(s1, s2).value(),
        strsim::damerau_levenshtein(s1, s2)
    );
}

#[test]
fn levenshtein_exact_value() {
    assert_eq!(
        Levenshtein::default().str_distance("kitten", "sitting"),
        DistanceValue::Exact(3)
    );
    assert_eq!(
        Levenshtein::with_max_distance(1).str_distance("kitten", "sitting"),
        DistanceValue::Exceeded(1)
    );
}

#[test]
fn levenshtein_symmetry_example() {
    let d1 = Levenshtein::default().str_distance("sunday", "saturday");
    let d2 = Levenshtein::default().str_distance("saturday", "sunday");
    assert_eq!(d1, d2);
    let d3 = DamerauLevenshtein::default().str_distance("jellyifhs", "jellyfish");
    let d4 = DamerauLevenshtein::default().str_distance("jellyfish", "jellyifhs");
    assert_eq!(d3, d4);
}

#[test]
fn levenshtein_reflexivity_example() {
    assert_eq!(Levenshtein::default().str_distance("nacht", "nacht").value(), 0);
    assert_eq!(DamerauLevenshtein::default().str_distance("nacht", "nacht").value(), 0);
}

#[test]
fn levenshtein_triangle_example() {
    let ac = Levenshtein::default().str_distance("kitten", "written").value();
    let ab = Levenshtein::default().str_distance("kitten", "sitting").value();
    let bc = Levenshtein::default().str_distance("sitting", "written").value();
    assert!(ac <= ab + bc);
}

#[test]
fn bounded_monotonicity_example() {
    // exact distance is 3: every bound below it reports Exceeded
    assert_eq!(
        Levenshtein::with_max_distance(3).str_distance("kitten", "sitting"),
        DistanceValue::Exact(3)
    );
    assert_eq!(
        Levenshtein::with_max_distance(2).str_distance("kitten", "sitting"),
        DistanceValue::Exceeded(2)
    );
    assert_eq!(
        Levenshtein::with_max_distance(1).str_distance("kitten", "sitting"),
        DistanceValue::Exceeded(1)
    );
    assert_eq!(
        Levenshtein::with_max_distance(0).str_distance("kitten", "sitting"),
        DistanceValue::Exceeded(0)
    );
}

#[test]
fn damerau_transposition_restriction() {
    // the restricted form: "CA" to "ABC" is 3, not the full-Damerau 2
    assert_eq!(DamerauLevenshtein::default().str_distance("CA", "ABC").value(), 3);
}

#[test]
fn normalized_range_examples() {
    for (a, b) in [("", ""), ("a", ""), ("kitten", "sitting"), ("abc", "def")] {
        let r = Levenshtein::default().str_normalized(a, b);
        let f = r2f(r);
        assert!((0.0..=1.0).contains(&f));
        let r = DamerauLevenshtein::default().str_normalized(a, b);
        let f = r2f(r);
        assert!((0.0..=1.0).contains(&f));
    }
    assert_eq!(r2f(Levenshtein::default().str_normalized("abc", "def")), 1.0);
}
