use str_distance::utils::count_eq;
use str_distance::utils::DelimDistinct;

fn cv(s: &str) -> Vec<char> {
    s.chars().collect()
}

#[test]
fn delim_different() {
    let s1 = cv("kitten");
    let s2 = cv("sitting");

    let delim = DelimDistinct::delim_distinct(&s1, &s2);
    assert_eq!(delim.prefix_len, 0);
    assert_eq!(delim.suffix_len, 0);
    assert_eq!(delim.s1_len, 6);
    assert_eq!(delim.s2_len, 7);
}

#[test]
fn delim_eq() {
    let s1 = cv("kitten");
    let s2 = cv("kitten");

    let delim = DelimDistinct::delim_distinct(&s1, &s2);
    assert_eq!(delim.common(), 6);
    assert_eq!(delim.remaining(), (0, 0));
    assert!(delim.is_eq());
}

#[test]
fn delim_eq_suffix() {
    let s1 = cv("cute kitten");
    let s2 = cv("kitten");

    let delim = DelimDistinct::delim_distinct(&s1, &s2);
    assert_eq!(delim.common(), 6);
    assert_eq!(delim.remaining(), (5, 0));
    assert_eq!(delim.distinct_s1.iter().collect::<String>(), String::from("cute "));

    let s1 = cv("k cute kitten");
    let s2 = cv("kitten");
    let delim = DelimDistinct::delim_distinct(&s1, &s2);
    assert_eq!(delim.common(), 6);
    assert_eq!(delim.remaining(), (7, 0));
    assert_eq!(delim.distinct_s1.iter().collect::<String>(), String::from("k cute "));
}

#[test]
fn delim_eq_prefix() {
    let s1 = cv("hungry kitten");
    let s2 = cv("hungry hippo");

    let delim = DelimDistinct::delim_distinct(&s1, &s2);
    assert_eq!(delim.common(), 7);
    assert_eq!(delim.remaining(), (6, 5));
    assert_eq!(delim.distinct_s1.iter().collect::<String>(), String::from("kitten"));
    assert_eq!(delim.distinct_s2.iter().collect::<String>(), String::from("hippo"));
}

#[test]
fn delim_eq_prefix_suffix() {
    let s1 = cv("hungry kitten is hungry");
    let s2 = cv("hungry hippo is hungry");

    let delim = DelimDistinct::delim_distinct(&s1, &s2);
    assert_eq!(delim.common(), 17);
    assert_eq!(delim.remaining(), (6, 5));
    assert_eq!(delim.distinct_s1.iter().collect::<String>(), String::from("kitten"));
    assert_eq!(delim.distinct_s2.iter().collect::<String>(), String::from("hippo"));
}

#[test]
fn count_eq_prefixes() {
    assert_eq!(count_eq(&cv("hungry kitten"), &cv("hungry hippo")), 7);
    assert_eq!(count_eq(&cv("abc"), &cv("abc")), 3);
    assert_eq!(count_eq(&cv("abc"), &cv("xbc")), 0);
    assert_eq!(count_eq(&cv(""), &cv("abc")), 0);
}
