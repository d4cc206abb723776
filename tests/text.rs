use docx_swap::text::apply;

fn pairs(list: &[(&str, &str)]) -> Vec<(String, String)> {
    list.iter().map(|(a, b)| (a.to_string(), b.to_string())).collect()
}

#[test]
fn cascade_first_pass() {
    assert_eq!(apply("abab", &pairs(&[("a", "x")]), false), "xbxb");
}

#[test]
fn cascade_is_applied_pass_by_pass() {
    assert_eq!(apply("abab", &pairs(&[("a", "x"), ("x", "y")]), false), "ybyb");
}

#[test]
fn reverse_direction_maps_back() {
    assert_eq!(apply("dog", &pairs(&[("cat", "dog")]), true), "cat");
}

#[test]
fn forward_direction_maps_find_to_replace() {
    assert_eq!(apply("a cat sat", &pairs(&[("cat", "dog")]), false), "a dog sat");
}

#[test]
fn no_pairs_leaves_text() {
    assert_eq!(apply("unchanged", &Vec::new(), false), "unchanged");
}

#[test]
fn non_overlapping_from_the_left() {
    assert_eq!(apply("aaaaa", &pairs(&[("aa", "b")]), false), "bba");
}

#[test]
fn matches_are_case_sensitive() {
    assert_eq!(apply("Cat cat", &pairs(&[("cat", "dog")]), false), "Cat dog");
}

#[test]
fn multibyte_characters() {
    assert_eq!(apply("我爱北京", &pairs(&[("北京", "上海")]), false), "我爱上海");
    assert_eq!(apply("我爱上海", &pairs(&[("北京", "上海")]), true), "我爱北京");
}

#[test]
fn empty_pattern_matches_std() {
    assert_eq!(apply("abc", &pairs(&[("", "-")]), false), "abc".replace("", "-"));
    assert_eq!(apply("", &pairs(&[("", "-")]), false), "-");
}

#[test]
fn round_trip_single_pair() {
    let p = pairs(&[("colour", "kolour")]);
    let text = "the colour of colours";
    let there = apply(text, &p, false);
    assert_eq!(there, "the kolour of kolours");
    assert_eq!(apply(&there, &p, true), text);
}
