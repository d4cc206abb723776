use docx_swap::dictionary::{check_insert, DictError, Dictionary, Replacement, Verdict};

fn finds(d: &Dictionary) -> Vec<String> {
    d.list().iter().map(|e| e.find.clone()).collect()
}

#[test]
fn length_counts_characters_not_bytes() {
    let mut d = Dictionary::new();
    assert_eq!(d.insert("北京".to_string(), "ab".to_string()), Ok(Verdict::Accepted));
    assert_eq!(d.insert("上海市".to_string(), "xy".to_string()), Err(DictError::LengthMismatch));
    for e in d.list() {
        assert_eq!(e.find.chars().count(), e.replace.chars().count());
    }
}

#[test]
fn length_mismatch_rejected() {
    let mut d = Dictionary::new();
    assert_eq!(d.insert("abc".to_string(), "ab".to_string()), Err(DictError::LengthMismatch));
    assert!(d.list().is_empty());
}

#[test]
fn contained_find_rejected() {
    let mut d = Dictionary::new();
    assert_eq!(d.insert("abc".to_string(), "xyz".to_string()), Ok(Verdict::Accepted));
    assert_eq!(d.insert("ab".to_string(), "uv".to_string()), Err(DictError::OverlapViolation));
    assert_eq!(finds(&d), vec!["abc".to_string()]);
}

#[test]
fn containing_find_rejected() {
    let mut d = Dictionary::new();
    assert_eq!(d.insert("ab".to_string(), "uv".to_string()), Ok(Verdict::Accepted));
    assert_eq!(d.insert("zabz".to_string(), "qrst".to_string()), Err(DictError::OverlapViolation));
}

#[test]
fn disjoint_find_accepted() {
    let mut d = Dictionary::new();
    assert_eq!(d.insert("ab".to_string(), "uv".to_string()), Ok(Verdict::Accepted));
    assert_eq!(d.insert("xyz".to_string(), "pqr".to_string()), Ok(Verdict::Accepted));
    assert_eq!(finds(&d), vec!["ab".to_string(), "xyz".to_string()]);
    let ids: Vec<i32> = d.list().iter().map(|e| e.id).collect();
    assert!(ids[0] < ids[1]);
}

#[test]
fn replace_overlap_is_a_notice() {
    let mut d = Dictionary::new();
    assert_eq!(d.insert("ab".to_string(), "uv".to_string()), Ok(Verdict::Accepted));
    assert_eq!(d.insert("cd".to_string(), "uv".to_string()), Ok(Verdict::ReplaceOverlap));
    assert_eq!(d.list().len(), 1);
}

#[test]
fn empty_pair_rejected() {
    let mut d = Dictionary::new();
    assert_eq!(d.insert(String::new(), String::new()), Err(DictError::EmptyEntry));
}

#[test]
fn find_equal_to_replace_allowed() {
    let mut d = Dictionary::new();
    assert_eq!(d.insert("same".to_string(), "same".to_string()), Ok(Verdict::Accepted));
}

#[test]
fn delete_missing_id_is_success() {
    let mut d = Dictionary::new();
    assert_eq!(d.insert("ab".to_string(), "uv".to_string()), Ok(Verdict::Accepted));
    d.delete(999);
    assert_eq!(d.list().len(), 1);
}

#[test]
fn delete_frees_the_find() {
    let mut d = Dictionary::new();
    assert_eq!(d.insert("abc".to_string(), "xyz".to_string()), Ok(Verdict::Accepted));
    let id = d.list()[0].id;
    assert_eq!(d.insert("ab".to_string(), "uv".to_string()), Err(DictError::OverlapViolation));
    d.delete(id);
    assert!(d.list().is_empty());
    assert_eq!(d.insert("ab".to_string(), "uv".to_string()), Ok(Verdict::Accepted));
}

#[test]
fn check_against_loaded_rows() {
    let rows = vec![Replacement { id: 4, find: "abc".to_string(), replace: "def".to_string() }];
    assert_eq!(check_insert(&rows, "ab", "xy"), Err(DictError::OverlapViolation));
    assert_eq!(check_insert(&rows, "xyz", "pqr"), Ok(Verdict::Accepted));
    assert_eq!(check_insert(&rows, "xyz", "efg"), Ok(Verdict::Accepted));
    assert_eq!(check_insert(&rows, "wxyz", "zdef"), Ok(Verdict::ReplaceOverlap));
}

#[test]
fn replace_text_uses_store_order() {
    let mut d = Dictionary::new();
    assert_eq!(d.insert("a".to_string(), "x".to_string()), Ok(Verdict::Accepted));
    assert_eq!(d.insert("x".to_string(), "y".to_string()), Ok(Verdict::Accepted));
    assert_eq!(d.insert("b".to_string(), "z".to_string()), Ok(Verdict::Accepted));
    assert_eq!(d.replace_text("abab", false), "yzyz");
    assert_eq!(d.replace_text("yzyz", true), "xbxb");
    let p = d.pairs();
    assert_eq!(
        p,
        vec![
            ("a".to_string(), "x".to_string()),
            ("x".to_string(), "y".to_string()),
            ("b".to_string(), "z".to_string()),
        ]
    );
}
