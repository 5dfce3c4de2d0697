use takus::name::name_less;

fn less(a: &str, b: &str) -> bool {
    name_less(&a.to_string(), &b.to_string())
}

#[test]
fn names_compare_like_strings() {
    let cases = ["", "a", "ab", "abc", "b", "B", "é", "z", "zz", "a b"];
    for a in cases.iter() {
        for b in cases.iter() {
            assert_eq!(less(a, b), a < b, "{:?} < {:?}", a, b);
        }
    }
    assert!(less("build", "test"));
    assert!(!less("test", "test"));
    assert!(less("", "x"));
}
