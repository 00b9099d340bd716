use grimorio::key_order::{compare_keys, KeyOrder};

#[test]
fn names_compare_like_str() {
    assert_eq!(compare_keys("a", "b"), KeyOrder::Before);
    assert_eq!(compare_keys("b", "a"), KeyOrder::After);
    assert_eq!(compare_keys("db", "db"), KeyOrder::Same);
    assert_eq!(compare_keys("", ""), KeyOrder::Same);
    assert_eq!(compare_keys("", "a"), KeyOrder::Before);
    assert_eq!(compare_keys("ab", "a"), KeyOrder::After);
    assert_eq!(compare_keys("Z", "a"), KeyOrder::Before);
    assert_eq!(compare_keys("é", "z"), KeyOrder::After);
    assert_eq!(compare_keys("api", "db"), KeyOrder::Before);
}

#[test]
fn compare_agrees_with_std_order() {
    let names = ["", "a", "ab", "b", "B", "é", "ü", "z", "zz", "日本", "api", "db"];
    for x in names.iter() {
        for y in names.iter() {
            let expected = if x < y {
                KeyOrder::Before
            } else if x == y {
                KeyOrder::Same
            } else {
                KeyOrder::After
            };
            assert_eq!(compare_keys(x, y), expected, "{x} vs {y}");
        }
    }
}
