use picobench::order::{path_less, str_lt};

#[test]
fn str_lt_follows_string_order() {
    let words = ["", "a", "ab", "b", "B", "é", "z", "aé", "a\u{10FFFF}", "ab\u{0}"];
    for a in words {
        for b in words {
            assert_eq!(str_lt(a, b), a < b, "{:?} {:?}", a, b);
        }
    }
}

#[test]
fn path_less_follows_vec_order() {
    let paths: Vec<Vec<String>> = vec![
        vec![],
        vec!["".to_string()],
        vec!["a".to_string()],
        vec!["a".to_string(), "b".to_string()],
        vec!["a".to_string(), "".to_string()],
        vec!["b".to_string()],
        vec!["ab".to_string()],
    ];
    for a in &paths {
        for b in &paths {
            assert_eq!(path_less(a, b), a < b, "{:?} {:?}", a, b);
        }
    }
}
