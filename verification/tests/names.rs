use picobench::{join_path, result_file_name, split_path};

fn std_split(s: &str) -> Vec<String> {
    s.split("::").map(|p| p.to_string()).collect()
}

#[test]
fn split_path_finds_the_segments() {
    assert_eq!(split_path("my_module::my_benchmark"), vec!["my_module", "my_benchmark"]);
    assert_eq!(split_path("a::b::c"), vec!["a", "b", "c"]);
    assert_eq!(split_path("plain"), vec!["plain"]);
    assert_eq!(split_path(""), vec![""]);
}

#[test]
fn split_path_takes_separators_from_the_left() {
    assert_eq!(split_path(":::"), vec!["", ":"]);
    assert_eq!(split_path("a:b"), vec!["a:b"]);
    assert_eq!(split_path("a::::b"), vec!["a", "", "b"]);
    assert_eq!(split_path("::x::"), vec!["", "x", ""]);
}

#[test]
fn split_path_agrees_with_str_split() {
    let alphabet = ['a', ':', 'é', 'b'];
    for len in 0..7u32 {
        for code in 0..4usize.pow(len) {
            let mut s = String::new();
            let mut k = code;
            for _ in 0..len {
                s.push(alphabet[k % 4]);
                k /= 4;
            }
            assert_eq!(split_path(&s), std_split(&s), "{:?}", s);
            assert_eq!(join_path(&split_path(&s), "::"), s);
        }
    }
}

#[test]
fn join_path_puts_the_separator_between_segments() {
    let parts = vec!["wait".to_string(), "busy".to_string(), "fixed_5".to_string()];
    assert_eq!(join_path(&parts, "::"), "wait::busy::fixed_5");
    assert_eq!(join_path(&Vec::new(), "::"), "");
    assert_eq!(join_path(&vec!["one".to_string()], "/"), "one");
}

#[test]
fn result_file_name_replaces_separators() {
    assert_eq!(result_file_name("wait::busy::fixed_5"), "wait/busy/fixed_5.txt");
    assert_eq!(result_file_name("nothing"), "nothing.txt");
    assert_eq!(result_file_name("a:::b"), "a/:b.txt");
    for name in ["x::y", "::", "a::b::", "é::ü"] {
        assert_eq!(result_file_name(name), format!("{}.txt", name.replace("::", "/")));
    }
}
