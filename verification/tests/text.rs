use rmqtty::text::{chars_less, chars_of, decimal_string, spaces_string, split_str};

#[test]
fn split_matches_str_split() {
    for s in ["", "a", "a/b", "/a", "a/", "//", "a//b/c", "ü/ß"] {
        let mine: Vec<String> = split_str(s, '/');
        let std: Vec<String> = s.split('/').map(|x| x.to_string()).collect();
        assert_eq!(mine, std, "splitting {:?}", s);
        assert_eq!(mine.join("/"), s);
    }
}

#[test]
fn chars_less_is_string_order() {
    let words = ["", "a", "b", "ab", "aa", "B", "é", "z", "zz"];
    for a in words {
        for b in words {
            assert_eq!(chars_less(&chars_of(a), &chars_of(b)), a < b, "{:?} < {:?}", a, b);
        }
    }
}

#[test]
fn decimal_matches_format() {
    for n in [0u64, 7, 10, 42, 1883, u64::MAX] {
        assert_eq!(decimal_string(n), n.to_string());
    }
}

#[test]
fn spaces_repeat() {
    assert_eq!(spaces_string(0), "");
    assert_eq!(spaces_string(3), "   ");
}
