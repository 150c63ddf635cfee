use uaps::table::Table;
use uaps::text::{
    contains, ends_with, is, is_ignoring_case, join, less, lines, parse_code, parse_hex,
    parse_i32, parse_i64, parse_u32, parse_u64, parse_u8, replace, replace_once, rsplit, same,
    split, split_once, starts_with, strip_prefix, string_of, trim, words,
};

fn chars(s: &str) -> Vec<char> {
    s.chars().collect()
}

fn text(v: &[char]) -> String {
    v.iter().collect()
}

const TEXTS: [&str; 14] = [
    "",
    " ",
    "a",
    "a b  c",
    "\t a,b , c \n",
    "one\ntwo\r\nthree\n",
    "one\n\n two",
    "tail\r",
    "key: value: more",
    "x=1,y=2",
    "über straße",
    "\u{a0}wide\u{3000}",
    "))a(b)c",
    "aaaa",
];

#[test]
fn texts_are_taken_apart_as_the_language_does() {
    for t in TEXTS {
        let v = chars(t);
        assert_eq!(text(trim(&v)), t.trim());
        let got: Vec<String> = words(&v).iter().map(|w| text(w)).collect();
        assert_eq!(got, t.split_whitespace().map(String::from).collect::<Vec<String>>());
        let got: Vec<String> = lines(&v).iter().map(|w| text(w)).collect();
        assert_eq!(got, t.lines().map(String::from).collect::<Vec<String>>(), "{t:?}");
        let got: Vec<String> = split(&v, ',').iter().map(|w| text(w)).collect();
        assert_eq!(got, t.split(',').map(String::from).collect::<Vec<String>>());
        let got = split_once(&v, ':').map(|(a, b)| (text(a), text(b)));
        assert_eq!(got, t.split_once(':').map(|(a, b)| (a.to_string(), b.to_string())));
        let got = rsplit(&v, ')').map(text);
        assert_eq!(got, t.rsplit_once(')').map(|(_, b)| b.to_string()));
        assert_eq!(string_of(&v), t);
    }
}

#[test]
fn texts_are_searched_as_the_language_does() {
    for t in TEXTS {
        let v = chars(t);
        for p in ["", "a", "one", "aa", "\n", "key: "] {
            assert_eq!(starts_with(&v, p), t.starts_with(p));
            assert_eq!(ends_with(&v, p), t.ends_with(p));
            assert_eq!(contains(&v, p), t.contains(p), "{t:?} {p:?}");
            assert_eq!(strip_prefix(&v, p).map(text), t.strip_prefix(p).map(String::from));
            if !p.is_empty() {
                assert_eq!(replace(&v, p, "<>"), t.replace(p, "<>"));
                assert_eq!(replace_once(&v, p, "<>"), t.replacen(p, "<>", 1));
            }
        }
        for u in TEXTS {
            assert_eq!(same(t, u), t == u);
            assert_eq!(is(&v, u), t == u);
            assert_eq!(less(&v, &chars(u)), t < u, "{t:?} {u:?}");
        }
    }
    assert!(is_ignoring_case(&chars("InFinIte"), "infinite"));
    assert!(!is_ignoring_case(&chars("infinit"), "infinite"));
    let v: Vec<String> = vec!["a".into(), "".into(), "b".into()];
    assert_eq!(join(&v, ", "), "a, , b");
    assert_eq!(join(&vec![], ", "), "");
}

#[test]
fn numbers_are_parsed_as_the_language_does() {
    let texts = [
        "", "0", "7", "+7", "-7", "007", "255", "256", "4294967295", "4294967296",
        "18446744073709551615", "18446744073709551616", "9223372036854775807",
        "9223372036854775808", "-9223372036854775808", "-9223372036854775809", " 1", "1 ", "1.5",
        "0x1f", "ff", "FF", "-", "+", "1a", "２",
    ];
    for t in texts {
        let v = chars(t);
        assert_eq!(parse_u64(&v), t.parse::<u64>().ok(), "{t}");
        assert_eq!(parse_u32(&v), t.parse::<u32>().ok(), "{t}");
        assert_eq!(parse_u8(&v), t.parse::<u8>().ok(), "{t}");
        assert_eq!(parse_i64(&v), t.parse::<i64>().ok(), "{t}");
        assert_eq!(parse_i32(&v), t.parse::<i32>().ok(), "{t}");
        assert_eq!(parse_hex(&v), u64::from_str_radix(t, 16).ok(), "{t}");
    }
    assert_eq!(parse_code(&chars("0x1F")), Some(31));
    assert_eq!(parse_code(&chars("0X1f")), Some(31));
    assert_eq!(parse_code(&chars("31")), Some(31));
    assert_eq!(parse_code(&chars("1f")), None);
}

#[test]
fn tables_are_in_the_order_of_their_keys() {
    let mut t: Table<u32> = Table::new();
    for (k, v) in [("m", 1), ("a", 2), ("z", 3), ("m", 4), ("", 5)] {
        t.insert(k.to_string(), v);
    }
    assert_eq!(t.len(), 4);
    let rows: Vec<(String, u32)> = (0..t.len()).map(|i| (t.key(i).clone(), *t.value(i))).collect();
    let want = [("", 5), ("a", 2), ("m", 4), ("z", 3)];
    assert_eq!(rows, want.iter().map(|(k, v)| (k.to_string(), *v)).collect::<Vec<(String, u32)>>());
    assert_eq!(t.get("m"), Some(&4));
    assert_eq!(t.get("b"), None);
    assert!(t.contains("z") && !t.contains("zz"));
}
