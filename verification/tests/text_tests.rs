use check_ru::text::{
    chars_of, contains, decimal_string, find, parse_u32, parse_unsigned, replace, rfind, split,
    starts_with, string_of, trim, trim_str,
};

fn cv(s: &str) -> Vec<char> {
    s.chars().collect()
}

#[test]
fn decimal_numerals() {
    assert_eq!(decimal_string(0), "0");
    assert_eq!(decimal_string(7), "7");
    assert_eq!(decimal_string(1234), "1234");
    assert_eq!(decimal_string(u64::MAX), u64::MAX.to_string());
}

#[test]
fn parse_u32_follows_std() {
    for s in ["0", "12", "+12", "-1", "", "+", "4294967295", "4294967296", "12a", " 1", "007"] {
        assert_eq!(parse_u32(&cv(s)), s.parse::<u32>().ok(), "input {:?}", s);
    }
}

#[test]
fn parse_hex_follows_std() {
    for s in ["FF", "ff", "+F", "-F", "1FF", "g0", "", "00"] {
        assert_eq!(
            parse_unsigned(&cv(s), 16, 255).map(|v| v as u8),
            u8::from_str_radix(s, 16).ok(),
            "input {:?}",
            s
        );
    }
}

#[test]
fn decimal_reads_back() {
    for n in [0u32, 9, 10, 99, 65535, u32::MAX] {
        let s = decimal_string(n as u64);
        assert_eq!(parse_u32(&chars_of(&s)), Some(n));
    }
}

#[test]
fn searching() {
    assert_eq!(find(&cv("abcabc"), &cv("bc")), Some(1));
    assert_eq!(rfind(&cv("abcabc"), &cv("bc")), Some(4));
    assert_eq!(find(&cv("abc"), &cv("x")), None);
    assert_eq!(rfind(&cv("ab"), &cv("abc")), None);
    assert!(contains(&cv("o fechado"), &cv("fechado")));
    assert!(starts_with(&cv("salada verde"), &cv("salada")));
    assert!(!starts_with(&cv("sal"), &cv("salada")));
}

#[test]
fn splitting_and_replacing_follow_std() {
    let cases = [("a},{b},{c", "},{"), ("aaa", "aa"), ("", ","), (",a,", ","), ("x", "yy")];
    for (s, p) in cases {
        let got: Vec<String> = split(&cv(s), &cv(p)).iter().map(|v| string_of(v)).collect();
        let want: Vec<String> = s.split(p).map(|x| x.to_string()).collect();
        assert_eq!(got, want, "split {:?} by {:?}", s, p);
        let r = replace(&cv(s), &cv(p), &cv("<>"));
        assert_eq!(string_of(&r), s.replace(p, "<>"));
    }
}

#[test]
fn trimming_follows_std() {
    for s in ["", "  ", " a b ", "\t\nx\u{A0}", "y"] {
        assert_eq!(trim_str(s), s.trim());
        assert_eq!(string_of(&trim(&cv(s))), s.trim());
    }
}

#[test]
fn trimming_twice_is_trimming_once() {
    for s in [" a ", "\u{2003}b\t", "", "c"] {
        let once = trim_str(s);
        assert_eq!(trim_str(&once), once);
    }
}
