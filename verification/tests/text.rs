use waybar_widgets::number::{decimal_chars, parse_i32_chars};
use waybar_widgets::text::{
    chars_of, contains_chars, join_strings, lines, lowercases_to_chars, remove_matches,
    split_chars, trim_end_matching, trim_str, words,
};

fn text(v: &[char]) -> String {
    v.iter().collect()
}

fn texts(v: &[Vec<char>]) -> Vec<String> {
    v.iter().map(|p| text(p)).collect()
}

const SAMPLES: &[&str] = &[
    "",
    " ",
    "a",
    "  a  b\tc \n",
    "\u{a0}x\u{3000}",
    "one\ntwo\r\nthree",
    "one\ntwo\n",
    "\n\n",
    "bare\r",
    "a\r\r\nb",
    "\r\n",
    "x  y",
    "\u{2028}line\u{85}",
];

#[test]
fn trim_matches_str_trim() {
    for s in SAMPLES {
        assert_eq!(trim_str(s), s.trim(), "input {:?}", s);
    }
}

#[test]
fn lines_match_str_lines() {
    for s in SAMPLES {
        let expected: Vec<String> = s.lines().map(|l| l.to_string()).collect();
        assert_eq!(texts(&lines(&chars_of(s))), expected, "input {:?}", s);
    }
}

#[test]
fn lines_examples() {
    assert_eq!(texts(&lines(&chars_of("a\r\nb\n\nc"))), vec!["a", "b", "", "c"]);
    assert_eq!(texts(&lines(&chars_of(""))), Vec::<String>::new());
    assert_eq!(texts(&lines(&chars_of("\n"))), vec![""]);
}

#[test]
fn words_match_split_whitespace() {
    for s in SAMPLES {
        let expected: Vec<String> = s.split_whitespace().map(|w| w.to_string()).collect();
        assert_eq!(texts(&words(&chars_of(s))), expected, "input {:?}", s);
    }
}

#[test]
fn split_matches_str_split() {
    for s in SAMPLES {
        let expected: Vec<String> = s.split(' ').map(|p| p.to_string()).collect();
        assert_eq!(texts(&split_chars(&chars_of(s), ' ')), expected, "input {:?}", s);
    }
    assert_eq!(texts(&split_chars(&chars_of("a  b"), ' ')), vec!["a", "", "b"]);
    assert_eq!(texts(&split_chars(&chars_of(""), ' ')), vec![""]);
}

#[test]
fn remove_matches_matches_replace() {
    let cases = ["", "H[a V[b c]]", "VV[[", "]]]", "H[H[x", "\"12\""];
    for s in cases {
        for pat in ["V[", "H[", "]", "\""] {
            let r = remove_matches(&chars_of(s), &chars_of(pat));
            assert_eq!(text(&r), s.replace(pat, ""), "{:?} without {:?}", s, pat);
        }
    }
}

#[test]
fn contains_examples() {
    assert!(contains_chars(&chars_of("abc"), &chars_of("")));
    assert!(contains_chars(&chars_of("abc"), &chars_of("bc")));
    assert!(!contains_chars(&chars_of("abc"), &chars_of("cb")));
    assert!(!contains_chars(&chars_of("ab"), &chars_of("abc")));
}

#[test]
fn trim_end_matching_drops_the_run() {
    assert_eq!(text(&trim_end_matching(&chars_of("45%%"), '%')), "45");
    assert_eq!(text(&trim_end_matching(&chars_of("%4%5"), '%')), "%4%5");
    assert_eq!(text(&trim_end_matching(&chars_of("%%"), '%')), "");
}

#[test]
fn join_strings_examples() {
    let parts = vec!["a".to_string(), "b".to_string(), "c".to_string()];
    assert_eq!(join_strings(&parts, " | "), "a | b | c");
    assert_eq!(join_strings(&Vec::new(), " | "), "");
    assert_eq!(join_strings(&vec!["x".to_string()], " | "), "x");
}

#[test]
fn lowercase_comparison_matches_to_lowercase() {
    let words_ = ["spotify", "steam", "teams", "brave-browser"];
    let names = [
        "Spotify", "SPOTIFY", "spotify", "Steam", "\u{212a}", "s\u{130}", "Teams", "TEAMS ",
        "Brave-Browser", "steam_app_12", "", "\u{3a3}",
    ];
    for w in words_ {
        for n in names {
            assert_eq!(
                lowercases_to_chars(&chars_of(n), &chars_of(w)),
                n.to_lowercase() == w,
                "{:?} against {:?}",
                n,
                w
            );
        }
    }
    assert!(lowercases_to_chars(&chars_of("\u{212a}"), &chars_of("k")));
}

#[test]
fn decimal_matches_display() {
    for n in [0i64, 7, -7, 10, 99, 100, 2147483647, -2147483648, i64::MAX, i64::MIN] {
        assert_eq!(text(&decimal_chars(n)), n.to_string());
    }
}

#[test]
fn parse_matches_str_parse() {
    let cases = [
        "", "+", "-", "0", "+7", "-7", "007", "12a", " 1", "1 ", "2147483647", "2147483648",
        "-2147483648", "-2147483649", "99999999999999999999", "+-1", "\u{663}", "1_000",
    ];
    for s in cases {
        assert_eq!(parse_i32_chars(&chars_of(s)), s.parse::<i32>().ok(), "input {:?}", s);
    }
}

#[test]
fn parse_reads_back_decimal() {
    for n in [0i32, 1, -1, 42, -42, i32::MAX, i32::MIN] {
        assert_eq!(parse_i32_chars(&decimal_chars(n as i64)), Some(n));
    }
}
