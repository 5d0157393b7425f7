use whyhot::diagnosis::bytes;
use whyhot::text::{
    chars_of, decimal, find_chars, fixed0_chars, fixed1_chars, lines_of, parse_unsigned_chars,
    round_div, string_of, trim_chars, words_of,
};

fn strings(v: Vec<Vec<char>>) -> Vec<String> {
    v.iter().map(|l| string_of(l)).collect()
}

const SAMPLES: [&str; 12] = [
    "",
    "a",
    "a\nb",
    "a\r\nb\r\n",
    "foo\nbar\n\r\nbaz\r",
    "\n\n",
    "  padded \t",
    "\u{a0}nbsp\u{2003}em\u{3000}",
    "one  two\tthree\nfour",
    "x\r",
    "\r\n",
    "trailing\n",
];

#[test]
fn lines_match_std() {
    for s in SAMPLES {
        let ours = strings(lines_of(&chars_of(s)));
        let std: Vec<String> = s.lines().map(String::from).collect();
        assert_eq!(ours, std, "{s:?}");
    }
}

#[test]
fn words_match_std() {
    for s in SAMPLES {
        let ours = strings(words_of(&chars_of(s)));
        let std: Vec<String> = s.split_whitespace().map(String::from).collect();
        assert_eq!(ours, std, "{s:?}");
    }
}

#[test]
fn trim_matches_std() {
    for s in SAMPLES {
        assert_eq!(string_of(&trim_chars(&chars_of(s))), s.trim(), "{s:?}");
    }
}

#[test]
fn find_matches_std() {
    let hay = "a.appx/b.app/c.app";
    for needle in [".app/", ".app", "c", "zz", "", "a.appx/b.app/c.app!"] {
        let ours = find_chars(&chars_of(hay), &chars_of(needle));
        assert_eq!(ours, hay.find(needle), "{needle}");
    }
}

#[test]
fn unsigned_parsing_matches_std() {
    for s in ["0", "42", "+7", "-0", "", "+", "4294967295", "4294967296", "007", "1 ", "1a", "99999999999999999999999"] {
        let ours = parse_unsigned_chars(&chars_of(s), u32::MAX as u64).map(|v| v as u32);
        assert_eq!(ours, s.parse::<u32>().ok(), "{s}");
        let ours = parse_unsigned_chars(&chars_of(s), 255).map(|v| v as u8);
        assert_eq!(ours, s.parse::<u8>().ok(), "{s}");
    }
}

#[test]
fn decimal_matches_display() {
    for n in [0u64, 7, 10, 99, 1_000_000, u64::MAX] {
        assert_eq!(string_of(&decimal(n)), n.to_string());
    }
}

#[test]
fn rounding_is_half_to_even_like_std_formatting() {
    assert_eq!(round_div(25, 10), 2);
    assert_eq!(round_div(35, 10), 4);
    assert_eq!(round_div(26, 10), 3);
    assert_eq!(round_div(24, 10), 2);
    for h in [0u64, 50, 150, 250, 6250, 6249, 6251, 9350, 9999, 10_050] {
        let value = h as f64 / 100.0;
        assert_eq!(string_of(&fixed0_chars(h, 100)), format!("{value:.0}"), "{h}");
    }
    for v in [0u64, 1, 2, 3, 5, 6, 7, 8, 9, 10, 12, 13, 15, 16] {
        let value = v as f64 / 16.0;
        assert_eq!(string_of(&fixed1_chars(v, 16)), format!("{value:.1}"), "{v}");
    }
}

#[test]
fn byte_rates_match_float_formatting() {
    for v in [0u64, 1, 52_428, 104_857, 157_286, 10 * 1_048_576, 1_073_741_823, 1_073_741_824, 1_610_612_736, 123_456_789_012] {
        let expected = if v >= 1_073_741_824 {
            format!("{:.1} GiB", v as f64 / 1_073_741_824.0)
        } else {
            format!("{:.1} MiB", v as f64 / 1_048_576.0)
        };
        assert_eq!(string_of(&bytes(v)), expected, "{v}");
    }
}
