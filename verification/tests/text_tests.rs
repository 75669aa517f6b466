use datatoolkit_football::text::{
    copy_text, float_text_ok, int_to_text, nat_to_text, parse_i64, parse_u32, push_dec, rank_text,
    string_chars, sub_text, text_to_string, trim_text, utf8_string, Rank,
};

fn chars(s: &str) -> Vec<char> {
    s.chars().collect()
}

fn text(v: &Vec<char>) -> String {
    v.iter().collect()
}

#[test]
fn parse_i64_accepts_signed_integers() {
    assert_eq!(parse_i64(&chars("123")), Some(123));
    assert_eq!(parse_i64(&chars("-45")), Some(-45));
    assert_eq!(parse_i64(&chars("+7")), Some(7));
    assert_eq!(parse_i64(&chars("0")), Some(0));
    assert_eq!(parse_i64(&chars("007")), Some(7));
    assert_eq!(parse_i64(&chars("9223372036854775807")), Some(i64::MAX));
    assert_eq!(parse_i64(&chars("-9223372036854775808")), Some(i64::MIN));
}

#[test]
fn parse_i64_rejects_other_text() {
    assert_eq!(parse_i64(&chars("")), None);
    assert_eq!(parse_i64(&chars("-")), None);
    assert_eq!(parse_i64(&chars("+")), None);
    assert_eq!(parse_i64(&chars("12a")), None);
    assert_eq!(parse_i64(&chars(" 12")), None);
    assert_eq!(parse_i64(&chars("1.0")), None);
    assert_eq!(parse_i64(&chars("9223372036854775808")), None);
    assert_eq!(parse_i64(&chars("-9223372036854775809")), None);
    assert_eq!(parse_i64(&chars("--1")), None);
}

#[test]
fn parse_i64_agrees_with_std() {
    let inputs = vec![
        "", "0", "-0", "+0", "1", "-1", "42", "+42", "x", "1x", "x1", "99999999999999999999",
        "-99999999999999999999", "9223372036854775807", "9223372036854775808", "-9223372036854775808",
        "-9223372036854775809", " 1", "1 ", "٣", "+-1", "0000000000000000000000001",
    ];
    for s in inputs {
        assert_eq!(parse_i64(&chars(s)), s.parse::<i64>().ok(), "input {:?}", s);
    }
}

#[test]
fn parse_u32_agrees_with_std() {
    let inputs = vec![
        "", "0", "+0", "-0", "-1", "1", "+5", "4294967295", "4294967296", "12b", "00012", "++1",
    ];
    for s in inputs {
        assert_eq!(parse_u32(&chars(s)), s.parse::<u32>().ok(), "input {:?}", s);
    }
}

#[test]
fn float_text_ok_agrees_with_std() {
    let inputs = vec![
        "", "1", "1.5", "-2", "+3.25", ".5", "5.", ".", "-.", "1e5", "1E-5", "1e+5", "1e", "e1", "1.2.3",
        "inf", "-inf", "Infinity", "+INFINITY", "nan", "NaN", "-nan", "infin", "abc", "1,5", " 1", "1 ",
        "0.000", "1.e3", ".e3", "12e3.4", "2.5E10", "--1", "+", "-",
    ];
    for s in inputs {
        assert_eq!(float_text_ok(&chars(s)), s.parse::<f64>().is_ok(), "input {:?}", s);
    }
}

#[test]
fn trim_text_drops_outer_whitespace() {
    assert_eq!(text(&trim_text(&chars("  a b \t\n"))), "a b");
    assert_eq!(text(&trim_text(&chars("\u{a0}x\u{3000}"))), "x");
    assert_eq!(text(&trim_text(&chars("   "))), "");
    assert_eq!(text(&trim_text(&chars(""))), "");
    for s in vec![" Arsenal ", "\tMan United\r\n", "x", " \u{2003}y z\u{2028}"] {
        assert_eq!(text(&trim_text(&chars(s))), s.trim());
    }
}

#[test]
fn int_to_text_renders_decimal() {
    assert_eq!(text(&int_to_text(-120)), "-120");
    assert_eq!(text(&int_to_text(0)), "0");
    assert_eq!(text(&int_to_text(7)), "7");
    assert_eq!(text(&int_to_text(i64::MIN)), i64::MIN.to_string());
    assert_eq!(text(&int_to_text(i64::MAX)), i64::MAX.to_string());
    assert_eq!(text(&nat_to_text(0)), "0");
    assert_eq!(text(&nat_to_text(u64::MAX)), u64::MAX.to_string());
}

#[test]
fn push_dec_appends_digits() {
    let mut out = chars("n=");
    push_dec(4096, &mut out);
    assert_eq!(text(&out), "n=4096");
}

#[test]
fn integer_text_reads_back() {
    for n in vec![i64::MIN, -1000, -7, -1, 0, 1, 9, 10, 99, 12345, i64::MAX] {
        assert_eq!(parse_i64(&int_to_text(n)), Some(n));
    }
}

#[test]
fn rank_text_orders_as_string() {
    assert_eq!(rank_text(&chars("abc"), &chars("abd")), Rank::Before);
    assert_eq!(rank_text(&chars("abd"), &chars("abc")), Rank::After);
    assert_eq!(rank_text(&chars("ab"), &chars("abc")), Rank::Before);
    assert_eq!(rank_text(&chars("abc"), &chars("abc")), Rank::Same);
    assert_eq!(rank_text(&chars(""), &chars("a")), Rank::Before);
    let words = vec!["Arsenal", "arsenal", "Aston Villa", "Zürich", "Z", ""];
    for a in words.iter() {
        for b in words.iter() {
            let want = if a.to_string() < b.to_string() {
                Rank::Before
            } else if a == b {
                Rank::Same
            } else {
                Rank::After
            };
            assert_eq!(rank_text(&chars(a), &chars(b)), want);
        }
    }
}

#[test]
fn text_conversions_keep_characters() {
    let v = chars("Bolton Wanderers ü");
    assert_eq!(copy_text(&v), v);
    assert_eq!(text_to_string(&v), "Bolton Wanderers ü");
    assert_eq!(string_chars(&"Crewe €".to_string()), chars("Crewe €"));
    assert_eq!(sub_text(&chars("Sheffield Utd"), 0, 9), chars("Sheffield"));
    assert_eq!(sub_text(&chars("abc"), 1, 1), chars(""));
}

#[test]
fn utf8_string_decodes_or_fails() {
    assert_eq!(utf8_string("Stoke €".as_bytes().to_vec()), Some("Stoke €".to_string()));
    assert_eq!(utf8_string(vec![0x41, 0xff, 0x42]), None);
    assert_eq!(utf8_string(vec![]), Some(String::new()));
}
