//! The small pieces that the rest is built from, against what std says.
use ai_imessage::digest::hex_digest;
use ai_imessage::json::{get, i64_at, pretty, str_at, u64_at};
use ai_imessage::numeric::{decimal_i64, decimal_u64, hex_text, parse_i64};
use ai_imessage::order::order;
use ai_imessage::search::{keyword_query, rank_scores, sanitize_fts_query, truncate_snippet};
use ai_imessage::text::{
    ascii_digits, contains, is_blank, is_whitespace, lines, replace_char, split_at_last,
    split_whitespace, starts_with, strip_prefix, to_ascii_lowercase, trim, trim_end_char,
};
use ai_imessage::time::{format_range, when_text, UtcTime};

const SAMPLES: &[&str] = &[
    "",
    " ",
    "a",
    " a b  c ",
    "x\r\ny\nz\n",
    "\n\n",
    "line\r",
    "Grüße\u{a0}aus\u{2003}Köln 🎉",
    "AbC-dEf",
    "a::b::",
    "\u{85}x\u{3000}",
];

#[test]
fn white_space_is_what_unicode_says() {
    for c in '\0'..=char::MAX {
        assert_eq!(is_whitespace(c), c.is_whitespace(), "{c:?}");
    }
}

#[test]
fn texts_are_cut_as_std_cuts_them() {
    for s in SAMPLES {
        assert_eq!(trim(s), s.trim());
        assert_eq!(is_blank(s), s.trim().is_empty());
        assert_eq!(
            split_whitespace(s),
            s.split_whitespace().collect::<Vec<_>>()
        );
        assert_eq!(lines(s), s.lines().collect::<Vec<_>>());
        assert_eq!(to_ascii_lowercase(s), s.to_ascii_lowercase());
        assert_eq!(trim_end_char(s, ':'), s.trim_end_matches(':'));
        assert_eq!(replace_char(s, 'a', "<a>"), s.replace('a', "<a>"));
        assert_eq!(
            split_at_last(s, ':'),
            s.rsplit_once(':')
                .map(|(a, b)| (a.to_string(), b.to_string()))
        );
        for part in ["", "a", "::", "b "] {
            assert_eq!(contains(s, part), s.contains(part));
            assert_eq!(starts_with(s, part), s.starts_with(part));
            assert_eq!(
                strip_prefix(s, part),
                s.strip_prefix(part).map(String::from)
            );
        }
    }
    assert_eq!(ascii_digits("+1 (555) 010"), "1555010");
}

#[test]
fn numbers_are_written_and_read_as_std_does() {
    for n in [i64::MIN, -10, -1, 0, 7, 10, 99, 12345, i64::MAX] {
        assert_eq!(decimal_i64(n), n.to_string());
        assert_eq!(parse_i64(&n.to_string()), Some(n));
    }
    assert_eq!(decimal_u64(u64::MAX), u64::MAX.to_string());
    for s in ["", "+", "-", "+5", "05", "9223372036854775808", " 1", "1x", "-0"] {
        assert_eq!(parse_i64(s), s.parse::<i64>().ok(), "{s}");
    }
    assert_eq!(hex_text(&[0x00, 0x0f, 0xa0, 0xff]), "000fa0ff");
    assert_eq!(
        hex_digest(b"abc"),
        "ba7816bf8f01cfea414140de5dae2223b00361a396177a9cb410ff61f20015ad"
    );
}

#[test]
fn order_is_by_both_keys_and_stable() {
    assert_eq!(order(&vec![(2, 0), (1, 5), (1, 4), (2, 0)]), vec![2, 1, 0, 3]);
}

#[test]
fn times_read_as_expected() {
    let t = 1_782_896_400_000; // 2026-07-01T09:00:00Z
    assert_eq!(when_text(Some(t)), "2026-07-01 09:00");
    assert_eq!(when_text(None), "unknown time");
    assert_eq!(when_text(Some(i64::MAX)), "unknown time");
    assert_eq!(format_range(Some(t), Some(t)), "2026-07-01");
    assert_eq!(
        format_range(Some(t), Some(t + 86_400_000)),
        "2026-07-01 → 2026-07-02"
    );
    assert_eq!(format_range(None, Some(t)), "2026-07-01");
    assert_eq!(format_range(Some(t), None), "2026-07-01");
    assert_eq!(format_range(Some(t), Some(i64::MAX)), "2026-07-01 → ?");
    assert_eq!(format_range(None, None), "unknown date");
}

#[test]
fn instants_exist_where_chrono_has_them() {
    for (secs, nanos) in [
        (0, 0),
        (-1, 999_999_999),
        (59, 1_500_000_000),
        (60, 1_500_000_000),
        (0, 2_000_000_000),
        (8_210_266_876_799, 0),
        (8_210_266_876_800, 0),
        (-8_334_601_228_800, 0),
        (-8_334_601_228_801, 0),
        (i64::MAX, 0),
    ] {
        let known = chrono::DateTime::from_timestamp(secs, nanos);
        let ours = UtcTime::from_timestamp(secs, nanos);
        assert_eq!(ours.is_some(), known.is_some(), "{secs} {nanos}");
        if let (Some(ours), Some(known)) = (ours, known) {
            assert_eq!(ours.to_rfc3339(), known.to_rfc3339());
            assert_eq!(ours.timestamp_millis(), known.timestamp_millis());
        }
    }
}

#[test]
fn queries_are_quoted_word_by_word() {
    assert_eq!(sanitize_fts_query("hello AND"), "\"hello\" \"AND\"");
    assert_eq!(sanitize_fts_query("\"unbalanced"), "\"\"\"unbalanced\"");
    assert_eq!(sanitize_fts_query("   "), "");
    assert_eq!(keyword_query("   "), None);
    assert_eq!(keyword_query(" a* ").as_deref(), Some("\"a*\""));
}

#[test]
fn snippets_stop_at_two_hundred_characters() {
    let exact = "ü".repeat(200);
    assert_eq!(truncate_snippet(&exact), exact);
    assert_eq!(
        truncate_snippet(&"ü".repeat(201)),
        format!("{}…", "ü".repeat(200))
    );
}

#[test]
fn scores_are_ranked_and_noise_is_dropped() {
    let bits = |x: f32| x.to_bits();
    let scores = [
        (1, bits(0.25)),
        (2, bits(-0.5)),
        (3, bits(0.75)),
        (4, bits(0.0)),
        (5, bits(f32::NAN)),
        (6, bits(0.25)),
        (7, bits(-0.0)),
    ];
    let ranked = rank_scores(&scores, 10);
    let ids: Vec<i64> = ranked.iter().map(|x| x.0).collect();
    assert_eq!(ids, vec![3, 1, 6]);
    let best: Vec<i64> = rank_scores(&scores, 2).iter().map(|x| x.0).collect();
    assert_eq!(best, vec![3, 1]);
}

#[test]
fn json_is_read_level_by_level() {
    let s = r#"{"a":{"b":[1,"x"]},"n":-5,"u":18446744073709551615,"s":"q\"","f":1.5}"#;
    assert_eq!(get(s, "a").as_deref(), Some(r#"{"b":[1,"x"]}"#));
    assert_eq!(get(&get(s, "a").unwrap(), "b").as_deref(), Some(r#"[1,"x"]"#));
    assert_eq!(i64_at(s, "n"), Some(-5));
    assert_eq!(u64_at(s, "n"), None);
    assert_eq!(u64_at(s, "u"), Some(u64::MAX));
    assert_eq!(i64_at(s, "f"), None);
    assert_eq!(str_at(s, "s").as_deref(), Some("q\""));
    assert_eq!(get(s, "zz"), None);
    assert_eq!(get("not json", "a"), None);
    assert_eq!(pretty(r#"{"a":[1]}"#), "{\n  \"a\": [\n    1\n  ]\n}");
    assert_eq!(pretty("nope"), "nope");
}
