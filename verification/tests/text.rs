use gitsplits::normalize_username;
use gitsplits::text::{is_space_char, lower_char, push_decimal, text_less};

#[test]
fn normalization_examples() {
    assert_eq!(normalize_username("@User"), "user");
    assert_eq!(normalize_username("user"), "user");
    assert_eq!(normalize_username(" USER "), "user");
}

#[test]
fn normalization_trims_every_kind_of_whitespace() {
    assert_eq!(normalize_username("\t\n  octo-Cat\r\n"), "octo-cat");
    assert_eq!(normalize_username("\u{a0}\u{2003}Name\u{3000}"), "name");
    assert_eq!(normalize_username("   "), "");
    assert_eq!(normalize_username(""), "");
}

#[test]
fn normalization_drops_every_leading_at_sign() {
    assert_eq!(normalize_username("@@@Octo"), "octo");
    assert_eq!(normalize_username("@"), "");
    assert_eq!(normalize_username("  @@  "), "");
    assert_eq!(normalize_username("a@B"), "a@b");
}

#[test]
fn normalization_lower_cases_ascii_letters_only() {
    assert_eq!(normalize_username("AbC-XyZ_09"), "abc-xyz_09");
    assert_eq!(normalize_username("\u{c9}COLE"), "\u{c9}cole");
    assert_eq!(normalize_username("[\\]^_`{"), "[\\]^_`{");
}

#[test]
fn normalization_keeps_inner_whitespace() {
    assert_eq!(normalize_username(" a b "), "a b");
}

#[test]
fn normalization_is_idempotent_on_ordinary_names() {
    for name in ["@User", "user", " USER ", "@@Octo-Cat", "  MiXed_09  ", "", "@"] {
        let once = normalize_username(name);
        assert_eq!(normalize_username(&once), once);
    }
}

#[test]
fn normalization_is_not_idempotent_when_whitespace_follows_the_at_sign() {
    let once = normalize_username("@ user");
    assert_eq!(once, " user");
    assert_eq!(normalize_username(&once), "user");
}

#[test]
fn whitespace_is_the_unicode_property() {
    let mut code: u32 = 0;
    while code <= 0x10FFFF {
        if let Some(c) = char::from_u32(code) {
            assert_eq!(is_space_char(c), c.is_whitespace(), "U+{:04X}", code);
        }
        code += 1;
    }
}

#[test]
fn lower_case_is_the_ascii_mapping() {
    let mut code: u32 = 0;
    while code <= 0x10FFFF {
        if let Some(c) = char::from_u32(code) {
            assert_eq!(lower_char(c), c.to_ascii_lowercase(), "U+{:04X}", code);
        }
        code += 1;
    }
}

#[test]
fn text_order_examples() {
    assert!(text_less("a", "b"));
    assert!(!text_less("b", "a"));
    assert!(!text_less("a", "a"));
    assert!(text_less("", "a"));
    assert!(!text_less("a", ""));
    assert!(!text_less("", ""));
    assert!(text_less("ab", "abc"));
    assert!(!text_less("abc", "ab"));
    assert!(text_less("Z", "a"));
    assert!(text_less("abc", "abd"));
}

#[test]
fn text_order_is_the_order_of_strings() {
    let words = [
        "", "a", "A", "ab", "abc", "abd", "b", "alice", "bob", "carol-7", "z", "zz", "\u{e9}",
        "e\u{301}", "\u{10348}", "\u{ffff}", "0", "10", "9", "-", "_", " ",
    ];
    for a in words {
        for b in words {
            assert_eq!(text_less(a, b), a < b, "{:?} < {:?}", a, b);
        }
    }
}

#[test]
fn decimal_numerals() {
    for n in [0u64, 1, 9, 10, 11, 99, 100, 101, 12345, 1_000_000, u64::MAX - 1, u64::MAX] {
        let mut out = String::from("n=");
        push_decimal(&mut out, n);
        assert_eq!(out, format!("n={}", n));
    }
}
