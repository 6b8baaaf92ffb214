use external_dns_webhook_timeweb::address::{ipv4, ipv6, socket_address};
use external_dns_webhook_timeweb::names::{is_within, normalize_name};
use external_dns_webhook_timeweb::numbers::{push_decimal, read_digits, read_u16};
use external_dns_webhook_timeweb::order::{comes_before, insert_unique, sort_texts};
use external_dns_webhook_timeweb::text::{
    ends_with, lowercase, same_ignoring_case, split, split_whitespace, starts_with, starts_with_char, trim,
    trim_leading, trim_trailing, uppercase, whitespace,
};

const SAMPLES: [&str; 12] = [
    "",
    " ",
    "example.com",
    "  Example.COM.  ",
    "a b\tc\nd",
    "\u{a0}\u{2003}x\u{3000}",
    "..",
    ".a..",
    "Straße ÄÖ",
    "日本 語",
    ",a,,b,",
    "\u{85}\u{1680}\u{2028}",
];

#[test]
fn white_space_is_that_of_unicode() {
    for n in 0..=0x10ffff_u32 {
        if let Some(c) = char::from_u32(n) {
            assert_eq!(whitespace(c), c.is_whitespace(), "{n:x}");
        }
    }
}

#[test]
fn trims_and_cases_like_std() {
    for sample in SAMPLES {
        assert_eq!(trim(sample), sample.trim());
        assert_eq!(trim_leading(sample, '.'), sample.trim_start_matches('.'));
        assert_eq!(trim_trailing(sample, '.'), sample.trim_end_matches('.'));
        assert_eq!(lowercase(sample), sample.to_ascii_lowercase());
        assert_eq!(uppercase(sample), sample.to_ascii_uppercase());
    }
    assert!(same_ignoring_case("Example.COM", "example.com"));
    assert!(!same_ignoring_case("Ä", "ä"));
}

#[test]
fn splits_like_std() {
    for sample in SAMPLES {
        assert_eq!(split(sample, ','), sample.split(',').collect::<Vec<_>>());
        assert_eq!(
            split_whitespace(sample),
            sample.split_whitespace().collect::<Vec<_>>()
        );
        for other in SAMPLES {
            assert_eq!(starts_with(sample, other), sample.starts_with(other));
            assert_eq!(ends_with(sample, other), sample.ends_with(other));
        }
        assert_eq!(starts_with_char(sample, '.'), sample.starts_with('.'));
    }
}

#[test]
fn orders_like_std() {
    for a in SAMPLES {
        for b in SAMPLES {
            assert_eq!(comes_before(a, b), a < b);
        }
    }
    let mut list: Vec<String> = SAMPLES.iter().map(|s| (*s).to_owned()).collect();
    let mut expected = list.clone();
    sort_texts(&mut list);
    expected.sort();
    assert_eq!(list, expected);
}

#[test]
fn inserts_each_text_once_in_order() {
    let mut list = Vec::new();
    for item in ["b", "a", "c", "a", "b"] {
        insert_unique(&mut list, item.to_owned());
    }
    assert_eq!(list, ["a", "b", "c"]);
}

#[test]
fn numbers_are_written_and_read_like_std() {
    for n in [0, 7, 10, 99, 100, 65535, 65536, u64::MAX] {
        let mut text = "n=".to_owned();
        push_decimal(&mut text, n);
        assert_eq!(text, format!("n={n}"));
    }
    for sample in [
        "0", "007", "65535", "65536", "+5", "++5", "+", "", "-1", "1a", " 1", "99999999999",
    ] {
        assert_eq!(read_u16(sample), sample.parse::<u16>().ok(), "{sample}");
    }
    assert_eq!(read_digits("255", 255), Some(255));
    assert_eq!(read_digits("256", 255), None);
    assert_eq!(read_digits("+5", 255), None);
}

#[test]
fn names_have_a_normal_form() {
    assert_eq!(normalize_name(" WWW.Example.Com.. "), "www.example.com");
    assert_eq!(normalize_name("..."), "");
    assert_eq!(normalize_name(&normalize_name("A.b.")), "a.b");
    // A space that only the last dot hid stays, and is cut the second time.
    assert_eq!(normalize_name("a ."), "a ");
    assert_eq!(normalize_name(&normalize_name("a .")), "a");
}

#[test]
fn zones_nest() {
    assert!(is_within("example.com", "example.com"));
    assert!(is_within("a.b.example.com", "b.example.com"));
    assert!(is_within("b.example.com", "example.com"));
    assert!(is_within("a.b.example.com", "example.com"));
    assert!(!is_within("badexample.com", "example.com"));
    assert!(!is_within("com", "example.com"));
}

#[test]
fn recognises_ipv4_addresses() {
    for good in ["0.0.0.0", "192.0.2.1", "255.255.255.255", "1.20.30.40"] {
        assert!(ipv4(good), "{good}");
    }
    for bad in [
        "", "1.2.3", "1.2.3.4.5", "256.1.1.1", "01.2.3.4", "1.2.3.00", "1..2.3", "a.b.c.d", "1.2.3.4 ", "+1.2.3.4",
        "1.2.3.0004", "::1",
    ] {
        assert!(!ipv4(bad), "{bad}");
    }
}

#[test]
fn recognises_ipv6_addresses() {
    for good in [
        "::",
        "::1",
        "1::",
        "2001:db8::1",
        "2001:DB8:0:0:0:0:0:1",
        "1:2:3:4:5:6:7:8",
        "1:2:3:4:5:6:7::",
        "::2:3:4:5:6:7:8",
        "::ffff:192.0.2.1",
        "1:2:3:4:5:6:1.2.3.4",
        "0000:0000:0000:0000:0000:0000:0000:0000",
    ] {
        assert!(ipv6(good), "{good}");
    }
    for bad in [
        "",
        ":",
        ":::",
        "1",
        "1:2:3:4:5:6:7",
        "1:2:3:4:5:6:7:8:9",
        "1:2:3:4:5:6:7:8::",
        "1::2::3",
        "12345::",
        "g::",
        "1.2.3.4::",
        "1:2:3:4:5:6:7:1.2.3.4",
        "::1%1",
        "[::1]",
        "192.0.2.1",
    ] {
        assert!(!ipv6(bad), "{bad}");
    }
}

#[test]
fn recognises_socket_addresses() {
    for good in [
        "127.0.0.1:8888",
        "0.0.0.0:8080",
        "1.2.3.4:0",
        "1.2.3.4:65535",
        "1.2.3.4:00080",
        "[::1]:80",
        "[fe80::1%3]:443",
    ] {
        assert!(socket_address(good), "{good}");
    }
    for bad in [
        "",
        "127.0.0.1",
        "127.0.0.1:",
        "127.0.0.1:65536",
        "127.0.0.1:+80",
        "localhost:80",
        "::1:80",
        "[::1]",
        "[::1]:",
        "[::1]80",
        "[::1%]:80",
        "[::1%eth0]:80",
        "[1.2.3.4]:80",
        " 127.0.0.1:80",
    ] {
        assert!(!socket_address(bad), "{bad}");
    }
}
