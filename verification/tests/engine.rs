use loganon::transformer::Transformer;
use loganon::validate::check_ip4;

fn transform_str(t: &mut Transformer, s: &str) -> Vec<u8> {
    let mut line = s.as_bytes().to_vec();
    t.transform_line(&mut line);
    line
}

fn is_digit(b: u8) -> bool {
    (48..=57).contains(&b)
}

fn is_hex(b: u8) -> bool {
    is_digit(b) || (97..=102).contains(&b)
}

fn is_base36(b: u8) -> bool {
    is_digit(b) || (97..=122).contains(&b)
}

#[test]
fn ip4_in_log_line_replaced_and_consistent() {
    let mut t = Transformer::from_seed(42);
    let input = "GET /x HTTP/1.1\" 200 - 192.168.1.10";
    let out1 = transform_str(&mut t, input);
    assert_eq!(out1.len(), input.len());
    let prefix = "GET /x HTTP/1.1\" 200 - ".as_bytes();
    assert_eq!(&out1[..23], prefix);
    let ip = &out1[23..];
    assert_eq!(ip.len(), 12);
    for (i, &b) in ip.iter().enumerate() {
        if i == 3 || i == 7 || i == 9 {
            assert_eq!(b, b'.');
        } else {
            assert!(is_digit(b));
        }
    }
    let out2 = transform_str(&mut t, "192.168.1.10");
    assert_eq!(&out1[23..], &out2[..]);
}

#[test]
fn ip6_colons_preserved_hex_replaced() {
    let mut t = Transformer::from_seed(9);
    let input = "2001:db8::1";
    let out = transform_str(&mut t, input);
    assert_eq!(out.len(), 11);
    for (i, &b) in out.iter().enumerate() {
        if i == 4 || i == 8 || i == 9 {
            assert_eq!(b, b':');
        } else {
            assert!(is_hex(b));
            assert_ne!(b, b':');
        }
    }
    assert_eq!(t.stats.ip6, 1);
}

#[test]
fn query_values_replaced_names_untouched() {
    let mut t = Transformer::from_seed(3);
    let input = "/search?q=secret&id=42";
    let out = transform_str(&mut t, input);
    assert_eq!(out.len(), input.len());
    assert_eq!(&out[..10], "/search?q=".as_bytes());
    for &b in &out[10..16] {
        assert!(is_base36(b));
    }
    assert_eq!(&out[16..20], "&id=".as_bytes());
    for &b in &out[20..22] {
        assert!(is_base36(b));
    }
    assert_eq!(t.stats.query_values, 2);
}

#[test]
fn loopback_untouched_other_address_anonymized() {
    let mut t = Transformer::from_seed(5);
    let input = "from 127.0.0.1 to 10.0.0.5";
    let out = transform_str(&mut t, input);
    assert_eq!(out.len(), input.len());
    assert_eq!(&out[..14], "from 127.0.0.1".as_bytes());
    assert_eq!(&out[14..18], " to ".as_bytes());
    let other = &out[18..];
    assert_eq!(other.len(), 8);
    for (i, &b) in other.iter().enumerate() {
        if i == 2 || i == 4 || i == 6 {
            assert_eq!(b, b'.');
        } else {
            assert!(is_digit(b));
        }
    }
    assert_eq!(t.stats.ip4, 2);
}

#[test]
fn plain_line_passes_through_unchanged() {
    let mut t = Transformer::from_seed(1);
    let input = "nothing interesting here, just words and 1234 numbers";
    let out = transform_str(&mut t, input);
    assert_eq!(out, input.as_bytes().to_vec());
    assert_eq!(t.stats.ip4, 0);
    assert_eq!(t.stats.ip6, 0);
    assert_eq!(t.stats.query_values, 0);
    assert_eq!(t.stats.lines, 1);
}

#[test]
fn date_like_token_is_not_an_ip6_match() {
    let mut t = Transformer::from_seed(11);
    let input = "time 12:30:45 ok";
    let out = transform_str(&mut t, input);
    assert_eq!(out, input.as_bytes().to_vec());
    assert_eq!(t.stats.ip6, 0);
}

#[test]
fn same_seed_same_input_gives_identical_output() {
    let lines = [
        "GET /a?user=alice&tok=deadbeef HTTP/1.1\" 10.1.2.3",
        "peer 2001:db8::8a2e:370:7334 again 10.1.2.3",
        "time 12:30:45 nothing",
    ];
    let mut t1 = Transformer::from_seed(777);
    let mut t2 = Transformer::from_seed(777);
    for l in lines.iter() {
        let o1 = transform_str(&mut t1, l);
        let o2 = transform_str(&mut t2, l);
        assert_eq!(o1, o2);
    }
}

#[test]
fn repeated_original_in_one_line_gets_one_replacement() {
    let mut t = Transformer::from_seed(100);
    let out = transform_str(&mut t, "10.0.0.5 10.0.0.5");
    assert_eq!(out.len(), 17);
    assert_eq!(&out[..8], &out[9..]);
    assert_eq!(out[8], b' ');
}

#[test]
fn anonymize_ip4_draws_stay_in_their_bases() {
    let mut t = Transformer::from_seed(2);
    let mut v = "255.255.255.255".as_bytes().to_vec();
    t.anonymize_ip4(&mut v);
    assert_eq!(v.len(), 15);
    for (i, &b) in v.iter().enumerate() {
        if i == 3 || i == 7 || i == 11 {
            assert_eq!(b, b'.');
        } else {
            assert!(is_digit(b));
        }
    }
    // The tens place of each group is drawn below five, so a 5 there cannot
    // survive; this fails if the draw were echoed back or out of range.
    assert!(v[1] <= b'4');
    assert!(v[5] <= b'4');
    assert!(v[9] <= b'4');
    assert!(v[13] <= b'4');
}

#[test]
fn anonymize_query_value_is_idempotent_per_original() {
    let mut t = Transformer::from_seed(8);
    let mut a = "secret".as_bytes().to_vec();
    t.anonymize_query_value(&mut a);
    assert_eq!(a.len(), 6);
    for &b in &a {
        assert!(is_base36(b));
    }
    let mut b2 = "secret".as_bytes().to_vec();
    t.anonymize_query_value(&mut b2);
    assert_eq!(a, b2);
}

#[test]
fn embedded_quad_is_claimed_by_the_ip6_pass() {
    let mut t = Transformer::from_seed(6);
    let input = "x ::ffff:10.1.1.1 y";
    let out = transform_str(&mut t, input);
    assert_eq!(out.len(), input.len());
    assert_eq!(t.stats.ip6, 1);
    assert_eq!(t.stats.ip4, 0);
    // Every non-colon byte of the address, its dots included, became hex.
    for &b in &out[2..17] {
        assert!(b == b':' || is_hex(b));
        assert_ne!(b, b'.');
    }
}

#[test]
fn counters_track_all_three_categories() {
    let mut t = Transformer::from_seed(12);
    let out = transform_str(&mut t, "/a?x=1 1.2.3.4 ::1");
    assert_eq!(out.len(), 18);
    assert_eq!(t.stats.ip4, 1);
    assert_eq!(t.stats.ip6, 1);
    assert_eq!(t.stats.query_values, 1);
    assert_eq!(t.stats.lines, 1);
    let _ = transform_str(&mut t, "no match");
    assert_eq!(t.stats.lines, 2);
}

#[test]
fn ip4_pass_alone_touches_only_ip4_matches() {
    let mut t = Transformer::from_seed(21);
    let mut line = "::1 and 1.2.3.4".as_bytes().to_vec();
    t.transform_all_ip4(&mut line);
    assert_eq!(line.len(), 15);
    assert_eq!(&line[..8], "::1 and ".as_bytes());
    for (i, &b) in line[8..].iter().enumerate() {
        if i == 1 || i == 3 || i == 5 {
            assert_eq!(b, b'.');
        } else {
            assert!(is_digit(b));
        }
    }
    assert_eq!(t.stats.ip4, 1);
    assert_eq!(t.stats.ip6, 0);
}

#[test]
fn ip6_pass_alone_touches_only_ip6_matches() {
    let mut t = Transformer::from_seed(22);
    let mut line = "1.2.3.4 and fe80::1".as_bytes().to_vec();
    t.transform_all_ip6(&mut line);
    assert_eq!(&line[..12], "1.2.3.4 and ".as_bytes());
    for (i, &b) in line[12..].iter().enumerate() {
        if i == 4 || i == 5 {
            assert_eq!(b, b':');
        } else {
            assert!(is_hex(b));
        }
    }
    assert_eq!(t.stats.ip6, 1);
    assert_eq!(t.stats.ip4, 0);
}

#[test]
fn query_pass_alone_needs_a_candidate_path() {
    let mut t = Transformer::from_seed(23);
    let mut line = "key=value with no path".as_bytes().to_vec();
    t.transform_all_queries(&mut line);
    assert_eq!(line, "key=value with no path".as_bytes().to_vec());
    assert_eq!(t.stats.query_values, 0);
}

#[test]
fn greedy_scan_takes_the_longest_valid_suffix_of_a_digit_run() {
    let mut t = Transformer::from_seed(24);
    let out = transform_str(&mut t, "1234.5.6.78");
    // "1234" is no group, so the match starts inside the run: "234.5.6.78".
    assert_eq!(out[0], b'1');
    for (i, &b) in out.iter().enumerate().skip(1) {
        if i == 4 || i == 6 || i == 8 {
            assert_eq!(b, b'.');
        } else {
            assert!(is_digit(b));
        }
    }
    assert_eq!(t.stats.ip4, 1);
}

#[test]
fn empty_line_is_counted_and_unchanged() {
    let mut t = Transformer::from_seed(30);
    let out = transform_str(&mut t, "");
    assert_eq!(out.len(), 0);
    assert_eq!(t.stats.lines, 1);
    assert_eq!(t.stats.ip4, 0);
    assert_eq!(t.stats.ip6, 0);
    assert_eq!(t.stats.query_values, 0);
}

#[test]
fn shortest_ip6_form_is_matched() {
    let mut t = Transformer::from_seed(31);
    let out = transform_str(&mut t, "a :: b");
    assert_eq!(out.len(), 6);
    assert_eq!(&out[..2], "a ".as_bytes());
    assert_eq!(&out[2..4], "::".as_bytes());
    assert_eq!(&out[4..], " b".as_bytes());
    assert_eq!(t.stats.ip6, 1);
}

#[test]
fn longest_ip6_form_is_matched_whole() {
    let mut t = Transformer::from_seed(32);
    let input = "0000:0000:0000:0000:0000:0000:255.255.255.255";
    assert_eq!(input.len(), 45);
    let out = transform_str(&mut t, input);
    assert_eq!(out.len(), 45);
    assert_eq!(t.stats.ip6, 1);
    assert_eq!(t.stats.ip4, 0);
    for (i, &b) in out.iter().enumerate() {
        if input.as_bytes()[i] == b':' {
            assert_eq!(b, b':');
        } else {
            assert!(is_hex(b));
        }
    }
}

#[test]
fn empty_original_yields_empty_replacement() {
    let mut t = Transformer::from_seed(33);
    let mut v: Vec<u8> = Vec::new();
    t.anonymize_query_value(&mut v);
    assert_eq!(v.len(), 0);
}

#[test]
fn loopback_as_query_value_passes_through() {
    let mut t = Transformer::from_seed(40);
    let input = "/s?ip=127.0.0.1&user=bob";
    let out = transform_str(&mut t, input);
    assert_eq!(out.len(), input.len());
    // The query pass matches the loopback text as a value, hits the
    // whitelist, and leaves it; the other value is replaced.
    assert_eq!(&out[..15], "/s?ip=127.0.0.1".as_bytes());
    assert_eq!(&out[15..21], "&user=".as_bytes());
    for &b in &out[21..] {
        assert!(is_base36(b));
    }
    assert_eq!(t.stats.query_values, 2);
    assert_eq!(t.stats.ip4, 1);
}

#[test]
fn ip4_replacement_is_again_a_valid_address() {
    let mut t = Transformer::from_seed(41);
    for addr in ["255.255.255.255", "192.168.1.10", "0.0.0.0", "99.9.199.249"] {
        let mut v = addr.as_bytes().to_vec();
        t.anonymize_ip4(&mut v);
        assert!(check_ip4(&v), "replacement of {} is not a valid dotted quad", addr);
    }
}
