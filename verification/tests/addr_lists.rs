use tcp_over_ws::addr::{parse_many_socket_addr, parse_one_socket_addr, SockAddr};

fn v4(a: u8, b: u8, c: u8, d: u8, port: u16) -> SockAddr {
    SockAddr::V4 { a, b, c, d, port }
}

fn v6(segs: [u16; 8], port: u16) -> SockAddr {
    SockAddr::V6 { segs: segs.to_vec(), port }
}

#[test]
fn bare_port_gives_both_loopbacks() {
    let r = parse_many_socket_addr("9601");
    assert_eq!(r, vec![v4(127, 0, 0, 1, 9601), v6([0, 0, 0, 0, 0, 0, 0, 1], 9601)]);
}

#[test]
fn mixed_list_gives_four() {
    let r = parse_many_socket_addr("127.0.0.1:9601;[::1]:9601, 9602");
    assert_eq!(
        r,
        vec![
            v4(127, 0, 0, 1, 9601),
            v6([0, 0, 0, 0, 0, 0, 0, 1], 9601),
            v4(127, 0, 0, 1, 9602),
            v6([0, 0, 0, 0, 0, 0, 0, 1], 9602),
        ]
    );
}

#[test]
fn garbage_tokens_are_dropped() {
    assert_eq!(parse_many_socket_addr("nonsense"), vec![]);
    assert_eq!(parse_many_socket_addr("300.1.1.1:80"), vec![]);
    assert_eq!(parse_many_socket_addr("1.2.3.4:70000"), vec![]);
    assert_eq!(parse_many_socket_addr("1.2.3:80"), vec![]);
    assert_eq!(parse_many_socket_addr("70000"), vec![]);
    assert_eq!(parse_many_socket_addr(""), vec![]);
    assert_eq!(parse_many_socket_addr(" ; , "), vec![]);
    assert_eq!(
        parse_many_socket_addr("bad, 1.2.3.4:80"),
        vec![v4(1, 2, 3, 4, 80)]
    );
}

#[test]
fn tokens_are_trimmed() {
    assert_eq!(
        parse_many_socket_addr("\t10.0.0.2:19259 \r\n"),
        vec![v4(10, 0, 0, 2, 19259)]
    );
}

#[test]
fn leading_zero_octets_are_rejected() {
    assert_eq!(parse_many_socket_addr("01.2.3.4:80"), vec![]);
    assert_eq!(parse_many_socket_addr("0.0.0.0:80"), vec![v4(0, 0, 0, 0, 80)]);
}

#[test]
fn full_ipv6_forms() {
    assert_eq!(
        parse_many_socket_addr("[2001:db8:0:0:0:0:2:1]:443"),
        vec![v6([0x2001, 0xdb8, 0, 0, 0, 0, 2, 1], 443)]
    );
    assert_eq!(
        parse_many_socket_addr("[2001:db8::2:1]:443"),
        vec![v6([0x2001, 0xdb8, 0, 0, 0, 0, 2, 1], 443)]
    );
    assert_eq!(
        parse_many_socket_addr("[::]:80"),
        vec![v6([0, 0, 0, 0, 0, 0, 0, 0], 80)]
    );
    assert_eq!(
        parse_many_socket_addr("[fe80::]:80"),
        vec![v6([0xfe80, 0, 0, 0, 0, 0, 0, 0], 80)]
    );
    assert_eq!(parse_many_socket_addr("[:::1]:80"), vec![]);
    assert_eq!(parse_many_socket_addr("[1:2:3:4:5:6:7]:80"), vec![]);
    assert_eq!(parse_many_socket_addr("[1:2:3:4:5:6:7:8:9]:80"), vec![]);
    assert_eq!(parse_many_socket_addr("[12345::1]:80"), vec![]);
}

#[test]
fn parse_one_takes_the_first_entry() {
    assert_eq!(parse_one_socket_addr("9601"), Some(v4(127, 0, 0, 1, 9601)));
    assert_eq!(
        parse_one_socket_addr(" 127.0.0.1:19259 "),
        Some(v4(127, 0, 0, 1, 19259))
    );
    assert_eq!(
        parse_one_socket_addr("[::1]:19259"),
        Some(v6([0, 0, 0, 0, 0, 0, 0, 1], 19259))
    );
    assert_eq!(parse_one_socket_addr("junk"), None);
}

#[test]
fn v4_round_trip_on_text() {
    // the text of an address parses back to the same address
    let cases = vec![
        (0u8, 0u8, 0u8, 0u8, 0u16),
        (127, 0, 0, 1, 9601),
        (255, 255, 255, 255, 65535),
        (10, 20, 30, 40, 8080),
    ];
    for (a, b, c, d, p) in cases {
        let text = format!("{}.{}.{}.{}:{}", a, b, c, d, p);
        assert_eq!(parse_one_socket_addr(&text), Some(v4(a, b, c, d, p)));
    }
}

#[test]
fn v6_round_trip_on_text() {
    let segs: [u16; 8] = [0x2001, 0xdb8, 0, 1, 0xffff, 0xabc, 2, 1];
    let text = format!(
        "[{:x}:{:x}:{:x}:{:x}:{:x}:{:x}:{:x}:{:x}]:443",
        segs[0], segs[1], segs[2], segs[3], segs[4], segs[5], segs[6], segs[7]
    );
    assert_eq!(parse_one_socket_addr(&text), Some(v6(segs, 443)));
}
