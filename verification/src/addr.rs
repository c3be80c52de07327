use vstd::prelude::*;

use crate::dec::{all_dec_digits, dec_val, is_dec_digit, lemma_dec_roundtrip, lemma_dec_val_nonneg,
    parse_u64_dec, spec_fmt_u64, spec_parse_u64};
use vstd::string::StringSliceAdditionalSpecFns;

verus! {

/// A socket address of the library's own: IPv4 octets or IPv6 segments as
/// plain integers, plus a port.
#[derive(Debug, Clone, PartialEq, Eq)]
pub enum SockAddr {
    V4 { a: u8, b: u8, c: u8, d: u8, port: u16 },
    V6 { segs: Vec<u16>, port: u16 },
}

/// Mathematical image of a [`SockAddr`].
pub ghost enum AddrV {
    V4 { a: u8, b: u8, c: u8, d: u8, port: u16 },
    V6 { segs: Seq<u16>, port: u16 },
}

impl View for SockAddr {
    type V = AddrV;

    closed spec fn view(&self) -> AddrV {
        match self {
            SockAddr::V4 { a, b, c, d, port } => AddrV::V4 {
                a: *a,
                b: *b,
                c: *c,
                d: *d,
                port: *port,
            },
            SockAddr::V6 { segs, port } => AddrV::V6 { segs: segs@, port: *port },
        }
    }
}

impl AddrV {
    /// An IPv6 address has exactly eight 16-bit segments.
    pub open spec fn wf(self) -> bool {
        match self {
            AddrV::V4 { .. } => true,
            AddrV::V6 { segs, .. } => segs.len() == 8,
        }
    }
}

// ---------- byte classes ----------

/// Endpoint-list separators: `;`, `,`, space.
pub open spec fn is_sep(b: u8) -> bool {
    b == 59 || b == 44 || b == 32
}

/// ASCII whitespace stripped from a token's ends.
pub open spec fn is_space(b: u8) -> bool {
    b == 32 || b == 9 || b == 13 || b == 10
}

pub open spec fn is_hex_digit(b: u8) -> bool {
    is_dec_digit(b) || (97 <= b <= 102) || (65 <= b <= 70)
}

pub open spec fn hex_digit_val(b: u8) -> int {
    if is_dec_digit(b) {
        b - 48
    } else if 97 <= b <= 102 {
        b - 87
    } else {
        b - 55
    }
}

pub open spec fn all_hex_digits(s: Seq<u8>) -> bool {
    s.len() > 0 && forall|i: int| 0 <= i < s.len() ==> is_hex_digit(#[trigger] s[i])
}

/// Value of a hex digit string, most significant digit first.
pub open spec fn hex_val(s: Seq<u8>) -> int
    decreases s.len(),
{
    if s.len() == 0 {
        0
    } else {
        hex_val(s.drop_last()) * 16 + hex_digit_val(s.last())
    }
}

// ---------- scanning ----------

/// Index of the first occurrence of `b`, or the length when absent.
pub open spec fn find_byte(s: Seq<u8>, b: u8) -> nat
    decreases s.len(),
{
    if s.len() == 0 {
        0
    } else if s[0] == b {
        0
    } else {
        1 + find_byte(s.skip(1), b)
    }
}

pub proof fn lemma_find_byte(s: Seq<u8>, b: u8)
    ensures
        find_byte(s, b) <= s.len(),
        find_byte(s, b) < s.len() ==> s[find_byte(s, b) as int] == b,
        forall|k: int| 0 <= k < find_byte(s, b) ==> s[k] != b,
    decreases s.len(),
{
    if s.len() > 0 && s[0] != b {
        lemma_find_byte(s.skip(1), b);
        assert forall|k: int| 0 <= k < find_byte(s, b) implies s[k] != b by {
            if k >= 1 {
                assert(s.skip(1)[k - 1] == s[k]);
                assert(k - 1 < find_byte(s.skip(1), b));
            }
        }
    }
}

/// Index of the first separator, or the length when there is none.
pub open spec fn find_sep(s: Seq<u8>) -> nat
    decreases s.len(),
{
    if s.len() == 0 {
        0
    } else if is_sep(s[0]) {
        0
    } else {
        1 + find_sep(s.skip(1))
    }
}

pub proof fn lemma_find_sep(s: Seq<u8>)
    ensures
        find_sep(s) <= s.len(),
        find_sep(s) < s.len() ==> is_sep(s[find_sep(s) as int]),
        forall|k: int| 0 <= k < find_sep(s) ==> !is_sep(s[k]),
    decreases s.len(),
{
    if s.len() > 0 && !is_sep(s[0]) {
        lemma_find_sep(s.skip(1));
        assert forall|k: int| 0 <= k < find_sep(s) implies !is_sep(s[k]) by {
            if k >= 1 {
                assert(s.skip(1)[k - 1] == s[k]);
                assert(k - 1 < find_sep(s.skip(1)));
            }
        }
    }
}

/// Index of the first `::`, or the length when there is none.
pub open spec fn find_dcolon(s: Seq<u8>) -> nat
    decreases s.len(),
{
    if s.len() < 2 {
        s.len()
    } else if s[0] == 58 && s[1] == 58 {
        0
    } else {
        1 + find_dcolon(s.skip(1))
    }
}

pub proof fn lemma_find_dcolon(s: Seq<u8>)
    ensures
        find_dcolon(s) <= s.len(),
        find_dcolon(s) < s.len() - 1 ==> s[find_dcolon(s) as int] == 58 && s[find_dcolon(s) as int + 1] == 58,
        forall|k: int|
            0 <= k < find_dcolon(s) && k < s.len() - 1 ==> !((#[trigger] s[k]) == 58 && s[k + 1]
                == 58),
        find_dcolon(s) != s.len() ==> find_dcolon(s) < s.len() - 1,
    decreases s.len(),
{
    if s.len() >= 2 && !(s[0] == 58 && s[1] == 58) {
        lemma_find_dcolon(s.skip(1));
        assert forall|k: int|
            0 <= k < find_dcolon(s) && k < s.len() - 1 implies !((#[trigger] s[k]) == 58 && s[k
            + 1] == 58) by {
            if k >= 1 {
                assert(s.skip(1)[k - 1] == s[k]);
                assert(s.skip(1)[k] == s[k + 1]);
                assert(k - 1 < find_dcolon(s.skip(1)));
            }
        }
    }
}

// ---------- digit-string bounds ----------

pub proof fn lemma_dec_val_len(s: Seq<u8>)
    requires
        forall|i: int| 0 <= i < s.len() ==> is_dec_digit(#[trigger] s[i]),
    ensures
        s.len() == 0 ==> dec_val(s) == 0,
        s.len() == 1 ==> dec_val(s) <= 9,
        s.len() == 2 ==> dec_val(s) <= 99,
        s.len() == 3 ==> dec_val(s) <= 999,
        dec_val(s) >= 0,
    decreases s.len(),
{
    lemma_dec_val_nonneg(s);
    if s.len() > 0 {
        lemma_dec_val_len(s.drop_last());
    }
}

pub proof fn lemma_hex_val_len(s: Seq<u8>)
    requires
        forall|i: int| 0 <= i < s.len() ==> is_hex_digit(#[trigger] s[i]),
    ensures
        s.len() == 0 ==> hex_val(s) == 0,
        s.len() == 1 ==> hex_val(s) <= 15,
        s.len() == 2 ==> hex_val(s) <= 255,
        s.len() == 3 ==> hex_val(s) <= 4095,
        s.len() == 4 ==> hex_val(s) <= 65535,
        hex_val(s) >= 0,
    decreases s.len(),
{
    if s.len() > 0 {
        lemma_hex_val_len(s.drop_last());
    }
}

// ---------- token grammar ----------

/// A port: decimal digits valued at most 65535.
pub open spec fn spec_parse_port(s: Seq<u8>) -> Option<u16> {
    match spec_parse_u64(s) {
        Option::Some(v) => if v <= 65535 {
            Some(v as u16)
        } else {
            None
        },
        Option::None => None,
    }
}

/// An IPv4 octet: one to three digits, no leading zero, at most 255.
pub open spec fn spec_parse_octet(s: Seq<u8>) -> Option<u8> {
    if all_dec_digits(s) && s.len() <= 3 && (s.len() > 1 ==> s[0] != 48) && dec_val(s) <= 255 {
        Some(dec_val(s) as u8)
    } else {
        None
    }
}

/// Dot-separated octets, each valid.
pub open spec fn spec_parse_octets(s: Seq<u8>) -> Option<Seq<u8>>
    decreases s.len(),
{
    let i = find_byte(s, 46);
    if i >= s.len() {
        match spec_parse_octet(s) {
            Option::Some(o) => Some(seq![o]),
            Option::None => None,
        }
    } else {
        match spec_parse_octet(s.take(i as int)) {
            Option::Some(o) => match spec_parse_octets(s.skip(i as int + 1)) {
                Option::Some(rest) => Some(seq![o] + rest),
                Option::None => None,
            },
            Option::None => None,
        }
    }
}

/// An IPv4 host: exactly four octets. No valid one is longer than 15 bytes.
pub open spec fn spec_parse_v4host(s: Seq<u8>) -> Option<(u8, u8, u8, u8)> {
    if s.len() > 15 {
        None
    } else {
        match spec_parse_octets(s) {
            Option::Some(os) => if os.len() == 4 {
                Some((os[0], os[1], os[2], os[3]))
            } else {
                None
            },
            Option::None => None,
        }
    }
}

/// An IPv6 group: one to four hex digits.
pub open spec fn spec_parse_hexgroup(s: Seq<u8>) -> Option<u16> {
    if all_hex_digits(s) && s.len() <= 4 {
        Some(hex_val(s) as u16)
    } else {
        None
    }
}

/// Colon-separated nonempty hex groups, no compression.
pub open spec fn spec_parse_groups(s: Seq<u8>) -> Option<Seq<u16>>
    decreases s.len(),
{
    let i = find_byte(s, 58);
    if i >= s.len() {
        match spec_parse_hexgroup(s) {
            Option::Some(g) => Some(seq![g]),
            Option::None => None,
        }
    } else {
        match spec_parse_hexgroup(s.take(i as int)) {
            Option::Some(g) => match spec_parse_groups(s.skip(i as int + 1)) {
                Option::Some(rest) => Some(seq![g] + rest),
                Option::None => None,
            },
            Option::None => None,
        }
    }
}

pub open spec fn zero_segs(n: int) -> Seq<u16> {
    Seq::new(n as nat, |i: int| 0u16)
}

/// An IPv6 host: eight groups outright, or head `::` tail with the gap
/// filled by zero groups. No valid one is longer than 39 bytes.
pub open spec fn spec_parse_v6host(s: Seq<u8>) -> Option<Seq<u16>> {
    if s.len() > 39 {
        None
    } else {
        let j = find_dcolon(s);
        if j == s.len() {
            match spec_parse_groups(s) {
                Option::Some(gs) => if gs.len() == 8 {
                    Some(gs)
                } else {
                    None
                },
                Option::None => None,
            }
        } else {
            let head = if j == 0 {
                Some(Seq::<u16>::empty())
            } else {
                spec_parse_groups(s.take(j as int))
            };
            let tail = if j + 2 == s.len() {
                Some(Seq::<u16>::empty())
            } else {
                spec_parse_groups(s.skip(j as int + 2))
            };
            match (head, tail) {
                (Option::Some(h), Option::Some(t)) => if h.len() + t.len() <= 7 {
                    Some(h + zero_segs(8 - h.len() - t.len()) + t)
                } else {
                    None
                },
                _ => None,
            }
        }
    }
}

/// A full socket-address token: `a.b.c.d:port` or `[v6]:port`.
pub open spec fn spec_parse_sockaddr(t: Seq<u8>) -> Option<AddrV> {
    if t.len() == 0 {
        None
    } else if t[0] == 91 {
        let j = find_byte(t, 93);
        if j == t.len() || j + 1 >= t.len() || t[j as int + 1] != 58 {
            None
        } else {
            match (spec_parse_v6host(t.subrange(1, j as int)), spec_parse_port(t.skip(j as int + 2))) {
                (Option::Some(segs), Option::Some(p)) => Some(AddrV::V6 { segs, port: p }),
                _ => None,
            }
        }
    } else {
        let j = find_byte(t, 58);
        if j == t.len() {
            None
        } else {
            match (spec_parse_v4host(t.take(j as int)), spec_parse_port(t.skip(j as int + 1))) {
                (Option::Some(o), Option::Some(p)) => Some(
                    AddrV::V4 { a: o.0, b: o.1, c: o.2, d: o.3, port: p },
                ),
                _ => None,
            }
        }
    }
}

/// The IPv4 loopback on a port.
pub open spec fn loop4(p: u16) -> AddrV {
    AddrV::V4 { a: 127, b: 0, c: 0, d: 1, port: p }
}

/// The IPv6 loopback on a port.
pub open spec fn loop6(p: u16) -> AddrV {
    AddrV::V6 { segs: zero_segs(7).push(1u16), port: p }
}

/// What one trimmed token contributes: nothing when empty or invalid, both
/// loopbacks for a bare port, the address itself otherwise.
pub open spec fn spec_token_addrs(t: Seq<u8>) -> Seq<AddrV> {
    if t.len() == 0 {
        Seq::empty()
    } else {
        match spec_parse_port(t) {
            Option::Some(p) => seq![loop4(p), loop6(p)],
            Option::None => match spec_parse_sockaddr(t) {
                Option::Some(a) => seq![a],
                Option::None => Seq::empty(),
            },
        }
    }
}

/// Leading and trailing ASCII whitespace removed.
pub open spec fn spec_trim(s: Seq<u8>) -> Seq<u8>
    decreases s.len(),
{
    if s.len() == 0 {
        s
    } else if is_space(s[0]) {
        spec_trim(s.skip(1))
    } else if is_space(s.last()) {
        spec_trim(s.drop_last())
    } else {
        s
    }
}

/// The whole endpoint list: tokens split on separators, each trimmed and
/// parsed, their addresses in order.
pub open spec fn spec_parse_many(s: Seq<u8>) -> Seq<AddrV>
    decreases s.len(),
{
    let i = find_sep(s);
    if i >= s.len() {
        spec_token_addrs(spec_trim(s))
    } else {
        spec_token_addrs(spec_trim(s.take(i as int))) + spec_parse_many(s.skip(i as int + 1))
    }
}

/// The whole input taken as one token; the first address it yields.
pub open spec fn spec_parse_one(s: Seq<u8>) -> Option<AddrV> {
    let ts = spec_token_addrs(spec_trim(s));
    if ts.len() > 0 {
        Some(ts[0])
    } else {
        None
    }
}

// ---------- executable parsing ----------

pub open spec fn addr_views(v: Seq<SockAddr>) -> Seq<AddrV> {
    v.map_values(|a: SockAddr| a@)
}

pub open spec fn opt_addr_view(r: Option<SockAddr>) -> Option<AddrV> {
    match r {
        Option::Some(a) => Some(a@),
        Option::None => None,
    }
}

fn bytes_range(s: &[u8], i: usize, j: usize) -> (r: Vec<u8>)
    requires
        i <= j <= s@.len(),
    ensures
        r@ == s@.subrange(i as int, j as int),
{
    let mut r: Vec<u8> = Vec::new();
    let mut k: usize = i;
    while k < j
        invariant
            i <= k <= j <= s@.len(),
            r@ == s@.subrange(i as int, k as int),
        decreases j - k,
    {
        r.push(s[k]);
        proof {
            assert(r@ =~= s@.subrange(i as int, k + 1));
        }
        k += 1;
    }
    r
}

fn scan_byte(s: &[u8], b: u8) -> (r: usize)
    ensures
        r == find_byte(s@, b),
{
    proof {
        lemma_find_byte(s@, b);
    }
    let mut i: usize = 0;
    while i < s.len()
        invariant
            0 <= i <= s@.len(),
            forall|k: int| 0 <= k < i ==> s@[k] != b,
            find_byte(s@, b) <= s@.len(),
            find_byte(s@, b) < s@.len() ==> s@[find_byte(s@, b) as int] == b,
            forall|k: int| 0 <= k < find_byte(s@, b) ==> s@[k] != b,
        decreases s@.len() - i,
    {
        if s[i] == b {
            return i;
        }
        i += 1;
    }
    i
}

fn scan_sep(s: &[u8]) -> (r: usize)
    ensures
        r == find_sep(s@),
{
    proof {
        lemma_find_sep(s@);
    }
    let mut i: usize = 0;
    while i < s.len()
        invariant
            0 <= i <= s@.len(),
            forall|k: int| 0 <= k < i ==> !is_sep(s@[k]),
            find_sep(s@) <= s@.len(),
            find_sep(s@) < s@.len() ==> is_sep(s@[find_sep(s@) as int]),
            forall|k: int| 0 <= k < find_sep(s@) ==> !is_sep(s@[k]),
        decreases s@.len() - i,
    {
        let c = s[i];
        if c == 59 || c == 44 || c == 32 {
            return i;
        }
        i += 1;
    }
    i
}

fn scan_dcolon(s: &[u8]) -> (r: usize)
    ensures
        r == find_dcolon(s@),
{
    proof {
        lemma_find_dcolon(s@);
    }
    if s.len() < 2 {
        return s.len();
    }
    let mut i: usize = 0;
    while i + 1 < s.len()
        invariant
            s@.len() >= 2,
            s@.len() <= usize::MAX,
            0 <= i <= s@.len() - 1,
            forall|k: int|
                0 <= k < i ==> !((#[trigger] s@[k]) == 58 && s@[k + 1] == 58),
            find_dcolon(s@) <= s@.len(),
            find_dcolon(s@) < s@.len() - 1 ==> s@[find_dcolon(s@) as int] == 58 && s@[
                find_dcolon(s@) as int + 1] == 58,
            forall|k: int|
                0 <= k < find_dcolon(s@) && k < s@.len() - 1 ==> !((#[trigger] s@[k]) == 58
                    && s@[k + 1] == 58),
            find_dcolon(s@) != s@.len() ==> find_dcolon(s@) < s@.len() - 1,
        decreases s@.len() - i,
    {
        if s[i] == 58 && s[i + 1] == 58 {
            return i;
        }
        i += 1;
    }
    s.len()
}

/// Parses a port number token.
pub fn parse_port(s: &[u8]) -> (r: Option<u16>)
    ensures
        r == spec_parse_port(s@),
{
    match parse_u64_dec(s) {
        Option::Some(v) => if v <= 65535 {
            Some(v as u16)
        } else {
            None
        },
        Option::None => None,
    }
}

fn parse_octet(s: &[u8]) -> (r: Option<u8>)
    ensures
        r == spec_parse_octet(s@),
{
    if s.len() == 0 || s.len() > 3 {
        return None;
    }
    if s.len() > 1 && s[0] == 48 {
        return None;
    }
    proof {
        if all_dec_digits(s@) {
            lemma_dec_val_len(s@);
        }
    }
    match parse_u64_dec(s) {
        Option::Some(v) => if v <= 255 {
            Some(v as u8)
        } else {
            None
        },
        Option::None => None,
    }
}

fn parse_hexgroup(s: &[u8]) -> (r: Option<u16>)
    ensures
        r == spec_parse_hexgroup(s@),
{
    if s.len() == 0 || s.len() > 4 {
        return None;
    }
    let mut acc: u32 = 0;
    let mut i: usize = 0;
    while i < s.len()
        invariant
            0 <= i <= s@.len() <= 4,
            forall|k: int| 0 <= k < i ==> is_hex_digit(#[trigger] s@[k]),
            acc == hex_val(s@.take(i as int)),
            0 <= acc <= 65535,
        decreases s@.len() - i,
    {
        let b = s[i];
        let d: u32 = if 48 <= b && b <= 57 {
            (b - 48) as u32
        } else if 97 <= b && b <= 102 {
            (b - 87) as u32
        } else if 65 <= b && b <= 70 {
            (b - 55) as u32
        } else {
            return None;
        };
        proof {
            assert(s@.take(i + 1).drop_last() =~= s@.take(i as int));
            assert(s@.take(i + 1).last() == s@[i as int]);
            lemma_hex_val_len(s@.take(i + 1));
        }
        acc = acc * 16 + d;
        i += 1;
    }
    proof {
        assert(s@.take(s@.len() as int) =~= s@);
    }
    Some(acc as u16)
}

fn parse_octets(s: &[u8]) -> (r: Option<Vec<u8>>)
    ensures
        (r is Some) == (spec_parse_octets(s@) is Some),
        (r matches Some(v) ==> Some(v@) == spec_parse_octets(s@)),
    decreases s@.len(),
{
    let i = scan_byte(s, 46);
    if i >= s.len() {
        match parse_octet(s) {
            Option::Some(o) => {
                let mut v: Vec<u8> = Vec::new();
                v.push(o);
                proof {
                    assert(v@ =~= seq![o]);
                }
                Some(v)
            },
            Option::None => None,
        }
    } else {
        let head = bytes_range(s, 0, i);
        proof {
            assert(head@ =~= s@.take(i as int));
        }
        match parse_octet(head.as_slice()) {
            Option::Some(o) => {
                let rest = bytes_range(s, i + 1, s.len());
                proof {
                    assert(rest@ =~= s@.skip(i as int + 1));
                }
                match parse_octets(rest.as_slice()) {
                    Option::Some(mut rv) => {
                        let ghost rv0 = rv@;
                        rv.insert(0, o);
                        proof {
                            assert(rv@ =~= seq![o] + rv0);
                        }
                        Some(rv)
                    },
                    Option::None => None,
                }
            },
            Option::None => None,
        }
    }
}

fn parse_v4host(s: &[u8]) -> (r: Option<(u8, u8, u8, u8)>)
    ensures
        r == spec_parse_v4host(s@),
{
    if s.len() > 15 {
        return None;
    }
    match parse_octets(s) {
        Option::Some(v) => if v.len() == 4 {
            Some((v[0], v[1], v[2], v[3]))
        } else {
            None
        },
        Option::None => None,
    }
}

fn parse_groups(s: &[u8]) -> (r: Option<Vec<u16>>)
    ensures
        (r is Some) == (spec_parse_groups(s@) is Some),
        (r matches Some(v) ==> Some(v@) == spec_parse_groups(s@)),
    decreases s@.len(),
{
    let i = scan_byte(s, 58);
    if i >= s.len() {
        match parse_hexgroup(s) {
            Option::Some(g) => {
                let mut v: Vec<u16> = Vec::new();
                v.push(g);
                proof {
                    assert(v@ =~= seq![g]);
                }
                Some(v)
            },
            Option::None => None,
        }
    } else {
        let head = bytes_range(s, 0, i);
        proof {
            assert(head@ =~= s@.take(i as int));
        }
        match parse_hexgroup(head.as_slice()) {
            Option::Some(g) => {
                let rest = bytes_range(s, i + 1, s.len());
                proof {
                    assert(rest@ =~= s@.skip(i as int + 1));
                }
                match parse_groups(rest.as_slice()) {
                    Option::Some(mut rv) => {
                        let ghost rv0 = rv@;
                        rv.insert(0, g);
                        proof {
                            assert(rv@ =~= seq![g] + rv0);
                        }
                        Some(rv)
                    },
                    Option::None => None,
                }
            },
            Option::None => None,
        }
    }
}

fn parse_v6host(s: &[u8]) -> (r: Option<Vec<u16>>)
    ensures
        (r is Some) == (spec_parse_v6host(s@) is Some),
        (r matches Some(v) ==> Some(v@) == spec_parse_v6host(s@)),
{
    if s.len() > 39 {
        return None;
    }
    let j = scan_dcolon(s);
    proof {
        lemma_find_dcolon(s@);
    }
    if j >= s.len() {
        match parse_groups(s) {
            Option::Some(gs) => if gs.len() == 8 {
                Some(gs)
            } else {
                None
            },
            Option::None => None,
        }
    } else {
        let head: Option<Vec<u16>> = if j == 0 {
            Some(Vec::new())
        } else {
            let hb = bytes_range(s, 0, j);
            proof {
                assert(hb@ =~= s@.take(j as int));
            }
            parse_groups(hb.as_slice())
        };
        let tail: Option<Vec<u16>> = if j + 2 >= s.len() {
            Some(Vec::new())
        } else {
            let tb = bytes_range(s, j + 2, s.len());
            proof {
                assert(tb@ =~= s@.skip(j as int + 2));
            }
            parse_groups(tb.as_slice())
        };
        match (head, tail) {
            (Option::Some(mut h), Option::Some(t)) => {
                if h.len() <= 7 && t.len() <= 7 - h.len() {
                    let fill = 8 - h.len() - t.len();
                    let ghost h0 = h@;
                    let mut z: usize = 0;
                    while z < fill
                        invariant
                            0 <= z <= fill,
                            fill == 8 - h0.len() - t@.len(),
                            h0.len() + t@.len() <= 7,
                            h@ =~= h0 + zero_segs(z as int),
                        decreases fill - z,
                    {
                        h.push(0);
                        proof {
                            assert(h@ =~= h0 + zero_segs(z + 1));
                        }
                        z += 1;
                    }
                    let mut w: usize = 0;
                    let ghost h1 = h@;
                    while w < t.len()
                        invariant
                            0 <= w <= t@.len(),
                            h@ =~= h1 + t@.take(w as int),
                        decreases t@.len() - w,
                    {
                        h.push(t[w]);
                        proof {
                            assert(h@ =~= h1 + t@.take(w + 1));
                        }
                        w += 1;
                    }
                    proof {
                        assert(t@.take(t@.len() as int) =~= t@);
                        assert(h@ =~= h0 + zero_segs(8 - h0.len() - t@.len()) + t@);
                    }
                    Some(h)
                } else {
                    None
                }
            },
            _ => None,
        }
    }
}

fn parse_sockaddr_token(t: &[u8]) -> (r: Option<SockAddr>)
    ensures
        opt_addr_view(r) == spec_parse_sockaddr(t@),
{
    if t.len() == 0 {
        return None;
    }
    if t[0] == 91 {
        let j = scan_byte(t, 93);
        proof {
            lemma_find_byte(t@, 93);
        }
        if j >= t.len() || j + 1 >= t.len() || t[j + 1] != 58 {
            return None;
        }
        let hostb = bytes_range(t, 1, j);
        proof {
            assert(hostb@ =~= t@.subrange(1, j as int));
        }
        let portb = bytes_range(t, j + 2, t.len());
        proof {
            assert(portb@ =~= t@.skip(j as int + 2));
        }
        match (parse_v6host(hostb.as_slice()), parse_port(portb.as_slice())) {
            (Option::Some(segs), Option::Some(p)) => Some(SockAddr::V6 { segs, port: p }),
            _ => None,
        }
    } else {
        let j = scan_byte(t, 58);
        proof {
            lemma_find_byte(t@, 58);
        }
        if j >= t.len() {
            return None;
        }
        let hostb = bytes_range(t, 0, j);
        proof {
            assert(hostb@ =~= t@.take(j as int));
        }
        let portb = bytes_range(t, j + 1, t.len());
        proof {
            assert(portb@ =~= t@.skip(j as int + 1));
        }
        match (parse_v4host(hostb.as_slice()), parse_port(portb.as_slice())) {
            (Option::Some(o), Option::Some(p)) => Some(
                SockAddr::V4 { a: o.0, b: o.1, c: o.2, d: o.3, port: p },
            ),
            _ => None,
        }
    }
}

/// The addresses one trimmed token stands for: both loopbacks for a bare
/// port, the named address for a full token, nothing for anything else.
pub fn token_addrs(t: &[u8]) -> (r: Vec<SockAddr>)
    ensures
        addr_views(r@) == spec_token_addrs(t@),
{
    let mut out: Vec<SockAddr> = Vec::new();
    if t.len() == 0 {
        proof {
            assert(addr_views(out@) =~= spec_token_addrs(t@));
        }
        return out;
    }
    match parse_port(t) {
        Option::Some(p) => {
            out.push(SockAddr::V4 { a: 127, b: 0, c: 0, d: 1, port: p });
            let mut segs: Vec<u16> = Vec::new();
            let mut z: usize = 0;
            while z < 7
                invariant
                    0 <= z <= 7,
                    segs@ =~= zero_segs(z as int),
                decreases 7 - z,
            {
                segs.push(0);
                proof {
                    assert(segs@ =~= zero_segs(z + 1));
                }
                z += 1;
            }
            segs.push(1);
            out.push(SockAddr::V6 { segs, port: p });
            proof {
                assert(addr_views(out@) =~= spec_token_addrs(t@));
            }
            out
        },
        Option::None => {
            match parse_sockaddr_token(t) {
                Option::Some(a) => {
                    out.push(a);
                    proof {
                        assert(addr_views(out@) =~= spec_token_addrs(t@));
                    }
                    out
                },
                Option::None => {
                    proof {
                        assert(addr_views(out@) =~= spec_token_addrs(t@));
                    }
                    out
                },
            }
        },
    }
}

/// Strips leading and trailing ASCII whitespace.
fn trim_bytes(s: &[u8]) -> (r: Vec<u8>)
    ensures
        r@ == spec_trim(s@),
{
    let mut lo: usize = 0;
    let mut hi: usize = s.len();
    proof {
        assert(s@.subrange(0, s@.len() as int) =~= s@);
    }
    while lo < hi && (s[lo] == 32 || s[lo] == 9 || s[lo] == 13 || s[lo] == 10)
        invariant
            0 <= lo <= hi <= s@.len(),
            spec_trim(s@) == spec_trim(s@.subrange(lo as int, hi as int)),
        decreases hi - lo,
    {
        proof {
            let sub = s@.subrange(lo as int, hi as int);
            assert(sub.skip(1) =~= s@.subrange(lo + 1, hi as int));
        }
        lo += 1;
    }
    while lo < hi && (s[hi - 1] == 32 || s[hi - 1] == 9 || s[hi - 1] == 13 || s[hi - 1] == 10)
        invariant
            0 <= lo <= hi <= s@.len(),
            spec_trim(s@) == spec_trim(s@.subrange(lo as int, hi as int)),
            lo < hi ==> !is_space(s@[lo as int]),
        decreases hi - lo,
    {
        proof {
            let sub = s@.subrange(lo as int, hi as int);
            assert(sub.drop_last() =~= s@.subrange(lo as int, hi - 1));
        }
        hi -= 1;
    }
    let r = bytes_range(s, lo, hi);
    proof {
        let sub = s@.subrange(lo as int, hi as int);
        if lo == hi {
            assert(sub =~= Seq::<u8>::empty());
        }
        assert(spec_trim(sub) == sub);
    }
    r
}

/// Parses a separator-split endpoint list from raw bytes.
pub fn parse_many_bytes(s: &[u8]) -> (r: Vec<SockAddr>)
    ensures
        addr_views(r@) == spec_parse_many(s@),
{
    let mut out: Vec<SockAddr> = Vec::new();
    let mut pos: usize = 0;
    proof {
        assert(s@.skip(0) =~= s@);
        assert(addr_views(out@) + spec_parse_many(s@) =~= spec_parse_many(s@));
    }
    loop
        invariant
            0 <= pos <= s@.len(),
            addr_views(out@) + spec_parse_many(s@.skip(pos as int)) =~= spec_parse_many(s@),
        decreases s@.len() - pos,
    {
        let rem = bytes_range(s, pos, s.len());
        proof {
            assert(rem@ =~= s@.skip(pos as int));
        }
        let i = scan_sep(rem.as_slice());
        proof {
            lemma_find_sep(rem@);
        }
        let tokv = bytes_range(rem.as_slice(), 0, i);
        let trimmed = trim_bytes(tokv.as_slice());
        let mut addrs = token_addrs(trimmed.as_slice());
        let ghost out0 = out@;
        let ghost addrs0 = addrs@;
        out.append(&mut addrs);
        proof {
            assert(addr_views(out@) =~= addr_views(out0) + addr_views(addrs0));
        }
        if i >= rem.len() {
            proof {
                assert(tokv@ =~= s@.skip(pos as int));
                assert(addr_views(out@) =~= spec_parse_many(s@));
            }
            return out;
        } else {
            proof {
                assert(tokv@ =~= s@.skip(pos as int).take(i as int));
                assert(s@.skip(pos as int).skip(i as int + 1) =~= s@.skip(pos + i + 1));
            }
            pos = pos + i + 1;
        }
    }
}

/// Parses a comma/semicolon/space-separated endpoint list; a bare port
/// yields the two loopbacks, invalid tokens are dropped.
pub fn parse_many_socket_addr(text: &str) -> (r: Vec<SockAddr>)
    ensures
        addr_views(r@) == spec_parse_many(text.spec_bytes()),
{
    parse_many_bytes(text.as_bytes())
}

/// Parses the whole input as one endpoint token and returns its first
/// address, the IPv4 loopback in the bare-port case.
pub fn parse_one_socket_addr(text: &str) -> (r: Option<SockAddr>)
    ensures
        opt_addr_view(r) == spec_parse_one(text.spec_bytes()),
{
    let trimmed = trim_bytes(text.as_bytes());
    let mut addrs = token_addrs(trimmed.as_slice());
    if addrs.len() == 0 {
        None
    } else {
        let a = addrs.remove(0);
        Some(a)
    }
}

// ---------- laws ----------

/// Law: a bare-port token yields exactly the two loopback endpoints, IPv4
/// first, on that port.
pub proof fn lemma_bare_port(p: u16)
    ensures
        spec_token_addrs(spec_fmt_u64(p as nat)) == seq![loop4(p), loop6(p)],
{
    lemma_dec_roundtrip(p as u64);
    assert(spec_token_addrs(spec_fmt_u64(p as nat)) =~= seq![loop4(p), loop6(p)]);
}

pub proof fn lemma_fmt_u64_len(n: nat)
    ensures
        spec_fmt_u64(n).len() >= 1,
        n < 10 ==> spec_fmt_u64(n).len() == 1,
        n < 100 ==> spec_fmt_u64(n).len() <= 2,
        n < 1000 ==> spec_fmt_u64(n).len() <= 3,
        n < 10000 ==> spec_fmt_u64(n).len() <= 4,
        n < 100000 ==> spec_fmt_u64(n).len() <= 5,
    decreases n,
{
    if n >= 10 {
        lemma_fmt_u64_len(n / 10);
    }
}

pub proof fn lemma_fmt_no_leading_zero(n: nat)
    ensures
        spec_fmt_u64(n).len() > 1 ==> spec_fmt_u64(n)[0] != 48,
    decreases n,
{
    if n >= 10 {
        lemma_fmt_no_leading_zero(n / 10);
        lemma_fmt_u64_len(n / 10);
        assert(spec_fmt_u64(n)[0] == spec_fmt_u64(n / 10)[0]);
        if spec_fmt_u64(n / 10).len() == 1 {
            if n / 10 >= 10 {
                lemma_fmt_u64_len(n / 100);
                assert(spec_fmt_u64(n / 10).len() >= 2);
            }
            assert(n / 10 < 10 && n / 10 >= 1);
            assert(spec_fmt_u64(n / 10)[0] == (48 + n / 10) as u8);
        }
    }
}

proof fn lemma_octet_roundtrip(o: u8)
    ensures
        spec_parse_octet(spec_fmt_u64(o as nat)) == Some(o),
{
    lemma_dec_roundtrip(o as u64);
    lemma_fmt_u64_len(o as nat);
    lemma_fmt_no_leading_zero(o as nat);
    lemma_dec_val_nonneg(spec_fmt_u64(o as nat));
    assert(dec_val(spec_fmt_u64(o as nat)) == o);
}

proof fn lemma_port_roundtrip(p: u16)
    ensures
        spec_parse_port(spec_fmt_u64(p as nat)) == Some(p),
{
    lemma_dec_roundtrip(p as u64);
}

/// `find_byte` returns the position of the witnessed first occurrence.
proof fn lemma_find_byte_at(s: Seq<u8>, b: u8, i: int)
    requires
        0 <= i <= s.len(),
        forall|k: int| 0 <= k < i ==> s[k] != b,
        i < s.len() ==> s[i] == b,
    ensures
        find_byte(s, b) == i,
{
    lemma_find_byte(s, b);
    if find_byte(s, b) < i {
        assert(s[find_byte(s, b) as int] == b);
    }
}

/// One step of parsing a dotted octet list whose head is a rendered octet.
proof fn lemma_octets_step(o: u8, rest: Seq<u8>)
    requires
        rest.len() > 0,
    ensures
        spec_parse_octets(spec_fmt_u64(o as nat) + seq![46u8] + rest) == (
        match spec_parse_octets(rest) {
            Option::Some(rs) => Some(seq![o] + rs),
            Option::None => None::<Seq<u8>>,
        }),
{
    let f = spec_fmt_u64(o as nat);
    let s = f + seq![46u8] + rest;
    lemma_dec_roundtrip(o as u64);
    lemma_octet_roundtrip(o);
    assert forall|k: int| 0 <= k < f.len() implies s[k] != 46 by {
        assert(s[k] == f[k]);
        assert(is_dec_digit(f[k]));
    }
    assert(s[f.len() as int] == 46);
    lemma_find_byte_at(s, 46, f.len() as int);
    assert(s.take(f.len() as int) =~= f);
    assert(s.skip(f.len() as int + 1) =~= rest);
}

/// The tail of the dotted list: a single rendered octet.
proof fn lemma_octets_last(o: u8)
    ensures
        spec_parse_octets(spec_fmt_u64(o as nat)) == Some(seq![o]),
{
    let f = spec_fmt_u64(o as nat);
    lemma_dec_roundtrip(o as u64);
    lemma_octet_roundtrip(o);
    assert forall|k: int| 0 <= k < f.len() implies f[k] != 46 by {
        assert(is_dec_digit(f[k]));
    }
    lemma_find_byte_at(f, 46, f.len() as int);
}

/// The canonical text of an IPv4 endpoint: dotted quad, colon, port.
pub open spec fn spec_fmt_v4(a: u8, b: u8, c: u8, d: u8, port: u16) -> Seq<u8> {
    spec_fmt_u64(a as nat) + seq![46u8] + spec_fmt_u64(b as nat) + seq![46u8] + spec_fmt_u64(
        c as nat,
    ) + seq![46u8] + spec_fmt_u64(d as nat) + seq![58u8] + spec_fmt_u64(port as nat)
}

/// Law: every IPv4 `host:port` token round-trips — rendering an address and
/// parsing the text gives the address back.
pub proof fn lemma_v4_roundtrip(a: u8, b: u8, c: u8, d: u8, port: u16)
    ensures
        spec_parse_sockaddr(spec_fmt_v4(a, b, c, d, port)) == Some(
            AddrV::V4 { a, b, c, d, port },
        ),
{
    let fa = spec_fmt_u64(a as nat);
    let fb = spec_fmt_u64(b as nat);
    let fc = spec_fmt_u64(c as nat);
    let fd = spec_fmt_u64(d as nat);
    let fp = spec_fmt_u64(port as nat);
    let host = fa + seq![46u8] + fb + seq![46u8] + fc + seq![46u8] + fd;
    let t = spec_fmt_v4(a, b, c, d, port);
    assert(t =~= host + seq![58u8] + fp);
    lemma_dec_roundtrip(a as u64);
    lemma_dec_roundtrip(b as u64);
    lemma_dec_roundtrip(c as u64);
    lemma_dec_roundtrip(d as u64);
    lemma_dec_roundtrip(port as u64);
    lemma_fmt_u64_len(a as nat);
    lemma_fmt_u64_len(b as nat);
    lemma_fmt_u64_len(c as nat);
    lemma_fmt_u64_len(d as nat);
    // every host byte is a digit or a dot, so the first colon ends the host
    assert forall|k: int| 0 <= k < host.len() implies host[k] != 58 by {
        if k < fa.len() {
            assert(host[k] == fa[k]);
            assert(is_dec_digit(fa[k]));
        } else if k == fa.len() {
            assert(host[k] == 46);
        } else if k < fa.len() + 1 + fb.len() {
            assert(host[k] == fb[k - fa.len() - 1]);
            assert(is_dec_digit(fb[k - fa.len() - 1]));
        } else if k == fa.len() + 1 + fb.len() {
            assert(host[k] == 46);
        } else if k < fa.len() + 1 + fb.len() + 1 + fc.len() {
            assert(host[k] == fc[k - fa.len() - 1 - fb.len() - 1]);
            assert(is_dec_digit(fc[k - fa.len() - 1 - fb.len() - 1]));
        } else if k == fa.len() + 1 + fb.len() + 1 + fc.len() {
            assert(host[k] == 46);
        } else {
            assert(host[k] == fd[k - fa.len() - 1 - fb.len() - 1 - fc.len() - 1]);
            assert(is_dec_digit(fd[k - fa.len() - 1 - fb.len() - 1 - fc.len() - 1]));
        }
    }
    assert(t[host.len() as int] == 58);
    assert forall|k: int| 0 <= k < host.len() implies t[k] == host[k] by {}
    lemma_find_byte_at(t, 58, host.len() as int);
    assert(t.take(host.len() as int) =~= host);
    assert(t.skip(host.len() as int + 1) =~= fp);
    lemma_port_roundtrip(port);
    // the host is four rendered octets
    lemma_octets_last(d);
    let r3 = fc + seq![46u8] + fd;
    lemma_octets_step(c, fd);
    let r2 = fb + seq![46u8] + r3;
    assert(r2 =~= fb + seq![46u8] + (fc + seq![46u8] + fd));
    lemma_octets_step(b, r3);
    assert(host =~= fa + seq![46u8] + r2);
    lemma_octets_step(a, r2);
    assert(spec_parse_octets(host) == Some(seq![a] + (seq![b] + (seq![c] + seq![d]))));
    let os = seq![a] + (seq![b] + (seq![c] + seq![d]));
    assert(os.len() == 4 && os[0] == a && os[1] == b && os[2] == c && os[3] == d);
    assert(host.len() <= 15);
    assert(t[0] == fa[0]);
    assert(is_dec_digit(fa[0]));
    assert(t[0] != 91);
}

/// One lowercase hex digit.
pub open spec fn hex_digit_of(d: nat) -> u8 {
    if d < 10 {
        (48 + d) as u8
    } else {
        (87 + d) as u8
    }
}

/// The canonical lowercase hex rendering of a segment, no leading zeros.
pub open spec fn spec_fmt_hex(n: nat) -> Seq<u8>
    decreases n,
{
    if n < 16 {
        seq![hex_digit_of(n)]
    } else {
        spec_fmt_hex(n / 16).push(hex_digit_of(n % 16))
    }
}

proof fn lemma_fmt_hex_digits(n: nat)
    ensures
        spec_fmt_hex(n).len() > 0,
        forall|i: int| 0 <= i < spec_fmt_hex(n).len() ==> is_hex_digit(#[trigger] spec_fmt_hex(n)[i]),
        hex_val(spec_fmt_hex(n)) == n,
    decreases n,
{
    let f = spec_fmt_hex(n);
    if n < 16 {
        assert(f.drop_last() =~= Seq::<u8>::empty());
        assert(hex_val(Seq::<u8>::empty()) == 0);
        assert(is_hex_digit(hex_digit_of(n)));
        assert(hex_digit_val(hex_digit_of(n)) == n);
    } else {
        lemma_fmt_hex_digits(n / 16);
        let p = spec_fmt_hex(n / 16);
        assert(f.drop_last() =~= p);
        assert(f.last() == hex_digit_of(n % 16));
        assert(hex_digit_val(hex_digit_of(n % 16)) == n % 16);
        vstd::arithmetic::div_mod::lemma_fundamental_div_mod(n as int, 16);
        assert(hex_val(f) == n);
        assert(forall|i: int|
            0 <= i < p.len() ==> is_hex_digit(#[trigger] f[i]) == is_hex_digit(p[i]));
    }
}

proof fn lemma_fmt_hex_len(n: nat)
    ensures
        n < 16 ==> spec_fmt_hex(n).len() == 1,
        n < 256 ==> spec_fmt_hex(n).len() <= 2,
        n < 4096 ==> spec_fmt_hex(n).len() <= 3,
        n < 65536 ==> spec_fmt_hex(n).len() <= 4,
    decreases n,
{
    if n >= 16 {
        lemma_fmt_hex_len(n / 16);
    }
}

proof fn lemma_hexgroup_roundtrip(g: u16)
    ensures
        spec_parse_hexgroup(spec_fmt_hex(g as nat)) == Some(g),
{
    lemma_fmt_hex_digits(g as nat);
    lemma_fmt_hex_len(g as nat);
}

/// The canonical text of eight segments: full form, single colons.
pub open spec fn spec_fmt_groups(gs: Seq<u16>) -> Seq<u8>
    decreases gs.len(),
{
    if gs.len() == 0 {
        Seq::empty()
    } else if gs.len() == 1 {
        spec_fmt_hex(gs[0] as nat)
    } else {
        spec_fmt_hex(gs[0] as nat) + seq![58u8] + spec_fmt_groups(gs.skip(1))
    }
}

proof fn lemma_groups_roundtrip(gs: Seq<u16>)
    requires
        gs.len() >= 1,
    ensures
        spec_parse_groups(spec_fmt_groups(gs)) == Some(gs),
        find_dcolon(spec_fmt_groups(gs)) == spec_fmt_groups(gs).len(),
        1 <= spec_fmt_groups(gs).len() <= 5 * gs.len() - 1,
        forall|k: int|
            0 <= k < spec_fmt_groups(gs).len() ==> (is_hex_digit(
                #[trigger] spec_fmt_groups(gs)[k],
            ) || spec_fmt_groups(gs)[k] == 58),
        is_hex_digit(spec_fmt_groups(gs)[0]),
    decreases gs.len(),
{
    let f = spec_fmt_groups(gs);
    lemma_find_dcolon(f);
    if gs.len() == 1 {
        lemma_fmt_hex_digits(gs[0] as nat);
        lemma_fmt_hex_len(gs[0] as nat);
        lemma_hexgroup_roundtrip(gs[0]);
        lemma_find_byte(f, 58);
        if find_byte(f, 58) < f.len() {
            assert(is_hex_digit(f[find_byte(f, 58) as int]));
        }
        assert(spec_parse_groups(f) == Some(seq![gs[0]]));
        assert(seq![gs[0]] =~= gs);
        if find_dcolon(f) != f.len() {
            assert(f[find_dcolon(f) as int] == 58);
            assert(is_hex_digit(f[find_dcolon(f) as int]));
        }
    } else {
        let fh = spec_fmt_hex(gs[0] as nat);
        let rest = gs.skip(1);
        let rf = spec_fmt_groups(rest);
        lemma_groups_roundtrip(rest);
        lemma_fmt_hex_digits(gs[0] as nat);
        lemma_fmt_hex_len(gs[0] as nat);
        lemma_hexgroup_roundtrip(gs[0]);
        assert(f =~= fh + seq![58u8] + rf);
        // byte classes
        assert forall|k: int|
            0 <= k < f.len() implies (is_hex_digit(#[trigger] f[k]) || f[k] == 58) by {
            if k < fh.len() {
                assert(f[k] == fh[k]);
            } else if k == fh.len() {
                assert(f[k] == 58);
            } else {
                assert(f[k] == rf[k - fh.len() - 1]);
            }
        }
        // the first colon ends the first group
        assert forall|k: int| 0 <= k < fh.len() implies f[k] != 58 by {
            assert(f[k] == fh[k]);
            assert(is_hex_digit(fh[k]));
        }
        assert(f[fh.len() as int] == 58);
        lemma_find_byte_at(f, 58, fh.len() as int);
        assert(f.take(fh.len() as int) =~= fh);
        assert(f.skip(fh.len() as int + 1) =~= rf);
        assert(spec_parse_groups(f) == Some(seq![gs[0]] + rest));
        assert(seq![gs[0]] + rest =~= gs);
        // no double colon anywhere
        assert forall|k: int|
            0 <= k < f.len() - 1 implies !((#[trigger] f[k]) == 58 && f[k + 1] == 58) by {
            if k < fh.len() {
                assert(f[k] == fh[k]);
                assert(is_hex_digit(fh[k]));
            } else if k == fh.len() {
                assert(f[k + 1] == rf[0]);
                assert(is_hex_digit(rf[0]));
            } else {
                assert(f[k] == rf[k - fh.len() - 1]);
                assert(f[k + 1] == rf[k - fh.len()]);
                assert(find_dcolon(rf) == rf.len());
                lemma_find_dcolon(rf);
                assert(!(rf[k - fh.len() - 1] == 58 && rf[k - fh.len()] == 58));
            }
        }
        if find_dcolon(f) != f.len() {
            assert(find_dcolon(f) < f.len() - 1);
            assert(f[find_dcolon(f) as int] == 58 && f[find_dcolon(f) as int + 1] == 58);
        }
    }
}

/// The canonical text of an IPv6 endpoint: bracketed full form, then port.
pub open spec fn spec_fmt_v6(segs: Seq<u16>, port: u16) -> Seq<u8> {
    seq![91u8] + spec_fmt_groups(segs) + seq![93u8] + seq![58u8] + spec_fmt_u64(port as nat)
}

/// Law: every IPv6 `[host]:port` token in full form round-trips — rendering
/// an address and parsing the text gives the address back.
pub proof fn lemma_v6_roundtrip(segs: Seq<u16>, port: u16)
    requires
        segs.len() == 8,
    ensures
        spec_parse_sockaddr(spec_fmt_v6(segs, port)) == Some(AddrV::V6 { segs, port }),
{
    let g = spec_fmt_groups(segs);
    let fp = spec_fmt_u64(port as nat);
    let t = spec_fmt_v6(segs, port);
    lemma_groups_roundtrip(segs);
    lemma_dec_roundtrip(port as u64);
    lemma_port_roundtrip(port);
    assert(t =~= seq![91u8] + g + seq![93u8] + seq![58u8] + fp);
    assert(t[0] == 91);
    // the first ']' is the one we wrote: no group byte is ']'
    assert forall|k: int| 0 <= k < g.len() + 1 implies t[k] != 93 by {
        if k == 0 {
            assert(t[k] == 91);
        } else {
            assert(t[k] == g[k - 1]);
            assert(is_hex_digit(g[k - 1]) || g[k - 1] == 58);
        }
    }
    assert(t[g.len() as int + 1] == 93);
    lemma_find_byte_at(t, 93, g.len() as int + 1);
    let j = g.len() as int + 1;
    assert(t[j + 1] == 58);
    assert(t.subrange(1, j) =~= g);
    assert(t.skip(j + 2) =~= fp);
    // the host parses without compression
    assert(g.len() <= 39);
    assert(spec_parse_v6host(g) == Some(segs));
}

} // verus!
