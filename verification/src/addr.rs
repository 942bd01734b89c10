//! Numeric probe targets: `ip:port`, `[ipv6]:port`, and the `8080` /
//! `:8080` shorthands for a port on 127.0.0.1.
use crate::text::{
    all_dec, all_dec_chars, all_hex, all_whitespace, chars_of, dec_number, dec_value,
    digit_value_of, find_char, find_char_in, hex_value, is_dec_digit, is_hex_digit,
    is_hex_digit_char, join, lacks, lemma_find_char_at, lemma_find_char_none, lemma_join_chars,
    lemma_join_no_double_sep, lemma_split_join, lemma_trim_ignores_padding, lemma_trim_unpadded,
    pieces, pieces_chars, slice_of, split, split_chars, trim, trim_bounds, views,
};
use vstd::prelude::*;

verus! {

/// Why a target was rejected.
#[derive(Debug, Clone, Copy, PartialEq, Eq)]
pub enum AddrError {
    Empty,
    InvalidPort,
    PortZero,
    NonNumeric,
}

/// A numeric socket address.
#[derive(Debug, Clone, Copy, PartialEq, Eq)]
pub enum SocketAddr {
    V4 { octets: [u8; 4], port: u16 },
    V6 { segments: [u16; 8], port: u16, scope_id: u32 },
}

/// The mathematical value of a socket address.
pub enum SpecSocketAddr {
    V4 { octets: Seq<u8>, port: u16 },
    V6 { segments: Seq<u16>, port: u16, scope_id: u32 },
}

impl View for SocketAddr {
    type V = SpecSocketAddr;

    open spec fn view(&self) -> SpecSocketAddr {
        match *self {
            SocketAddr::V4 { octets, port } => SpecSocketAddr::V4 { octets: octets@, port },
            SocketAddr::V6 { segments, port, scope_id } => SpecSocketAddr::V6 {
                segments: segments@,
                port,
                scope_id,
            },
        }
    }
}

impl SpecSocketAddr {
    pub open spec fn port(self) -> u16 {
        match self {
            SpecSocketAddr::V4 { port, .. } => port,
            SpecSocketAddr::V6 { port, .. } => port,
        }
    }
}

impl SocketAddr {
    /// The port number.
    pub fn port(&self) -> (p: u16)
        ensures
            p == self@.port(),
    {
        match self {
            SocketAddr::V4 { port, .. } => *port,
            SocketAddr::V6 { port, .. } => *port,
        }
    }
}

/// The text shown for an error.
pub open spec fn addr_error_text(e: AddrError) -> Seq<char> {
    match e {
        AddrError::Empty => "empty target"@,
        AddrError::InvalidPort => "invalid port"@,
        AddrError::PortZero => "port must be > 0"@,
        AddrError::NonNumeric => "target must be numeric ip:port"@,
    }
}

impl AddrError {
    /// The text shown for this error.
    pub fn message(&self) -> (s: String)
        ensures
            s@ == addr_error_text(*self),
    {
        match self {
            AddrError::Empty => "empty target".to_string(),
            AddrError::InvalidPort => "invalid port".to_string(),
            AddrError::PortZero => "port must be > 0".to_string(),
            AddrError::NonNumeric => "target must be numeric ip:port".to_string(),
        }
    }
}

// ---------------------------------------------------------------- grammar

/// One to three decimal digits with no leading zero, at most 255.
pub open spec fn octet_text(p: Seq<char>) -> bool {
    &&& 1 <= p.len() <= 3
    &&& all_dec(p)
    &&& (p.len() == 1 || p[0] != '0')
    &&& dec_value(p) <= 255
}

/// A dotted-quad IPv4 address and its four octets.
pub open spec fn ipv4_text(s: Seq<char>) -> Option<Seq<u8>> {
    let ps = split(s, '.');
    if ps.len() == 4 && (forall|i: int| 0 <= i < 4 ==> octet_text(#[trigger] ps[i])) {
        Some(Seq::new(4, |i: int| dec_value(ps[i]) as u8))
    } else {
        None
    }
}

/// One to four hexadecimal digits.
pub open spec fn hex_group_text(p: Seq<char>) -> bool {
    1 <= p.len() <= 4 && all_hex(p)
}

pub open spec fn all_hex_groups(ps: Seq<Seq<char>>) -> bool {
    forall|i: int| 0 <= i < ps.len() ==> hex_group_text(#[trigger] ps[i])
}

pub open spec fn group_values(ps: Seq<Seq<char>>) -> Seq<u16> {
    Seq::new(ps.len(), |i: int| hex_value(ps[i]) as u16)
}

/// The two 16-bit groups that an embedded IPv4 address stands for.
pub open spec fn ipv4_groups(o: Seq<u8>) -> Seq<u16> {
    seq![(o[0] * 256 + o[1]) as u16, (o[2] * 256 + o[3]) as u16]
}

/// The groups of a list of IPv6 pieces: hexadecimal groups, of which the
/// last may instead be an embedded IPv4 address.
pub open spec fn group_list(ps: Seq<Seq<char>>) -> Option<Seq<u16>> {
    if all_hex_groups(ps) {
        Some(group_values(ps))
    } else if ps.len() > 0 && all_hex_groups(ps.drop_last()) && ipv4_text(ps.last()) is Some {
        Some(group_values(ps.drop_last()) + ipv4_groups(ipv4_text(ps.last()).unwrap()))
    } else {
        None
    }
}

/// The first index at or after `from` where `::` starts.
pub open spec fn find_double_colon(s: Seq<char>, from: int) -> Option<int>
    decreases s.len() - from,
{
    if from < 0 || from + 1 >= s.len() {
        None
    } else if s[from] == ':' && s[from + 1] == ':' {
        Some(from)
    } else {
        find_double_colon(s, from + 1)
    }
}

/// An IPv6 address and its eight groups: either eight groups in full, or
/// the groups before the first `::`, at least one zero group, and the
/// groups after it.
pub open spec fn ipv6_text(s: Seq<char>) -> Option<Seq<u16>> {
    match find_double_colon(s, 0) {
        None => {
            match group_list(split(s, ':')) {
                Some(g) => if g.len() == 8 {
                    Some(g)
                } else {
                    None
                },
                None => None,
            }
        },
        Some(j) => {
            let head = pieces(s.subrange(0, j), ':');
            let tail = pieces(s.subrange(j + 2, s.len() as int), ':');
            if all_hex_groups(head) {
                match group_list(tail) {
                    Some(t) => if head.len() + t.len() <= 7 {
                        Some(
                            group_values(head) + Seq::new(
                                (8 - head.len() - t.len()) as nat,
                                |i: int| 0u16,
                            ) + t,
                        )
                    } else {
                        None
                    },
                    None => None,
                }
            } else {
                None
            }
        },
    }
}

/// A non-empty run of decimal digits whose value fits `limit`.
pub open spec fn number_text(p: Seq<char>, limit: nat) -> Option<nat> {
    if p.len() >= 1 && all_dec(p) && dec_value(p) <= limit {
        Some(dec_value(p))
    } else {
        None
    }
}

pub open spec fn port_text(p: Seq<char>) -> Option<u16> {
    match number_text(p, 65535) {
        Some(v) => Some(v as u16),
        None => None,
    }
}

/// `[ipv6]:port` or `[ipv6%scope]:port`.
pub open spec fn socket_v6_text(t: Seq<char>) -> Option<SpecSocketAddr> {
    match find_char(t, ']', 0) {
        None => None,
        Some(r) => {
            let inner = t.subrange(1, r);
            let rest = t.subrange(r + 1, t.len() as int);
            if rest.len() >= 1 && rest[0] == ':' && port_text(rest.drop_first()) is Some {
                let port = port_text(rest.drop_first()).unwrap();
                match find_char(inner, '%', 0) {
                    None => match ipv6_text(inner) {
                        Some(g) => Some(SpecSocketAddr::V6 { segments: g, port, scope_id: 0 }),
                        None => None,
                    },
                    Some(q) => match (
                        ipv6_text(inner.subrange(0, q)),
                        number_text(inner.subrange(q + 1, inner.len() as int), u32::MAX as nat),
                    ) {
                        (Some(g), Some(z)) => Some(
                            SpecSocketAddr::V6 { segments: g, port, scope_id: z as u32 },
                        ),
                        _ => None,
                    },
                }
            } else {
                None
            }
        },
    }
}

/// `a.b.c.d:port`.
pub open spec fn socket_v4_text(t: Seq<char>) -> Option<SpecSocketAddr> {
    let ps = split(t, ':');
    if ps.len() == 2 && ipv4_text(ps[0]) is Some && port_text(ps[1]) is Some {
        Some(
            SpecSocketAddr::V4 {
                octets: ipv4_text(ps[0]).unwrap(),
                port: port_text(ps[1]).unwrap(),
            },
        )
    } else {
        None
    }
}

/// A numeric socket address, IPv4 or bracketed IPv6.
pub open spec fn socket_text(t: Seq<char>) -> Option<SpecSocketAddr> {
    if t.len() > 0 && t[0] == '[' {
        socket_v6_text(t)
    } else {
        socket_v4_text(t)
    }
}

/// A `u16` in decimal, optionally preceded by one `+`.
pub open spec fn u16_text(p: Seq<char>) -> Option<u16> {
    if p.len() > 0 && p[0] == '+' {
        port_text(p.drop_first())
    } else {
        port_text(p)
    }
}

pub open spec fn loopback(port: u16) -> SpecSocketAddr {
    SpecSocketAddr::V4 { octets: seq![127u8, 0u8, 0u8, 1u8], port }
}

/// A port on 127.0.0.1.
pub open spec fn shorthand_spec(p: Seq<char>) -> Result<SpecSocketAddr, AddrError> {
    match u16_text(p) {
        None => Err(AddrError::InvalidPort),
        Some(v) => if v == 0 {
            Err(AddrError::PortZero)
        } else {
            Ok(loopback(v))
        },
    }
}

/// What a target text denotes, after surrounding whitespace is removed:
/// `:port` and a bare run of digits are ports on 127.0.0.1; anything else
/// must be a numeric socket address with a port other than 0.
pub open spec fn target_spec(input: Seq<char>) -> Result<SpecSocketAddr, AddrError> {
    let t = trim(input);
    if t.len() == 0 {
        Err(AddrError::Empty)
    } else if t[0] == ':' {
        shorthand_spec(t.drop_first())
    } else if all_dec(t) {
        shorthand_spec(t)
    } else {
        match socket_text(t) {
            None => Err(AddrError::NonNumeric),
            Some(a) => if a.port() == 0 {
                Err(AddrError::PortZero)
            } else {
                Ok(a)
            },
        }
    }
}

pub open spec fn result_view(r: Result<SocketAddr, AddrError>) -> Result<SpecSocketAddr, AddrError> {
    match r {
        Ok(a) => Ok(a@),
        Err(e) => Err(e),
    }
}


// ---------------------------------------------------------------- parsing

fn octet_of(p: &Vec<char>) -> (r: Option<u8>)
    ensures
        match r {
            Some(v) => octet_text(p@) && v == dec_value(p@),
            None => !octet_text(p@),
        },
{
    if p.len() < 1 || p.len() > 3 {
        return None;
    }
    if p.len() > 1 && p[0] == '0' {
        return None;
    }
    match dec_number(p, 255) {
        Some(v) => Some(v as u8),
        None => None,
    }
}

fn ipv4_of(s: &Vec<char>) -> (r: Option<[u8; 4]>)
    ensures
        match r {
            Some(a) => ipv4_text(s@) == Some(a@),
            None => ipv4_text(s@) is None,
        },
{
    let ps = split_chars(s, '.');
    let ghost sp = split(s@, '.');
    assert(views(ps@) == sp);
    if ps.len() != 4 {
        return None;
    }
    assert(ps@[0]@ == sp[0]);
    assert(ps@[1]@ == sp[1]);
    assert(ps@[2]@ == sp[2]);
    assert(ps@[3]@ == sp[3]);
    let a = match octet_of(&ps[0]) {
        Some(v) => v,
        None => return None,
    };
    let b = match octet_of(&ps[1]) {
        Some(v) => v,
        None => return None,
    };
    let c = match octet_of(&ps[2]) {
        Some(v) => v,
        None => return None,
    };
    let d = match octet_of(&ps[3]) {
        Some(v) => v,
        None => return None,
    };
    let r = [a, b, c, d];
    assert(forall|i: int| 0 <= i < 4 ==> octet_text(#[trigger] sp[i]));
    assert(r@ =~= Seq::new(4, |i: int| dec_value(sp[i]) as u8));
    Some(r)
}

fn hex_group_of(p: &Vec<char>) -> (r: Option<u16>)
    ensures
        match r {
            Some(v) => hex_group_text(p@) && v == hex_value(p@) as u16,
            None => !hex_group_text(p@),
        },
{
    if p.len() < 1 || p.len() > 4 {
        return None;
    }
    let mut v: u32 = 0;
    let mut i: usize = 0;
    while i < p.len()
        invariant
            0 <= i <= p.len() <= 4,
            all_hex(p@.take(i as int)),
            v == hex_value(p@.take(i as int)),
            v < (if i == 0 {
                1u32
            } else if i == 1 {
                16u32
            } else if i == 2 {
                256u32
            } else if i == 3 {
                4096u32
            } else {
                65536u32
            }),
        decreases p.len() - i,
    {
        let c = p[i];
        if !is_hex_digit_char(c) {
            return None;
        }
        assert(p@.take(i + 1).drop_last() == p@.take(i as int));
        assert(p@.take(i + 1).last() == c);
        v = v * 16 + digit_value_of(c);
        i += 1;
    }
    assert(p@.take(i as int) == p@);
    Some(v as u16)
}

/// The values of the first `n` pieces, when they are all hexadecimal groups.
fn hex_groups_of(ps: &Vec<Vec<char>>, n: usize) -> (r: Option<Vec<u16>>)
    requires
        n <= ps.len(),
    ensures
        match r {
            Some(g) => all_hex_groups(views(ps@).take(n as int)) && g@ == group_values(
                views(ps@).take(n as int),
            ),
            None => !all_hex_groups(views(ps@).take(n as int)),
        },
{
    let ghost vs = views(ps@);
    let mut g: Vec<u16> = Vec::new();
    let mut i: usize = 0;
    while i < n
        invariant
            0 <= i <= n <= ps.len(),
            vs == views(ps@),
            all_hex_groups(vs.take(i as int)),
            g@ == group_values(vs.take(i as int)),
        decreases n - i,
    {
        assert(ps@[i as int]@ == vs[i as int]);
        match hex_group_of(&ps[i]) {
            Some(v) => {
                g.push(v);
                assert(vs.take(i + 1) =~= vs.take(i as int).push(vs[i as int]));
                assert(g@ =~= group_values(vs.take(i + 1)));
            },
            None => {
                assert(vs.take(n as int)[i as int] == vs[i as int]);
                return None;
            },
        }
        i += 1;
    }
    Some(g)
}

fn group_list_of(ps: &Vec<Vec<char>>) -> (r: Option<Vec<u16>>)
    ensures
        match r {
            Some(g) => group_list(views(ps@)) == Some(g@),
            None => group_list(views(ps@)) is None,
        },
{
    let ghost vs = views(ps@);
    let n = ps.len();
    assert(vs.take(n as int) == vs);
    match hex_groups_of(ps, n) {
        Some(g) => return Some(g),
        None => {},
    }
    if n == 0 {
        return None;
    }
    assert(vs.take(n - 1) == vs.drop_last());
    assert(ps@[n - 1]@ == vs.last());
    match hex_groups_of(ps, n - 1) {
        None => None,
        Some(g) => match ipv4_of(&ps[n - 1]) {
            None => None,
            Some(o) => {
                let mut g = g;
                let hi = (o[0] as u16) * 256 + (o[1] as u16);
                let lo = (o[2] as u16) * 256 + (o[3] as u16);
                g.push(hi);
                g.push(lo);
                assert(g@ =~= group_values(vs.drop_last()) + ipv4_groups(o@));
                Some(g)
            },
        },
    }
}

fn find_double_colon_in(s: &Vec<char>) -> (r: Option<usize>)
    ensures
        match r {
            Some(j) => find_double_colon(s@, 0) == Some(j as int) && j + 1 < s@.len(),
            None => find_double_colon(s@, 0) is None,
        },
{
    let mut i: usize = 0;
    while i < s.len() && i + 1 < s.len()
        invariant
            i <= s.len(),
            find_double_colon(s@, 0) == find_double_colon(s@, i as int),
        decreases s.len() - i,
    {
        if s[i] == ':' && s[i + 1] == ':' {
            return Some(i);
        }
        i += 1;
    }
    None
}

fn to_array8(g: &Vec<u16>) -> (r: [u16; 8])
    requires
        g.len() == 8,
    ensures
        r@ == g@,
{
    let r = [g[0], g[1], g[2], g[3], g[4], g[5], g[6], g[7]];
    assert(r@ =~= g@);
    r
}

fn ipv6_of(s: &Vec<char>) -> (r: Option<[u16; 8]>)
    ensures
        match r {
            Some(a) => ipv6_text(s@) == Some(a@),
            None => ipv6_text(s@) is None,
        },
{
    match find_double_colon_in(s) {
        None => {
            let ps = split_chars(s, ':');
            match group_list_of(&ps) {
                Some(g) => if g.len() == 8 {
                    Some(to_array8(&g))
                } else {
                    None
                },
                None => None,
            }
        },
        Some(j) => {
            assert(j + 1 < s.len());
            let head_text = slice_of(s, 0, j);
            let tail_text = slice_of(s, j + 2, s.len());
            let hp = pieces_chars(&head_text, ':');
            let tp = pieces_chars(&tail_text, ':');
            assert(views(hp@).take(hp@.len() as int) == views(hp@));
            let hg = match hex_groups_of(&hp, hp.len()) {
                Some(g) => g,
                None => return None,
            };
            let tg = match group_list_of(&tp) {
                Some(g) => g,
                None => return None,
            };
            if hg.len() > 7 || tg.len() > 7 - hg.len() {
                return None;
            }
            let zeros = 8 - hg.len() - tg.len();
            let mut out: Vec<u16> = Vec::new();
            let mut i: usize = 0;
            while i < hg.len()
                invariant
                    0 <= i <= hg.len(),
                    out@ == hg@.take(i as int),
                decreases hg.len() - i,
            {
                out.push(hg[i]);
                assert(out@ =~= hg@.take(i + 1));
                i += 1;
            }
            assert(hg@.take(i as int) == hg@);
            let mut k: usize = 0;
            while k < zeros
                invariant
                    0 <= k <= zeros,
                    out@ == hg@ + Seq::new(k as nat, |x: int| 0u16),
                decreases zeros - k,
            {
                out.push(0);
                assert(out@ =~= hg@ + Seq::new((k + 1) as nat, |x: int| 0u16));
                k += 1;
            }
            let ghost mid = out@;
            let mut m: usize = 0;
            while m < tg.len()
                invariant
                    0 <= m <= tg.len(),
                    out@ == mid + tg@.take(m as int),
                decreases tg.len() - m,
            {
                out.push(tg[m]);
                assert(out@ =~= mid + tg@.take(m + 1));
                m += 1;
            }
            assert(tg@.take(m as int) == tg@);
            Some(to_array8(&out))
        },
    }
}

fn socket_of(t: &Vec<char>) -> (r: Option<SocketAddr>)
    ensures
        match r {
            Some(a) => socket_text(t@) == Some(a@),
            None => socket_text(t@) is None,
        },
{
    if t.len() > 0 && t[0] == '[' {
        let r = match find_char_in(t, ']', 0) {
            Some(r) => r,
            None => return None,
        };
        let inner = slice_of(t, 1, r);
        let rest = slice_of(t, r + 1, t.len());
        if rest.len() < 1 || rest[0] != ':' {
            return None;
        }
        let port_chars = slice_of(&rest, 1, rest.len());
        assert(port_chars@ == rest@.drop_first());
        let port = match dec_number(&port_chars, 65535) {
            Some(v) => v as u16,
            None => return None,
        };
        match find_char_in(&inner, '%', 0) {
            None => match ipv6_of(&inner) {
                Some(g) => Some(SocketAddr::V6 { segments: g, port, scope_id: 0 }),
                None => None,
            },
            Some(q) => {
                let addr_chars = slice_of(&inner, 0, q);
                let scope_chars = slice_of(&inner, q + 1, inner.len());
                let scope = match dec_number(&scope_chars, 0xffff_ffff) {
                    Some(z) => z as u32,
                    None => return None,
                };
                match ipv6_of(&addr_chars) {
                    Some(g) => Some(SocketAddr::V6 { segments: g, port, scope_id: scope }),
                    None => None,
                }
            },
        }
    } else {
        let ps = split_chars(t, ':');
        let ghost sp = split(t@, ':');
        if ps.len() != 2 {
            return None;
        }
        assert(ps@[0]@ == sp[0]);
        assert(ps@[1]@ == sp[1]);
        let octets = match ipv4_of(&ps[0]) {
            Some(o) => o,
            None => return None,
        };
        let port = match dec_number(&ps[1], 65535) {
            Some(v) => v as u16,
            None => return None,
        };
        Some(SocketAddr::V4 { octets, port })
    }
}

fn shorthand_of(p: &Vec<char>) -> (r: Result<SocketAddr, AddrError>)
    ensures
        result_view(r) == shorthand_spec(p@),
{
    let digits = if p.len() > 0 && p[0] == '+' {
        slice_of(p, 1, p.len())
    } else {
        slice_of(p, 0, p.len())
    };
    assert(p@.subrange(0, p@.len() as int) == p@);
    assert(p@.len() > 0 ==> p@.subrange(1, p@.len() as int) == p@.drop_first());
    match dec_number(&digits, 65535) {
        None => Err(AddrError::InvalidPort),
        Some(v) => if v == 0 {
            Err(AddrError::PortZero)
        } else {
            let octets: [u8; 4] = [127, 0, 0, 1];
            assert(octets@ =~= seq![127u8, 0u8, 0u8, 1u8]);
            Ok(SocketAddr::V4 { octets, port: v as u16 })
        },
    }
}

/// Reads a probe target. Surrounding whitespace is ignored; `8080` and
/// `:8080` stand for port 8080 on 127.0.0.1; otherwise the text must be a
/// numeric `a.b.c.d:port` or `[ipv6]:port`, so host names are refused. Port
/// 0 is refused in every form.
pub fn parse_target(input: &str) -> (r: Result<SocketAddr, AddrError>)
    ensures
        result_view(r) == target_spec(input@),
{
    let all = chars_of(input);
    let (a, b) = trim_bounds(&all);
    let t = slice_of(&all, a, b);
    if t.len() == 0 {
        return Err(AddrError::Empty);
    }
    if t[0] == ':' {
        let p = slice_of(&t, 1, t.len());
        assert(p@ == t@.drop_first());
        return shorthand_of(&p);
    }
    if all_dec_chars(&t) {
        return shorthand_of(&t);
    }
    match socket_of(&t) {
        None => Err(AddrError::NonNumeric),
        Some(addr) => if addr.port() == 0 {
            Err(AddrError::PortZero)
        } else {
            Ok(addr)
        },
    }
}


// ---------------------------------------------------------------- laws

/// An accepted target never has port 0.
pub proof fn lemma_accepted_port_nonzero(input: Seq<char>)
    ensures
        target_spec(input) matches Ok(a) ==> a.port() != 0,
{
}

/// Whitespace around a target does not change what it denotes.
pub proof fn lemma_target_ignores_surrounding_whitespace(
    w1: Seq<char>,
    input: Seq<char>,
    w2: Seq<char>,
)
    requires
        all_whitespace(w1),
        all_whitespace(w2),
    ensures
        target_spec(w1 + input + w2) == target_spec(input),
{
    lemma_trim_ignores_padding(w1, input, w2);
}

/// `8080` and `:8080` denote the same thing: port 8080 on 127.0.0.1 (or the
/// error for that port).
pub proof fn lemma_shorthand_forms_agree(p: Seq<char>)
    requires
        p.len() > 0,
        all_dec(p),
    ensures
        target_spec(p) == shorthand_spec(p),
        target_spec(seq![':'] + p) == shorthand_spec(p),
        shorthand_spec(p) matches Ok(a) ==> a == loopback(a.port()),
{
    assert(is_dec_digit(p[0]));
    assert(is_dec_digit(p.last()));
    lemma_trim_unpadded(p);
    let q = seq![':'] + p;
    assert(q.last() == p.last());
    lemma_trim_unpadded(q);
    assert(q.drop_first() == p);
}

/// The characters a numeric target may consist of.
pub open spec fn numeric_char(c: char) -> bool {
    is_hex_digit(c) || c == '.' || c == ':' || c == '[' || c == ']' || c == '%' || c == '+'
}

pub open spec fn all_numeric(s: Seq<char>) -> bool {
    forall|i: int| 0 <= i < s.len() ==> numeric_char(#[trigger] s[i])
}

proof fn lemma_numeric_concat(x: Seq<char>, y: Seq<char>)
    requires
        all_numeric(x),
        all_numeric(y),
    ensures
        all_numeric(x + y),
{
    assert forall|i: int| 0 <= i < (x + y).len() implies numeric_char(#[trigger] (x + y)[i]) by {
        if i < x.len() {
            assert((x + y)[i] == x[i]);
        } else {
            assert((x + y)[i] == y[i - x.len()]);
        }
    }
}

proof fn lemma_numeric_split(s: Seq<char>, sep: char)
    requires
        numeric_char(sep),
        forall|i: int| 0 <= i < split(s, sep).len() ==> all_numeric(#[trigger] split(s, sep)[i]),
    ensures
        all_numeric(s),
    decreases s.len(),
{
    if s.len() > 0 {
        let init = split(s.drop_last(), sep);
        crate::text::lemma_split_nonempty(s.drop_last(), sep);
        let parts = split(s, sep);
        if s.last() == sep {
            assert forall|i: int| 0 <= i < init.len() implies all_numeric(#[trigger] init[i]) by {
                assert(parts[i] == init[i]);
            }
        } else {
            let n = init.len() - 1;
            assert forall|i: int| 0 <= i < init.len() implies all_numeric(#[trigger] init[i]) by {
                if i < n {
                    assert(parts[i] == init[i]);
                } else {
                    assert(parts[n] == init[n].push(s.last()));
                    assert forall|k: int| 0 <= k < init[n].len() implies numeric_char(
                        #[trigger] init[n][k],
                    ) by {
                        assert(parts[n][k] == init[n][k]);
                    }
                }
            }
            assert(parts[n].last() == s.last());
            assert(numeric_char(parts[n][parts[n].len() - 1]));
        }
        lemma_numeric_split(s.drop_last(), sep);
        lemma_numeric_concat(s.drop_last(), seq![s.last()]);
        assert(s.drop_last() + seq![s.last()] == s);
    }
}

proof fn lemma_numeric_pieces(s: Seq<char>, sep: char)
    requires
        numeric_char(sep),
        forall|i: int| 0 <= i < pieces(s, sep).len() ==> all_numeric(#[trigger] pieces(s, sep)[i]),
    ensures
        all_numeric(s),
{
    if s.len() > 0 {
        assert(pieces(s, sep) == split(s, sep));
        lemma_numeric_split(s, sep);
    }
}

proof fn lemma_numeric_ipv4(s: Seq<char>)
    requires
        ipv4_text(s) is Some,
    ensures
        all_numeric(s),
{
    let ps = split(s, '.');
    assert forall|i: int| 0 <= i < ps.len() implies all_numeric(#[trigger] ps[i]) by {
        assert(octet_text(ps[i]));
        assert forall|k: int| 0 <= k < ps[i].len() implies numeric_char(#[trigger] ps[i][k]) by {
            assert(is_dec_digit(ps[i][k]));
        }
    }
    lemma_numeric_split(s, '.');
}

proof fn lemma_numeric_hex(p: Seq<char>)
    requires
        all_hex(p),
    ensures
        all_numeric(p),
{
    assert forall|k: int| 0 <= k < p.len() implies numeric_char(#[trigger] p[k]) by {
        assert(is_hex_digit(p[k]));
    }
}

proof fn lemma_numeric_dec(p: Seq<char>)
    requires
        all_dec(p),
    ensures
        all_numeric(p),
{
    assert forall|k: int| 0 <= k < p.len() implies numeric_char(#[trigger] p[k]) by {
        assert(is_dec_digit(p[k]));
    }
}

proof fn lemma_numeric_group_list(ps: Seq<Seq<char>>)
    requires
        group_list(ps) is Some,
    ensures
        forall|i: int| 0 <= i < ps.len() ==> all_numeric(#[trigger] ps[i]),
{
    assert forall|i: int| 0 <= i < ps.len() implies all_numeric(#[trigger] ps[i]) by {
        if all_hex_groups(ps) {
            assert(hex_group_text(ps[i]));
            lemma_numeric_hex(ps[i]);
        } else if i < ps.len() - 1 {
            assert(ps.drop_last()[i] == ps[i]);
            assert(hex_group_text(ps.drop_last()[i]));
            lemma_numeric_hex(ps[i]);
        } else {
            lemma_numeric_ipv4(ps.last());
        }
    }
}

proof fn lemma_find_double_colon(s: Seq<char>, from: int)
    ensures
        find_double_colon(s, from) matches Some(j) ==> from <= j && j + 1 < s.len() && s[j]
            == ':' && s[j + 1] == ':',
    decreases s.len() - from,
{
    if !(from < 0 || from + 1 >= s.len()) && !(s[from] == ':' && s[from + 1] == ':') {
        lemma_find_double_colon(s, from + 1);
    }
}

proof fn lemma_find_char(s: Seq<char>, c: char, from: int)
    ensures
        find_char(s, c, from) matches Some(j) ==> from <= j < s.len() && s[j] == c,
    decreases s.len() - from,
{
    if !(from < 0 || from >= s.len()) && s[from] != c {
        lemma_find_char(s, c, from + 1);
    }
}

proof fn lemma_numeric_ipv6(s: Seq<char>)
    requires
        ipv6_text(s) is Some,
    ensures
        all_numeric(s),
{
    lemma_find_double_colon(s, 0);
    match find_double_colon(s, 0) {
        None => {
            lemma_numeric_group_list(split(s, ':'));
            lemma_numeric_split(s, ':');
        },
        Some(j) => {
            let h = s.subrange(0, j);
            let t = s.subrange(j + 2, s.len() as int);
            let hp = pieces(h, ':');
            let tp = pieces(t, ':');
            assert forall|i: int| 0 <= i < hp.len() implies all_numeric(#[trigger] hp[i]) by {
                assert(hex_group_text(hp[i]));
                lemma_numeric_hex(hp[i]);
            }
            lemma_numeric_pieces(h, ':');
            lemma_numeric_group_list(tp);
            lemma_numeric_pieces(t, ':');
            let m = s.subrange(j, j + 2);
            assert(m == seq![':', ':']);
            assert(all_numeric(m));
            lemma_numeric_concat(h, m);
            lemma_numeric_concat(h + m, t);
            assert(h + m + t == s);
        },
    }
}

proof fn lemma_numeric_socket(t: Seq<char>)
    requires
        socket_text(t) is Some,
    ensures
        all_numeric(t),
{
    if t.len() > 0 && t[0] == '[' {
        let r = find_char(t, ']', 0)->Some_0;
        lemma_find_char(t, ']', 0);
        let inner = t.subrange(1, r);
        let rest = t.subrange(r + 1, t.len() as int);
        lemma_numeric_dec(rest.drop_first());
        lemma_numeric_concat(seq![':'], rest.drop_first());
        assert(seq![':'] + rest.drop_first() == rest);
        lemma_find_char(inner, '%', 0);
        match find_char(inner, '%', 0) {
            None => {
                lemma_numeric_ipv6(inner);
            },
            Some(q) => {
                let a = inner.subrange(0, q);
                let z = inner.subrange(q + 1, inner.len() as int);
                lemma_numeric_ipv6(a);
                lemma_numeric_dec(z);
                lemma_numeric_concat(a, seq!['%']);
                lemma_numeric_concat(a + seq!['%'], z);
                assert(a + seq!['%'] + z == inner);
            },
        }
        lemma_numeric_concat(seq!['['], inner);
        lemma_numeric_concat(seq!['['] + inner, seq![']']);
        lemma_numeric_concat(seq!['['] + inner + seq![']'], rest);
        assert(seq!['['] + inner + seq![']'] + rest == t);
    } else {
        let ps = split(t, ':');
        lemma_numeric_ipv4(ps[0]);
        lemma_numeric_dec(ps[1]);
        lemma_numeric_split(t, ':');
    }
}

proof fn lemma_find_double_colon_at(s: Seq<char>, from: int, k: int)
    requires
        0 <= from <= k,
        k + 1 < s.len(),
        s[k] == ':' && s[k + 1] == ':',
        forall|i: int| from <= i < k ==> !(#[trigger] s[i] == ':' && s[i + 1] == ':'),
    ensures
        find_double_colon(s, from) == Some(k),
    decreases k - from,
{
    if from < k {
        lemma_find_double_colon_at(s, from + 1, k);
    }
}

pub open spec fn hex_or_colon(c: char) -> bool {
    is_hex_digit(c) || c == ':'
}

proof fn lemma_hex_groups_lack_colon(h: Seq<Seq<char>>)
    requires
        all_hex_groups(h),
    ensures
        forall|i: int| 0 <= i < h.len() ==> lacks(#[trigger] h[i], ':') && h[i].len() > 0,
        forall|i: int, k: int|
            0 <= i < h.len() && 0 <= k < h[i].len() ==> hex_or_colon(#[trigger] h[i][k]),
{
    assert forall|i: int| 0 <= i < h.len() implies lacks(#[trigger] h[i], ':') && h[i].len()
        > 0 by {
        assert(hex_group_text(h[i]));
        assert forall|k: int| 0 <= k < h[i].len() implies #[trigger] h[i][k] != ':' by {
            assert(is_hex_digit(h[i][k]));
        }
    }
    assert forall|i: int, k: int| 0 <= i < h.len() && 0 <= k < h[i].len() implies hex_or_colon(
        #[trigger] h[i][k],
    ) by {
        assert(hex_group_text(h[i]));
    }
}

proof fn lemma_pieces_of_join(h: Seq<Seq<char>>)
    requires
        all_hex_groups(h),
    ensures
        pieces(join(h, ':'), ':') == h,
        h.len() == 0 <==> join(h, ':').len() == 0,
{
    lemma_hex_groups_lack_colon(h);
    lemma_join_no_double_sep(h, ':');
    if h.len() == 0 {
        assert(h =~= Seq::<Seq<char>>::empty());
    } else {
        lemma_split_join(h, ':');
    }
}

/// The text `h::t` of an IPv6 address written with `::`.
pub open spec fn compressed_text(h: Seq<Seq<char>>, t: Seq<Seq<char>>) -> Seq<char> {
    join(h, ':') + seq![':', ':'] + join(t, ':')
}

#[verifier::spinoff_prover]
proof fn lemma_compressed_ipv6_text(h: Seq<Seq<char>>, t: Seq<Seq<char>>)
    requires
        all_hex_groups(h),
        all_hex_groups(t),
        h.len() + t.len() <= 7,
    ensures
        ipv6_text(compressed_text(h, t)) == Some(
            group_values(h) + Seq::new((8 - h.len() - t.len()) as nat, |i: int| 0u16)
                + group_values(t),
        ),
        forall|k: int|
            0 <= k < compressed_text(h, t).len() ==> hex_or_colon(
                #[trigger] compressed_text(h, t)[k],
            ),
{
    let jh = join(h, ':');
    let jt = join(t, ':');
    let c = compressed_text(h, t);
    lemma_hex_groups_lack_colon(h);
    lemma_hex_groups_lack_colon(t);
    lemma_join_no_double_sep(h, ':');
    lemma_pieces_of_join(h);
    lemma_pieces_of_join(t);
    let n = jh.len() as int;
    assert(c[n] == ':' && c[n + 1] == ':');
    assert forall|i: int| 0 <= i < n implies !(#[trigger] c[i] == ':' && c[i + 1] == ':') by {
        assert(c[i] == jh[i]);
        if i + 1 < n {
            assert(c[i + 1] == jh[i + 1]);
        } else {
            assert(jh[i] == jh.last());
        }
    }
    lemma_find_double_colon_at(c, 0, n);
    assert(c.subrange(0, n) =~= jh);
    assert(c.subrange(n + 2, c.len() as int) =~= jt);
    assert(group_list(t) == Some(group_values(t)));
    lemma_join_chars(h, ':', |x: char| hex_or_colon(x));
    lemma_join_chars(t, ':', |x: char| hex_or_colon(x));
    assert forall|k: int| 0 <= k < c.len() implies hex_or_colon(#[trigger] c[k]) by {
        if k < n {
            assert(c[k] == jh[k]);
        } else if k >= n + 2 {
            assert(c[k] == jt[k - n - 2]);
        }
    }
}

#[verifier::spinoff_prover]
proof fn lemma_bracketed_target(c: Seq<char>, p: Seq<char>)
    requires
        forall|k: int| 0 <= k < c.len() ==> hex_or_colon(#[trigger] c[k]),
        p.len() >= 1,
        all_dec(p),
        1 <= dec_value(p) && dec_value(p) <= 65535,
    ensures
        target_spec(seq!['['] + c + seq![']', ':'] + p) == match ipv6_text(c) {
            Some(g) => Ok::<SpecSocketAddr, AddrError>(
                SpecSocketAddr::V6 { segments: g, port: dec_value(p) as u16, scope_id: 0 },
            ),
            None => Err(AddrError::NonNumeric),
        },
{
    let n = c.len() as int;
    let x = seq!['['] + c + seq![']', ':'] + p;
    assert(x[0] == '[');
    assert(x.last() == p[p.len() - 1]);
    assert(is_dec_digit(p[p.len() - 1]));
    lemma_trim_unpadded(x);
    assert(!is_dec_digit(x[0]));
    assert forall|i: int| 0 <= i < n + 1 implies #[trigger] x[i] != ']' by {
        if i > 0 {
            assert(x[i] == c[i - 1]);
            assert(hex_or_colon(c[i - 1]));
        }
    }
    assert(x[n + 1] == ']');
    lemma_find_char_at(x, ']', 0, n + 1);
    assert(x.subrange(1, n + 1) =~= c);
    assert(x.subrange(n + 2, x.len() as int) =~= seq![':'] + p);
    assert((seq![':'] + p).drop_first() =~= p);
    assert forall|i: int| 0 <= i < c.len() implies #[trigger] c[i] != '%' by {
        assert(hex_or_colon(c[i]));
    }
    lemma_find_char_none(c, '%', 0);
}

/// An IPv6 address may leave out any run of zero groups with `::`: for
/// groups `h` written before the `::` and `t` after it, each of one to four
/// hexadecimal digits and at most seven in all, and a port `p` from 1 to
/// 65535, the target `[h::t]:p` is accepted, and its groups are those of
/// `h`, then as many zeros as make eight, then those of `t`.
#[verifier::spinoff_prover]
pub proof fn lemma_compressed_ipv6_target(h: Seq<Seq<char>>, t: Seq<Seq<char>>, p: Seq<char>)
    requires
        forall|i: int| 0 <= i < h.len() ==> 1 <= #[trigger] h[i].len() && h[i].len() <= 4,
        forall|i: int, k: int|
            0 <= i < h.len() && 0 <= k < h[i].len() ==> ('0' <= #[trigger] h[i][k] && h[i][k]
                <= '9') || ('a' <= h[i][k] && h[i][k] <= 'f') || ('A' <= h[i][k] && h[i][k]
                <= 'F'),
        forall|i: int| 0 <= i < t.len() ==> 1 <= #[trigger] t[i].len() && t[i].len() <= 4,
        forall|i: int, k: int|
            0 <= i < t.len() && 0 <= k < t[i].len() ==> ('0' <= #[trigger] t[i][k] && t[i][k]
                <= '9') || ('a' <= t[i][k] && t[i][k] <= 'f') || ('A' <= t[i][k] && t[i][k]
                <= 'F'),
        h.len() + t.len() <= 7,
        p.len() >= 1,
        forall|k: int| 0 <= k < p.len() ==> '0' <= #[trigger] p[k] && p[k] <= '9',
        1 <= dec_value(p) && dec_value(p) <= 65535,
    ensures
        target_spec(
            seq!['['] + join(h, ':') + seq![':', ':'] + join(t, ':') + seq![']', ':'] + p,
        ) == Ok::<SpecSocketAddr, AddrError>(
            SpecSocketAddr::V6 {
                segments: Seq::new(h.len(), |i: int| hex_value(h[i]) as u16) + Seq::new(
                    (8 - h.len() - t.len()) as nat,
                    |i: int| 0u16,
                ) + Seq::new(t.len(), |i: int| hex_value(t[i]) as u16),
                port: dec_value(p) as u16,
                scope_id: 0,
            },
        ),
{
    assert forall|i: int| 0 <= i < h.len() implies hex_group_text(#[trigger] h[i]) by {
        assert forall|k: int| 0 <= k < h[i].len() implies is_hex_digit(#[trigger] h[i][k]) by {}
    }
    assert forall|i: int| 0 <= i < t.len() implies hex_group_text(#[trigger] t[i]) by {
        assert forall|k: int| 0 <= k < t[i].len() implies is_hex_digit(#[trigger] t[i][k]) by {}
    }
    lemma_compressed_ipv6_text(h, t);
    let c = compressed_text(h, t);
    assert(seq!['['] + join(h, ':') + seq![':', ':'] + join(t, ':') + seq![']', ':'] + p
        =~= seq!['['] + c + seq![']', ':'] + p);
    assert(all_dec(p));
    lemma_bracketed_target(c, p);
    assert(group_values(h) =~= Seq::new(h.len(), |i: int| hex_value(h[i]) as u16));
    assert(group_values(t) =~= Seq::new(t.len(), |i: int| hex_value(t[i]) as u16));
}

/// Host names are refused: once surrounding whitespace is removed, an
/// accepted target consists only of hexadecimal digits and the characters
/// `.`, `:`, `[`, `]`, `%` and `+`.
pub proof fn lemma_accepted_targets_are_numeric(input: Seq<char>)
    ensures
        target_spec(input) is Ok ==> all_numeric(trim(input)),
{
    let t = trim(input);
    if target_spec(input) is Ok {
        if t[0] == ':' {
            let p = t.drop_first();
            if p.len() > 0 && p[0] == '+' {
                lemma_numeric_dec(p.drop_first());
                lemma_numeric_concat(seq!['+'], p.drop_first());
                assert(seq!['+'] + p.drop_first() == p);
            } else {
                lemma_numeric_dec(p);
            }
            lemma_numeric_concat(seq![':'], p);
            assert(seq![':'] + p == t);
        } else if all_dec(t) {
            lemma_numeric_dec(t);
        } else {
            lemma_numeric_socket(t);
        }
    }
}

} // verus!
