//! Socket addresses as plain values, and the parser for their numeric
//! text forms (`a.b.c.d:port` here, `[addr]:port` in `ipv6`).
use vstd::prelude::*;

use crate::ipv6::{parse_socket_addr_v6, parsed_socket_addr_v6};
use crate::text::{
    all_digits, decimal_value, find_first, is_digit, slice_chars, split_first,
};

verus! {

/// An IP socket address. For IPv4 `ip` holds the 32-bit address and
/// `flowinfo`/`scope_id` are zero; for IPv6 `ip` holds the 128-bit address.
#[derive(Clone, Copy, Debug, PartialEq, Eq, Structural, Hash, PartialOrd, Ord)]
pub struct SocketAddress {
    pub v6: bool,
    pub ip: u128,
    pub port: u16,
    pub flowinfo: u32,
    pub scope_id: u32,
}

/// Address order: IPv4 before IPv6, then address, port, flow info, scope.
pub open spec fn addr_lt(a: SocketAddress, b: SocketAddress) -> bool {
    if a.v6 != b.v6 {
        !a.v6
    } else if a.ip != b.ip {
        a.ip < b.ip
    } else if a.port != b.port {
        a.port < b.port
    } else if a.flowinfo != b.flowinfo {
        a.flowinfo < b.flowinfo
    } else {
        a.scope_id < b.scope_id
    }
}

pub fn addr_less(a: &SocketAddress, b: &SocketAddress) -> (r: bool)
    ensures
        r == addr_lt(*a, *b),
{
    if a.v6 != b.v6 {
        !a.v6
    } else if a.ip != b.ip {
        a.ip < b.ip
    } else if a.port != b.port {
        a.port < b.port
    } else if a.flowinfo != b.flowinfo {
        a.flowinfo < b.flowinfo
    } else {
        a.scope_id < b.scope_id
    }
}

pub proof fn lemma_addr_lt_order(a: SocketAddress, b: SocketAddress, c: SocketAddress)
    ensures
        !addr_lt(a, a),
        addr_lt(a, b) && addr_lt(b, c) ==> addr_lt(a, c),
        a != b ==> addr_lt(a, b) || addr_lt(b, a),
        addr_lt(a, b) ==> !addr_lt(b, a),
{
}

/// A dotted-quad octet as `Ipv4Addr`'s parser reads it: one to three
/// decimal digits, no leading zero on a multi-digit octet, at most 255.
pub open spec fn octet_value(s: Seq<char>) -> Option<nat> {
    if 1 <= s.len() <= 3 && all_digits(s) && !(s.len() > 1 && s[0] == '0') && decimal_value(s) <= 255 {
        Some(decimal_value(s))
    } else {
        None
    }
}

/// A port as the socket-address parser reads it: at least one decimal
/// digit (leading zeros allowed, no sign), at most 65535.
pub open spec fn port_value(s: Seq<char>) -> Option<u16> {
    if s.len() > 0 && all_digits(s) && decimal_value(s) <= 0xFFFF {
        Some(decimal_value(s) as u16)
    } else {
        None
    }
}

/// The IPv4 socket address `a.b.c.d:port` that the text spells, if any.
pub open spec fn parsed_socket_addr_v4(t: Seq<char>) -> Option<SocketAddress> {
    match split_first(t, '.') {
        None => None,
        Some((a, r1)) => match split_first(r1, '.') {
            None => None,
            Some((b, r2)) => match split_first(r2, '.') {
                None => None,
                Some((c, r3)) => match split_first(r3, ':') {
                    None => None,
                    Some((d, port)) => {
                        match (octet_value(a), octet_value(b), octet_value(c), octet_value(d), port_value(port)) {
                            (Some(va), Some(vb), Some(vc), Some(vd), Some(p)) => Some(
                                SocketAddress {
                                    v6: false,
                                    ip: (va * 0x100_0000 + vb * 0x1_0000 + vc * 0x100 + vd) as u128,
                                    port: p,
                                    flowinfo: 0,
                                    scope_id: 0,
                                },
                            ),
                            _ => None,
                        }
                    },
                },
            },
        },
    }
}

fn decimal_of(s: &Vec<char>) -> (r: Option<u32>)
    ensures
        r matches Some(v) ==> s@.len() > 0 && all_digits(s@) && v == decimal_value(s@) && v <= 0x1_0000,
        r is None ==> !(s@.len() > 0 && all_digits(s@) && decimal_value(s@) <= 0xFFFF),
{
    if s.len() == 0 {
        return None;
    }
    let mut v: u32 = 0;
    let mut i: usize = 0;
    while i < s.len()
        invariant
            i <= s.len(),
            all_digits(s@.subrange(0, i as int)),
            v == decimal_value(s@.subrange(0, i as int)),
            v <= 0xFFFF,
        decreases s.len() - i,
    {
        let c = s[i];
        if !('0' <= c && c <= '9') {
            proof {
                assert(!is_digit(s@[i as int]));
            }
            return None;
        }
        proof {
            assert(s@.subrange(0, i + 1) =~= s@.subrange(0, i as int).push(c));
            assert(s@.subrange(0, i + 1).drop_last() =~= s@.subrange(0, i as int));
        }
        let next = v * 10 + ((c as u32) - 48);
        if next > 0xFFFF {
            proof {
                lemma_prefix_value_bound(s@, (i + 1) as int);
            }
            return None;
        }
        v = next;
        i = i + 1;
    }
    proof {
        assert(s@.subrange(0, s.len() as int) =~= s@);
    }
    Some(v)
}

pub(crate) proof fn lemma_prefix_value_bound(s: Seq<char>, k: int)
    requires
        0 <= k <= s.len(),
    ensures
        all_digits(s) ==> decimal_value(s.subrange(0, k)) <= decimal_value(s),
    decreases s.len() - k,
{
    if k < s.len() && all_digits(s) {
        lemma_prefix_value_bound(s, k + 1);
        let p = s.subrange(0, k);
        assert(s.subrange(0, k + 1).drop_last() =~= p);
    } else if k == s.len() {
        assert(s.subrange(0, k) =~= s);
    }
}

pub(crate) fn octet_of(s: &Vec<char>) -> (r: Option<u32>)
    ensures
        r matches Some(v) ==> octet_value(s@) == Some(v as nat),
        r is None ==> octet_value(s@) is None,
{
    if s.len() < 1 || s.len() > 3 {
        return None;
    }
    if s.len() > 1 && s[0] == '0' {
        return None;
    }
    match decimal_of(s) {
        None => None,
        Some(v) => if v <= 255 {
            Some(v)
        } else {
            None
        },
    }
}

pub(crate) fn port_of(s: &Vec<char>) -> (r: Option<u16>)
    ensures
        r == port_value(s@),
{
    match decimal_of(s) {
        None => None,
        Some(v) => if v <= 0xFFFF {
            Some(v as u16)
        } else {
            None
        },
    }
}

/// The socket address that the whole text spells: the IPv4 form, else the
/// bracketed IPv6 form, as `text.parse::<SocketAddr>()` reads them.
pub open spec fn parsed_socket_addr(t: Seq<char>) -> Option<SocketAddress> {
    match parsed_socket_addr_v4(t) {
        Some(a) => Some(a),
        None => parsed_socket_addr_v6(t),
    }
}

/// `text.parse::<SocketAddr>()` (see `parsed_socket_addr`).
pub fn parse_socket_addr(text: &Vec<char>) -> (r: Option<SocketAddress>)
    ensures
        r == parsed_socket_addr(text@),
{
    match parse_socket_addr_v4(text) {
        Some(a) => Some(a),
        None => parse_socket_addr_v6(text),
    }
}

/// `text.parse::<SocketAddrV4>()` (see `parsed_socket_addr_v4`).
pub fn parse_socket_addr_v4(text: &Vec<char>) -> (r: Option<SocketAddress>)
    ensures
        r == parsed_socket_addr_v4(text@),
{
    let i1 = match find_first(text, '.') {
        None => return None,
        Some(i) => i,
    };
    assert(i1 < text.len());
    let a = slice_chars(text, 0, i1);
    let r1 = slice_chars(text, i1 + 1, text.len());
    let i2 = match find_first(&r1, '.') {
        None => return None,
        Some(i) => i,
    };
    let b = slice_chars(&r1, 0, i2);
    let r2 = slice_chars(&r1, i2 + 1, r1.len());
    let i3 = match find_first(&r2, '.') {
        None => return None,
        Some(i) => i,
    };
    let c = slice_chars(&r2, 0, i3);
    let r3 = slice_chars(&r2, i3 + 1, r2.len());
    let i4 = match find_first(&r3, ':') {
        None => return None,
        Some(i) => i,
    };
    let d = slice_chars(&r3, 0, i4);
    let port_text = slice_chars(&r3, i4 + 1, r3.len());
    let va = octet_of(&a);
    let vb = octet_of(&b);
    let vc = octet_of(&c);
    let vd = octet_of(&d);
    let vp = port_of(&port_text);
    match (va, vb, vc, vd, vp) {
        (Some(x1), Some(x2), Some(x3), Some(x4), Some(p)) => {
            let ip: u32 = x1 * 0x100_0000 + x2 * 0x1_0000 + x3 * 0x100 + x4;
            Some(SocketAddress { v6: false, ip: ip as u128, port: p, flowinfo: 0, scope_id: 0 })
        },
        _ => None,
    }
}


/// Strictly increasing in address order, so no address occurs twice.
pub open spec fn sorted_addrs(s: Seq<SocketAddress>) -> bool {
    forall|i: int, j: int| 0 <= i < j < s.len() ==> addr_lt(#[trigger] s[i], #[trigger] s[j])
}

/// Insert `e` into the sorted address set.
pub fn insert_addr(set: &mut Vec<SocketAddress>, e: SocketAddress)
    requires
        sorted_addrs(old(set)@),
    ensures
        sorted_addrs(final(set)@),
        final(set)@.to_set() == old(set)@.to_set().insert(e),
{
    let ghost s0 = set@;
    let mut i: usize = 0;
    while i < set.len()
        invariant
            set@ == s0,
            sorted_addrs(s0),
            i <= set.len(),
            forall|k: int| 0 <= k < i ==> addr_lt(#[trigger] s0[k], e),
        ensures
            i <= set.len(),
            i < set.len() ==> addr_lt(e, s0[i as int]),
        decreases set.len() - i,
    {
        let x = set[i];
        if x == e {
            proof {
                assert(s0.to_set() =~= s0.to_set().insert(e));
            }
            return;
        }
        if addr_less(&e, &x) {
            break;
        }
        proof {
            lemma_addr_lt_order(x, e, e);
        }
        i = i + 1;
    }
    set.insert(i, e);
    proof {
        let s1 = set@;
        assert(s1 =~= s0.insert(i as int, e));
        assert forall|a: int, b: int| 0 <= a < b < s1.len() implies addr_lt(#[trigger] s1[a], #[trigger] s1[b]) by {
            if b < i {
            } else if b == i {
            } else if a < i {
                lemma_addr_lt_order(s0[a], e, s0[b - 1]);
                if b - 1 > i {
                    lemma_addr_lt_order(e, s0[i as int], s0[b - 1]);
                }
            } else if a == i {
                if b - 1 > i {
                    lemma_addr_lt_order(e, s0[i as int], s0[b - 1]);
                }
            } else {
                assert(addr_lt(s0[a - 1], s0[b - 1]));
            }
        }
        assert forall|x: SocketAddress| s1.to_set().contains(x) <==> s0.to_set().insert(e).contains(x) by {
            if s1.to_set().contains(x) {
                let k = choose|k: int| 0 <= k < s1.len() && s1[k] == x;
                if k < i {
                    assert(s0[k] == x);
                } else if k > i {
                    assert(s0[k - 1] == x);
                }
            }
            if s0.to_set().contains(x) {
                let k = choose|k: int| 0 <= k < s0.len() && s0[k] == x;
                if k < i {
                    assert(s1[k] == x);
                } else {
                    assert(s1[k + 1] == x);
                }
            }
            if x == e {
                assert(s1[i as int] == x);
            }
        }
        assert(s1.to_set() =~= s0.to_set().insert(e));
    }
}


/// Order resolved addresses for dialing: IPv4 before IPv6, then by address
/// order, each once; `None` when resolution returned nothing.
pub fn order_resolved(addrs: &Vec<SocketAddress>) -> (r: Option<Vec<SocketAddress>>)
    ensures
        addrs@.len() == 0 <==> r is None,
        r matches Some(v) ==> sorted_addrs(v@) && v@.to_set() == addrs@.to_set(),
{
    let mut out: Vec<SocketAddress> = Vec::new();
    let mut i: usize = 0;
    while i < addrs.len()
        invariant
            i <= addrs@.len(),
            sorted_addrs(out@),
            out@.to_set() == addrs@.subrange(0, i as int).to_set(),
        decreases addrs@.len() - i,
    {
        let ghost before = out@.to_set();
        insert_addr(&mut out, addrs[i]);
        proof {
            let p = addrs@.subrange(0, i as int);
            assert(addrs@.subrange(0, i + 1) =~= p.push(addrs@[i as int]));
            Seq::lemma_to_set_insert_commutes(p, addrs@[i as int]);
            assert(p.push(addrs@[i as int]) =~= p + seq![addrs@[i as int]]);
        }
        i = i + 1;
    }
    proof {
        assert(addrs@.subrange(0, addrs@.len() as int) =~= addrs@);
    }
    if out.len() == 0 {
        proof {
            if addrs@.len() > 0 {
                assert(addrs@.to_set().contains(addrs@[0]));
                assert(out@.to_set().contains(addrs@[0]));
            }
        }
        None
    } else {
        proof {
            assert(out@.to_set().contains(out@[0]));
            assert(addrs@.to_set().contains(out@[0]));
        }
        Some(out)
    }
}

} // verus!
