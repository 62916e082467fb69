//! The bracketed IPv6 socket-address form `[addr%scope]:port`, read as the
//! standard socket-address parser reads it: one to four hexadecimal digits
//! per group, a single `::` standing for the missing zero groups, and an
//! optional dotted-quad tail filling the last two groups.
use vstd::prelude::*;

use crate::net::{SocketAddress, lemma_prefix_value_bound, octet_of, octet_value, port_of, port_value};
use crate::text::{all_digits, decimal_value, is_digit, slice_chars};

verus! {

pub open spec fn is_hex_digit(c: char) -> bool {
    is_digit(c) || ('a' <= c && c <= 'f') || ('A' <= c && c <= 'F')
}

pub open spec fn hex_digit_value(c: char) -> nat {
    if is_digit(c) {
        ((c as u32) - ('0' as u32)) as nat
    } else if 'a' <= c && c <= 'f' {
        ((c as u32) - ('a' as u32) + 10) as nat
    } else {
        ((c as u32) - ('A' as u32) + 10) as nat
    }
}

/// The value of a run of hexadecimal digits.
pub open spec fn hex_value(s: Seq<char>) -> nat
    decreases s.len(),
{
    if s.len() == 0 {
        0
    } else {
        hex_value(s.drop_last()) * 16 + hex_digit_value(s.last())
    }
}

/// The length of the run of hexadecimal (`hex`) or decimal digits at `pos`.
pub open spec fn run_len(s: Seq<char>, pos: int, hex: bool) -> nat
    decreases s.len() - pos,
{
    if 0 <= pos < s.len() && (if hex {
        is_hex_digit(s[pos])
    } else {
        is_digit(s[pos])
    }) {
        1 + run_len(s, pos + 1, hex)
    } else {
        0
    }
}

pub open spec fn char_at(s: Seq<char>, pos: int, c: char) -> bool {
    0 <= pos < s.len() && s[pos] == c
}

/// A group at `pos`: one to four hexadecimal digits, and where it ends.
pub open spec fn read_group(s: Seq<char>, pos: int) -> Option<(u16, int)> {
    let n = run_len(s, pos, true);
    if 1 <= n <= 4 {
        Some((hex_value(s.subrange(pos, pos + n)) as u16, pos + n))
    } else {
        None
    }
}

/// A dotted-quad octet at `pos` (see `octet_value`), and where it ends.
pub open spec fn read_octet(s: Seq<char>, pos: int) -> Option<(nat, int)> {
    let n = run_len(s, pos, false);
    match octet_value(s.subrange(pos, pos + n)) {
        Some(v) => Some((v, pos + n)),
        None => None,
    }
}

/// A dotted-quad address at `pos`, as a 32-bit value, and where it ends.
pub open spec fn read_ipv4(s: Seq<char>, pos: int) -> Option<(nat, int)> {
    match read_octet(s, pos) {
        None => None,
        Some((a, p1)) => if !char_at(s, p1, '.') {
            None
        } else {
            match read_octet(s, p1 + 1) {
                None => None,
                Some((b, p2)) => if !char_at(s, p2, '.') {
                    None
                } else {
                    match read_octet(s, p2 + 1) {
                        None => None,
                        Some((c, p3)) => if !char_at(s, p3, '.') {
                            None
                        } else {
                            match read_octet(s, p3 + 1) {
                                None => None,
                                Some((d, p4)) => Some((a * 0x100_0000 + b * 0x1_0000 + c * 0x100 + d, p4)),
                            }
                        },
                    }
                },
            }
        },
    }
}

/// Groups `i..limit` read from `pos`, each after the first preceded by
/// `:`: where at least two slots remain a dotted quad may end the run
/// (filling two groups, flagged); the run stops before the first element
/// that does not read. Returns the groups, the flag and where the run ends.
pub open spec fn read_groups(s: Seq<char>, pos: int, i: nat, limit: nat) -> (Seq<u16>, bool, int)
    decreases limit - i,
{
    if i >= limit {
        (Seq::empty(), false, pos)
    } else if i > 0 && !char_at(s, pos, ':') {
        (Seq::empty(), false, pos)
    } else {
        let start = if i == 0 {
            pos
        } else {
            pos + 1
        };
        if i + 1 < limit && read_ipv4(s, start) is Some {
            let v = read_ipv4(s, start).unwrap().0;
            (seq![(v / 0x1_0000) as u16, (v % 0x1_0000) as u16], true, read_ipv4(s, start).unwrap().1)
        } else {
            match read_group(s, start) {
                None => (Seq::empty(), false, pos),
                Some((g, p)) => {
                    let rest = read_groups(s, p, i + 1, limit);
                    (seq![g] + rest.0, rest.1, rest.2)
                },
            }
        }
    }
}

/// The 128-bit value of groups, most significant first.
pub open spec fn groups_value(g: Seq<u16>) -> nat
    decreases g.len(),
{
    if g.len() == 0 {
        0
    } else {
        groups_value(g.drop_last()) * 0x1_0000 + g.last() as nat
    }
}

/// An IPv6 address at `pos` and where it ends: eight groups; or fewer,
/// then `::`, then at most the groups that still fit, the missing ones
/// zero. A dotted quad may only end the address.
pub open spec fn read_ipv6(s: Seq<char>, pos: int) -> Option<(nat, int)> {
    let head = read_groups(s, pos, 0, 8);
    if head.0.len() == 8 {
        Some((groups_value(head.0), head.2))
    } else if head.1 {
        None
    } else if !(char_at(s, head.2, ':') && char_at(s, head.2 + 1, ':')) {
        None
    } else {
        let tail = read_groups(s, head.2 + 2, 0, (7 - head.0.len()) as nat);
        let zeros = Seq::new((8 - head.0.len() - tail.0.len()) as nat, |k: int| 0u16);
        Some((groups_value(head.0 + zeros + tail.0), tail.2))
    }
}

/// An optional `%` and decimal scope ID at `pos` (zero, consuming nothing,
/// where none reads).
pub open spec fn read_scope(s: Seq<char>, pos: int) -> (nat, int) {
    let n = run_len(s, pos + 1, false);
    if char_at(s, pos, '%') && n > 0 && decimal_value(s.subrange(pos + 1, pos + 1 + n)) <= 0xFFFF_FFFF {
        (decimal_value(s.subrange(pos + 1, pos + 1 + n)), pos + 1 + n)
    } else {
        (0, pos)
    }
}

/// The IPv6 socket address `[addr%scope]:port` that the whole text spells.
#[verifier::opaque]
pub open spec fn parsed_socket_addr_v6(t: Seq<char>) -> Option<SocketAddress> {
    if !char_at(t, 0, '[') {
        None
    } else {
        match read_ipv6(t, 1) {
            None => None,
            Some((ip, p)) => {
                let (scope, q) = read_scope(t, p);
                if char_at(t, q, ']') && char_at(t, q + 1, ':') {
                    match port_value(t.subrange(q + 2, t.len() as int)) {
                        Some(port) => Some(
                            SocketAddress { v6: true, ip: ip as u128, port, flowinfo: 0, scope_id: scope as u32 },
                        ),
                        None => None,
                    }
                } else {
                    None
                }
            },
        }
    }
}

proof fn lemma_run_len(s: Seq<char>, pos: int, j: int, hex: bool)
    requires
        0 <= pos <= j <= s.len(),
        forall|k: int| pos <= k < j ==> (if hex {
            is_hex_digit(#[trigger] s[k])
        } else {
            is_digit(s[k])
        }),
        j == s.len() || !(if hex {
            is_hex_digit(s[j])
        } else {
            is_digit(s[j])
        }),
    ensures
        run_len(s, pos, hex) == j - pos,
    decreases j - pos,
{
    if pos < j {
        lemma_run_len(s, pos + 1, j, hex);
    }
}

/// Where the run of hexadecimal (`hex`) or decimal digits at `pos` ends.
fn run_end(s: &Vec<char>, pos: usize, hex: bool) -> (j: usize)
    requires
        pos <= s.len(),
    ensures
        pos <= j <= s.len(),
        j - pos == run_len(s@, pos as int, hex),
{
    let mut j = pos;
    while j < s.len()
        invariant
            pos <= j <= s.len(),
            forall|k: int| pos <= k < j ==> (if hex {
                is_hex_digit(#[trigger] s@[k])
            } else {
                is_digit(s@[k])
            }),
        ensures
            pos <= j <= s.len(),
            forall|k: int| pos <= k < j ==> (if hex {
                is_hex_digit(#[trigger] s@[k])
            } else {
                is_digit(s@[k])
            }),
            j == s.len() || !(if hex {
                is_hex_digit(s@[j as int])
            } else {
                is_digit(s@[j as int])
            }),
        decreases s.len() - j,
    {
        let c = s[j];
        let ok = if hex {
            ('0' <= c && c <= '9') || ('a' <= c && c <= 'f') || ('A' <= c && c <= 'F')
        } else {
            '0' <= c && c <= '9'
        };
        if !ok {
            break;
        }
        j = j + 1;
    }
    proof {
        lemma_run_len(s@, pos as int, j as int, hex);
    }
    j
}

pub open spec fn pow16(n: nat) -> nat
    decreases n,
{
    if n == 0 {
        1
    } else {
        16 * pow16((n - 1) as nat)
    }
}

/// The value of one to four hexadecimal digits.
fn hex_group_value(t: &Vec<char>) -> (v: u16)
    requires
        1 <= t@.len() <= 4,
        forall|k: int| 0 <= k < t@.len() ==> is_hex_digit(#[trigger] t@[k]),
    ensures
        v == hex_value(t@),
{
    let mut v: u32 = 0;
    let mut i: usize = 0;
    while i < t.len()
        invariant
            i <= t@.len() <= 4,
            forall|k: int| 0 <= k < t@.len() ==> is_hex_digit(#[trigger] t@[k]),
            v == hex_value(t@.subrange(0, i as int)),
            v < pow16(i as nat),
        decreases t@.len() - i,
    {
        let c = t[i];
        assert(is_hex_digit(t@[i as int]));
        let d: u32 = if '0' <= c && c <= '9' {
            (c as u32) - 48
        } else if 'a' <= c && c <= 'f' {
            (c as u32) - 87
        } else {
            (c as u32) - 55
        };
        proof {
            assert(t@.subrange(0, i + 1).drop_last() =~= t@.subrange(0, i as int));
            assert(t@.subrange(0, i + 1).last() == c);
            assert(pow16((i + 1) as nat) == 16 * pow16(i as nat));
            assert(pow16(4) == 0x1_0000) by {
                reveal_with_fuel(pow16, 5);
            }
            assert(pow16(i as nat) <= pow16(3)) by {
                reveal_with_fuel(pow16, 4);
            }
        }
        v = v * 16 + d;
        i = i + 1;
    }
    proof {
        assert(t@.subrange(0, t@.len() as int) =~= t@);
        assert(pow16(4) == 0x1_0000) by {
            reveal_with_fuel(pow16, 5);
        }
        assert(pow16(i as nat) <= pow16(4)) by {
            reveal_with_fuel(pow16, 5);
        }
    }
    v as u16
}

fn read_group_exec(s: &Vec<char>, pos: usize) -> (r: Option<(u16, usize)>)
    requires
        pos <= s.len(),
    ensures
        match r {
            Some((g, p)) => read_group(s@, pos as int) == Some((g, p as int)) && p <= s.len(),
            None => read_group(s@, pos as int) is None,
        },
{
    let j = run_end(s, pos, true);
    if j - pos < 1 || j - pos > 4 {
        return None;
    }
    let t = slice_chars(s, pos, j);
    proof {
        assert forall|k: int| 0 <= k < t@.len() implies is_hex_digit(#[trigger] t@[k]) by {
            assert(t@[k] == s@[pos + k]);
            lemma_run_prefix(s@, pos as int, pos + k, true);
        }
    }
    let g = hex_group_value(&t);
    Some((g, j))
}

/// Every character of a run is a digit of its kind.
proof fn lemma_run_prefix(s: Seq<char>, pos: int, k: int, hex: bool)
    requires
        0 <= pos <= k < pos + run_len(s, pos, hex),
    ensures
        if hex {
            is_hex_digit(s[k])
        } else {
            is_digit(s[k])
        },
    decreases k - pos,
{
    if k > pos {
        lemma_run_prefix(s, pos + 1, k, hex);
    }
}

fn read_octet_exec(s: &Vec<char>, pos: usize) -> (r: Option<(u32, usize)>)
    requires
        pos <= s.len(),
    ensures
        match r {
            Some((v, p)) => read_octet(s@, pos as int) == Some((v as nat, p as int)) && p <= s.len(),
            None => read_octet(s@, pos as int) is None,
        },
{
    let j = run_end(s, pos, false);
    let t = slice_chars(s, pos, j);
    match octet_of(&t) {
        Some(v) => Some((v, j)),
        None => None,
    }
}

fn char_at_exec(s: &Vec<char>, pos: usize, c: char) -> (r: bool)
    ensures
        r == char_at(s@, pos as int, c),
{
    pos < s.len() && s[pos] == c
}

fn read_ipv4_exec(s: &Vec<char>, pos: usize) -> (r: Option<(u32, usize)>)
    requires
        pos <= s.len(),
    ensures
        match r {
            Some((v, p)) => read_ipv4(s@, pos as int) == Some((v as nat, p as int)) && p <= s.len(),
            None => read_ipv4(s@, pos as int) is None,
        },
{
    let (a, p1) = match read_octet_exec(s, pos) {
        None => return None,
        Some(x) => x,
    };
    if !char_at_exec(s, p1, '.') {
        return None;
    }
    let (b, p2) = match read_octet_exec(s, p1 + 1) {
        None => return None,
        Some(x) => x,
    };
    if !char_at_exec(s, p2, '.') {
        return None;
    }
    let (c, p3) = match read_octet_exec(s, p2 + 1) {
        None => return None,
        Some(x) => x,
    };
    if !char_at_exec(s, p3, '.') {
        return None;
    }
    let (d, p4) = match read_octet_exec(s, p3 + 1) {
        None => return None,
        Some(x) => x,
    };
    Some((a * 0x100_0000 + b * 0x1_0000 + c * 0x100 + d, p4))
}

proof fn lemma_read_groups_len(s: Seq<char>, pos: int, i: nat, limit: nat)
    ensures
        read_groups(s, pos, i, limit).0.len() <= limit - i || i >= limit,
        i >= limit ==> read_groups(s, pos, i, limit).0.len() == 0,
    decreases limit - i,
{
    if i < limit {
        let start = if i == 0 {
            pos
        } else {
            pos + 1
        };
        if !(i > 0 && !char_at(s, pos, ':')) && !(i + 1 < limit && read_ipv4(s, start) is Some) {
            match read_group(s, start) {
                None => {},
                Some((g, p)) => {
                    lemma_read_groups_len(s, p, i + 1, limit);
                },
            }
        }
    }
}

fn read_groups_exec(s: &Vec<char>, pos: usize, i: usize, limit: usize) -> (r: (Vec<u16>, bool, usize))
    requires
        pos <= s.len(),
        i <= limit <= 8,
    ensures
        (r.0@, r.1, r.2 as int) == read_groups(s@, pos as int, i as nat, limit as nat),
        r.2 <= s.len(),
    decreases limit - i,
{
    if i >= limit {
        return (Vec::new(), false, pos);
    }
    if i > 0 && !char_at_exec(s, pos, ':') {
        return (Vec::new(), false, pos);
    }
    let start = if i == 0 {
        pos
    } else {
        pos + 1
    };
    if i + 1 < limit {
        match read_ipv4_exec(s, start) {
            Some((v, p)) => {
                let mut g: Vec<u16> = Vec::new();
                g.push((v / 0x1_0000) as u16);
                g.push((v % 0x1_0000) as u16);
                assert(g@ =~= seq![(v / 0x1_0000) as u16, (v % 0x1_0000) as u16]);
                return (g, true, p);
            },
            None => {},
        }
    }
    match read_group_exec(s, start) {
        None => (Vec::new(), false, pos),
        Some((g, p)) => {
            let (rest, v4, end) = read_groups_exec(s, p, i + 1, limit);
            let mut out: Vec<u16> = Vec::new();
            out.push(g);
            let mut rest = rest;
            out.append(&mut rest);
            assert(out@ =~= seq![g] + read_groups(s@, p as int, (i + 1) as nat, limit as nat).0);
            (out, v4, end)
        },
    }
}

pub open spec fn pow65536(n: nat) -> nat
    decreases n,
{
    if n == 0 {
        1
    } else {
        0x1_0000 * pow65536((n - 1) as nat)
    }
}

/// The 128-bit value of eight groups.
fn groups_to_u128(g: &Vec<u16>) -> (v: u128)
    requires
        g@.len() == 8,
    ensures
        v == groups_value(g@),
{
    let mut v: u128 = 0;
    let mut i: usize = 0;
    while i < g.len()
        invariant
            i <= g@.len() == 8,
            v == groups_value(g@.subrange(0, i as int)),
            v < pow65536(i as nat),
        decreases g@.len() - i,
    {
        proof {
            assert(g@.subrange(0, i + 1).drop_last() =~= g@.subrange(0, i as int));
            assert(g@.subrange(0, i + 1).last() == g@[i as int]);
            assert(pow65536((i + 1) as nat) == 0x1_0000 * pow65536(i as nat));
            assert(pow65536(8) == 0x1_0000_0000_0000_0000_0000_0000_0000_0000) by {
                reveal_with_fuel(pow65536, 9);
            }
            assert(pow65536(i as nat) <= pow65536(7)) by {
                reveal_with_fuel(pow65536, 8);
            }
        }
        v = v * 0x1_0000 + g[i] as u128;
        i = i + 1;
    }
    proof {
        assert(g@.subrange(0, 8) =~= g@);
    }
    v
}

fn read_ipv6_exec(s: &Vec<char>, pos: usize) -> (r: Option<(u128, usize)>)
    requires
        pos <= s.len(),
    ensures
        match r {
            Some((v, p)) => read_ipv6(s@, pos as int) == Some((v as nat, p as int)) && p <= s.len(),
            None => read_ipv6(s@, pos as int) is None,
        },
{
    let (head, head_v4, p1) = read_groups_exec(s, pos, 0, 8);
    proof {
        lemma_read_groups_len(s@, pos as int, 0, 8);
    }
    if head.len() == 8 {
        let v = groups_to_u128(&head);
        return Some((v, p1));
    }
    if head_v4 {
        return None;
    }
    if !(char_at_exec(s, p1, ':') && char_at_exec(s, p1 + 1, ':')) {
        return None;
    }
    let limit = 7 - head.len();
    let (tail, _, p2) = read_groups_exec(s, p1 + 2, 0, limit);
    proof {
        lemma_read_groups_len(s@, p1 + 2, 0, limit as nat);
    }
    let ghost hv = head@;
    let ghost tv = tail@;
    let nz = 8 - head.len() - tail.len();
    let mut full: Vec<u16> = head;
    let mut k: usize = 0;
    while k < nz
        invariant
            k <= nz,
            nz == 8 - hv.len() - tv.len(),
            full@ == hv + Seq::new(k as nat, |j: int| 0u16),
        decreases nz - k,
    {
        full.push(0);
        proof {
            assert(full@ =~= hv + Seq::new((k + 1) as nat, |j: int| 0u16));
        }
        k = k + 1;
    }
    let mut t = tail;
    full.append(&mut t);
    assert(full@ =~= hv + Seq::new((8 - hv.len() - tv.len()) as nat, |j: int| 0u16) + tv);
    let v = groups_to_u128(&full);
    Some((v, p2))
}

/// A nonempty run of decimal digits as a `u32`, if its value fits.
fn decimal_u32(t: &Vec<char>) -> (r: Option<u32>)
    requires
        t@.len() > 0,
        forall|k: int| 0 <= k < t@.len() ==> is_digit(#[trigger] t@[k]),
    ensures
        r matches Some(v) ==> v == decimal_value(t@),
        r is None ==> decimal_value(t@) > 0xFFFF_FFFF,
{
    let mut v: u64 = 0;
    let mut i: usize = 0;
    while i < t.len()
        invariant
            i <= t@.len(),
            forall|k: int| 0 <= k < t@.len() ==> is_digit(#[trigger] t@[k]),
            v == decimal_value(t@.subrange(0, i as int)),
            v <= 0xFFFF_FFFF,
        decreases t@.len() - i,
    {
        let c = t[i];
        assert(is_digit(t@[i as int]));
        proof {
            assert(t@.subrange(0, i + 1).drop_last() =~= t@.subrange(0, i as int));
            assert(t@.subrange(0, i + 1).last() == c);
        }
        let next = v * 10 + ((c as u64) - 48);
        if next > 0xFFFF_FFFF {
            proof {
                assert(all_digits(t@));
                lemma_prefix_value_bound(t@, (i + 1) as int);
            }
            return None;
        }
        v = next;
        i = i + 1;
    }
    proof {
        assert(t@.subrange(0, t@.len() as int) =~= t@);
    }
    Some(v as u32)
}

fn read_scope_exec(s: &Vec<char>, pos: usize) -> (r: (u32, usize))
    requires
        pos <= s.len(),
    ensures
        (r.0 as nat, r.1 as int) == read_scope(s@, pos as int),
        r.1 <= s.len(),
{
    if !char_at_exec(s, pos, '%') {
        return (0, pos);
    }
    let j = run_end(s, pos + 1, false);
    if j == pos + 1 {
        return (0, pos);
    }
    let t = slice_chars(s, pos + 1, j);
    proof {
        assert forall|k: int| 0 <= k < t@.len() implies is_digit(#[trigger] t@[k]) by {
            assert(t@[k] == s@[pos + 1 + k]);
            lemma_run_prefix(s@, pos + 1, pos + 1 + k, false);
        }
    }
    match decimal_u32(&t) {
        Some(v) => (v, j),
        None => (0, pos),
    }
}

/// `text.parse::<SocketAddrV6>()`: the bracketed form (see
/// `parsed_socket_addr_v6`).
pub fn parse_socket_addr_v6(t: &Vec<char>) -> (r: Option<SocketAddress>)
    ensures
        r == parsed_socket_addr_v6(t@),
{
    reveal(parsed_socket_addr_v6);
    if !char_at_exec(t, 0, '[') {
        return None;
    }
    let (ip, p) = match read_ipv6_exec(t, 1) {
        None => return None,
        Some(x) => x,
    };
    let (scope, q) = read_scope_exec(t, p);
    if !(char_at_exec(t, q, ']') && char_at_exec(t, q + 1, ':')) {
        return None;
    }
    let port_text = slice_chars(t, q + 2, t.len());
    match port_of(&port_text) {
        Some(port) => Some(SocketAddress { v6: true, ip, port, flowinfo: 0, scope_id: scope }),
        None => None,
    }
}

} // verus!
