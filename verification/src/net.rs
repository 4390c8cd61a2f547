//! Source-address filtering.
//!
//! A firewall is the proper place for this, but it needs root and it does not
//! travel with the binary — so the same rule has to be rebuilt on every host and
//! is silently absent on Windows. This is defence in depth rather than a
//! replacement: on a trusted LAN it stops a device that has no business calling
//! the proxy, and it is one line of config that moves with the config.
//!
//! Note what it cannot do. A source address on a local network is trivially
//! spoofable by anyone already on that network, and behind a reverse proxy every
//! request appears to come from the proxy. Treat it as a fence, not a lock — the
//! client API key remains the thing that actually authorises a request.

use vstd::prelude::*;

use crate::text;

verus! {

/// An address: the bits of either family as a number.
#[derive(Debug, Clone, Copy, PartialEq, Eq, Structural)]
pub enum IpAddr {
    V4(u32),
    V6(u128),
}

/// An allow rule: a bare address, or a CIDR block.
#[derive(Debug, Clone, Copy, PartialEq, Eq, Structural)]
pub struct Rule {
    pub addr: IpAddr,
    /// Prefix length; a bare address is the full width of its family.
    pub bits: u8,
}

// --- Addresses as text -------------------------------------------------------

/// One of the four numbers of a v4 address: up to three digits, no leading zero,
/// at most 255.
pub open spec fn octet(s: Seq<char>) -> Option<nat> {
    if 0 < s.len() <= 3 && text::all_digits(s) && (s.len() == 1 || s[0] != '0')
        && text::digits_value(s) <= 255 {
        Some(text::digits_value(s))
    } else {
        None
    }
}

/// A v4 address in dotted form.
pub open spec fn v4_text(s: Seq<char>) -> Option<u32> {
    let parts = text::pieces(s, '.');
    if parts.len() != 4 {
        None
    } else {
        match (octet(parts[0]), octet(parts[1]), octet(parts[2]), octet(parts[3])) {
            (Some(a), Some(b), Some(c), Some(d)) => Some(
                (a * 0x100_0000 + b * 0x1_0000 + c * 0x100 + d) as u32,
            ),
            _ => None,
        }
    }
}

pub open spec fn hex_value(c: char) -> Option<nat> {
    if '0' <= c && c <= '9' {
        Some((c as int - '0' as int) as nat)
    } else if 'a' <= c && c <= 'f' {
        Some((c as int - 'a' as int + 10) as nat)
    } else if 'A' <= c && c <= 'F' {
        Some((c as int - 'A' as int + 10) as nat)
    } else {
        None
    }
}

/// The value of hexadecimal digits.
pub open spec fn hex_number(s: Seq<char>) -> Option<nat>
    decreases s.len(),
{
    if s.len() == 0 {
        Some(0)
    } else {
        match (hex_number(s.drop_last()), hex_value(s.last())) {
            (Some(n), Some(d)) => Some(n * 16 + d),
            _ => None,
        }
    }
}

/// One of the eight numbers of a v6 address: up to four hexadecimal digits.
pub open spec fn hex_group(s: Seq<char>) -> Option<nat> {
    if 0 < s.len() <= 4 {
        hex_number(s)
    } else {
        None
    }
}

/// The numbers of colon-separated parts, of which the last may be a v4 address
/// where `dotted` allows it: that stands for two numbers.
pub open spec fn groups(parts: Seq<Seq<char>>, dotted: bool) -> Option<Seq<nat>>
    decreases parts.len(),
{
    if parts.len() == 0 {
        Some(Seq::empty())
    } else {
        match groups(parts.drop_last(), false) {
            Some(before) => match hex_group(parts.last()) {
                Some(g) => Some(before.push(g)),
                None => if dotted {
                    match v4_text(parts.last()) {
                        Some(v4) => Some(
                            before.push((v4 / 0x1_0000) as nat).push((v4 % 0x1_0000) as nat),
                        ),
                        None => None,
                    }
                } else {
                    None
                },
            },
            None => None,
        }
    }
}

/// The numbers in a stretch of a v6 address, which may be empty.
pub open spec fn stretch(s: Seq<char>, dotted: bool) -> Option<Seq<nat>> {
    if s.len() == 0 {
        Some(Seq::empty())
    } else {
        groups(text::pieces(s, ':'), dotted)
    }
}

/// Eight numbers, sixteen bits each, as one.
pub open spec fn folded(g: Seq<nat>) -> nat
    decreases g.len(),
{
    if g.len() == 0 {
        0
    } else {
        folded(g.drop_last()) * 0x1_0000 + g.last()
    }
}

/// Does a double colon stand at `i`?
pub open spec fn gap_at(s: Seq<char>, i: int) -> bool {
    0 <= i && i + 1 < s.len() && s[i] == ':' && s[i + 1] == ':'
}

/// The first double colon of a text.
pub open spec fn gap(s: Seq<char>) -> Option<int> {
    if exists|i: int| gap_at(s, i) {
        Some(choose|i: int| #[trigger] gap_at(s, i) && forall|j: int| j < i ==> !gap_at(s, j))
    } else {
        None
    }
}

pub open spec fn zeros(n: nat) -> Seq<nat> {
    Seq::new(n, |k: int| 0nat)
}

/// A v6 address that names all eight numbers.
pub open spec fn v6_whole(s: Seq<char>) -> Option<u128> {
    match stretch(s, true) {
        Some(g) => if g.len() == 8 {
            Some(folded(g) as u128)
        } else {
            None
        },
        None => None,
    }
}

/// A v6 address with `head` before a double colon and `tail` behind it: the numbers
/// between, one at least, are zero.
pub open spec fn v6_gapped(head: Seq<char>, tail: Seq<char>) -> Option<u128> {
    match (stretch(head, false), stretch(tail, true)) {
        (Some(h), Some(t)) => if h.len() + t.len() <= 7 {
            Some(folded(h + zeros((8 - h.len() - t.len()) as nat) + t) as u128)
        } else {
            None
        },
        _ => None,
    }
}

/// A v6 address.
pub open spec fn v6_text(s: Seq<char>) -> Option<u128> {
    match gap(s) {
        None => v6_whole(s),
        Some(i) => v6_gapped(s.take(i), s.skip(i + 2)),
    }
}

/// The address that a text names.
pub open spec fn address(s: Seq<char>) -> Option<IpAddr> {
    match v4_text(s) {
        Some(a) => Some(IpAddr::V4(a)),
        None => match v6_text(s) {
            Some(a) => Some(IpAddr::V6(a)),
            None => None,
        },
    }
}

/// How many bits an address has.
pub open spec fn width(a: IpAddr) -> u8 {
    match a {
        IpAddr::V4(_) => 32,
        IpAddr::V6(_) => 128,
    }
}

/// The rule that a trimmed text states.
pub open spec fn rule_text(s: Seq<char>) -> Option<Rule> {
    match text::cut_first(s, '/') {
        Some((a, b)) => match (text::read_number(b, u8::MAX as nat), address(a)) {
            (Some(bits), Some(addr)) => if bits <= width(addr) {
                Some(Rule { addr, bits: bits as u8 })
            } else {
                None
            },
            _ => None,
        },
        None => match address(s) {
            Some(addr) => Some(Rule { addr, bits: width(addr) }),
            None => None,
        },
    }
}

fn parse_octet(s: &str) -> (r: Option<u32>)
    ensures
        match r {
            Some(n) => octet(s@) == Some(n as nat) && n <= 255,
            None => octet(s@) is None,
        },
{
    let c = text::chars_of(s);
    if c.len() == 0 || c.len() > 3 || (c.len() > 1 && c[0] == '0') || c[0] == '+' {
        proof {
            if c@.len() > 0 && c@[0] == '+' {
                assert(!text::is_digit(s@[0]));
            }
        }
        return None;
    }
    match text::parse_number(s, 255) {
        Some(n) => Some(n as u32),
        None => None,
    }
}

fn parse_v4(s: &str) -> (r: Option<u32>)
    ensures
        r == v4_text(s@),
{
    let parts = text::split(s, '.');
    let ghost all = text::pieces(s@, '.');
    assert(all.len() == parts@.len());
    if parts.len() != 4 {
        return None;
    }
    assert(all[0] == parts@[0]@ && all[1] == parts@[1]@);
    assert(all[2] == parts@[2]@ && all[3] == parts@[3]@);
    match (
        parse_octet(parts[0].as_str()),
        parse_octet(parts[1].as_str()),
        parse_octet(parts[2].as_str()),
        parse_octet(parts[3].as_str()),
    ) {
        (Some(a), Some(b), Some(c), Some(d)) => Some(
            a * 0x100_0000 + b * 0x1_0000 + c * 0x100 + d,
        ),
        _ => None,
    }
}

fn parse_hex(c: char) -> (r: Option<u128>)
    ensures
        match r {
            Some(n) => hex_value(c) == Some(n as nat) && n < 16,
            None => hex_value(c) is None,
        },
{
    let u: u32 = c as u32;
    if '0' <= c && c <= '9' {
        Some((u - 48) as u128)
    } else if 'a' <= c && c <= 'f' {
        Some((u - 97 + 10) as u128)
    } else if 'A' <= c && c <= 'F' {
        Some((u - 65 + 10) as u128)
    } else {
        None
    }
}

proof fn lemma_hex_prefix(s: Seq<char>, n: int)
    requires
        0 <= n <= s.len(),
        hex_number(s.take(n)) is None,
    ensures
        hex_number(s) is None,
    decreases s.len(),
{
    if n == s.len() {
        assert(s.take(n) =~= s);
    } else {
        assert(s.drop_last().take(n) =~= s.take(n));
        lemma_hex_prefix(s.drop_last(), n);
    }
}

fn parse_group(s: &str) -> (r: Option<u128>)
    ensures
        match r {
            Some(n) => hex_group(s@) == Some(n as nat) && n < 0x1_0000,
            None => hex_group(s@) is None,
        },
{
    let c = text::chars_of(s);
    if c.len() == 0 || c.len() > 4 {
        return None;
    }
    let mut value: u128 = 0;
    let mut bound: u128 = 1;
    let mut i: usize = 0;
    assert(c@.take(0) =~= Seq::<char>::empty());
    while i < c.len()
        invariant
            c@ == s@,
            i <= c@.len() <= 4,
            bound == if i == 0 {
                1
            } else if i == 1 {
                16
            } else if i == 2 {
                256
            } else if i == 3 {
                4096int
            } else {
                65536
            },
            value < bound,
            hex_number(c@.take(i as int)) == Some(value as nat),
            c@.len() > 0,
        decreases c@.len() - i,
    {
        assert(c@.take(i as int + 1).drop_last() =~= c@.take(i as int));
        let ch: char = c[i];
        match parse_hex(ch) {
            Some(d) => {
                value = value * 16 + d;
                bound = bound * 16;
            },
            None => {
                proof {
                    assert(hex_number(c@.take(i as int + 1)) is None);
                    lemma_hex_prefix(s@, i as int + 1);
                }
                return None;
            },
        }
        i += 1;
    }
    assert(c@.take(c@.len() as int) =~= c@);
    Some(value)
}

/// Numbers below 0x10000, as they are held.
spec fn nats(v: Seq<u128>) -> Seq<nat> {
    v.map_values(|n: u128| n as nat)
}

spec fn small(v: Seq<u128>) -> bool {
    forall|i: int| 0 <= i < v.len() ==> #[trigger] v[i] < 0x1_0000
}

proof fn lemma_groups_prefix(parts: Seq<Seq<char>>, n: int, dotted: bool)
    requires
        0 <= n < parts.len(),
        groups(parts.take(n), false) is None,
    ensures
        groups(parts, dotted) is None,
    decreases parts.len(),
{
    if n == parts.len() - 1 {
        assert(parts.drop_last() =~= parts.take(n));
    } else {
        assert(parts.drop_last().take(n) =~= parts.take(n));
        lemma_groups_prefix(parts.drop_last(), n, false);
    }
}

fn parse_stretch(s: &str, dotted: bool) -> (r: Option<Vec<u128>>)
    ensures
        match r {
            Some(v) => stretch(s@, dotted) == Some(nats(v@)) && small(v@),
            None => stretch(s@, dotted) is None,
        },
{
    let mut out: Vec<u128> = Vec::new();
    assert(nats(out@) =~= Seq::<nat>::empty());
    if s.unicode_len() == 0 {
        return Some(out);
    }
    let parts = text::split(s, ':');
    let ghost all = text::pieces(s@, ':');
    let mut i: usize = 0;
    assert(all.take(0) =~= Seq::<Seq<char>>::empty());
    while i < parts.len()
        invariant
            s@.len() > 0,
            all == text::pieces(s@, ':'),
            all == text::texts(parts@),
            i <= parts@.len(),
            groups(all.take(i as int), false) == Some(nats(out@)),
            small(out@),
        decreases parts@.len() - i,
    {
        let ghost before = out@;
        proof {
            assert(all.take(i as int + 1).drop_last() =~= all.take(i as int));
            assert(all[i as int] == parts@[i as int]@);
        }
        match parse_group(parts[i].as_str()) {
            Some(g) => {
                out.push(g);
                assert(nats(out@) =~= nats(before).push(g as nat));
            },
            None => {
                if dotted && i == parts.len() - 1 {
                    assert(all.drop_last() =~= all.take(i as int));
                    match parse_v4(parts[i].as_str()) {
                        Some(v4) => {
                            out.push((v4 / 0x1_0000) as u128);
                            out.push((v4 % 0x1_0000) as u128);
                            assert(nats(out@) =~= nats(before).push((v4 / 0x1_0000) as nat).push(
                                (v4 % 0x1_0000) as nat,
                            ));
                            return Some(out);
                        },
                        None => {
                            return None;
                        },
                    }
                }
                proof {
                    if i == parts@.len() - 1 {
                        assert(all.drop_last() =~= all.take(i as int));
                    } else {
                        lemma_groups_prefix(all, i as int + 1, dotted);
                    }
                }
                return None;
            },
        }
        i += 1;
    }
    proof {
        assert(all.take(all.len() as int) =~= all);
        lemma_undotted(all, dotted);
    }
    Some(out)
}

proof fn lemma_undotted(parts: Seq<Seq<char>>, dotted: bool)
    requires
        groups(parts, false) is Some,
    ensures
        groups(parts, dotted) == groups(parts, false),
{
}

proof fn lemma_folded_bound(g: Seq<nat>)
    requires
        forall|i: int| 0 <= i < g.len() ==> #[trigger] g[i] < 0x1_0000,
        g.len() <= 8,
    ensures
        g.len() <= 7 ==> folded(g) < 0x1_0000_0000_0000_0000_0000_0000_0000,
        folded(g) <= u128::MAX,
{
    reveal_with_fuel(folded, 9);
}

/// The value of the numbers `g`, sixteen bits each.
fn fold(g: &Vec<u128>) -> (r: u128)
    requires
        small(g@),
        g@.len() <= 8,
    ensures
        r == folded(nats(g@)),
{
    let ghost all = nats(g@);
    let mut value: u128 = 0;
    let mut i: usize = 0;
    assert(all.take(0) =~= Seq::<nat>::empty());
    while i < g.len()
        invariant
            small(g@),
            g@.len() <= 8,
            all == nats(g@),
            i <= g@.len(),
            value == folded(all.take(i as int)),
        decreases g@.len() - i,
    {
        proof {
            let t = all.take(i as int);
            assert forall|k: int| 0 <= k < t.len() implies #[trigger] t[k] < 0x1_0000 by {
                assert(g@[k] < 0x1_0000);
            }
            lemma_folded_bound(t);
            assert(all.take(i as int + 1).drop_last() =~= t);
        }
        value = value * 0x1_0000 + g[i];
        i += 1;
    }
    assert(all.take(all.len() as int) =~= all);
    value
}

proof fn lemma_gap(s: Seq<char>, i: int)
    requires
        gap_at(s, i),
        forall|j: int| 0 <= j < i ==> !gap_at(s, j),
    ensures
        gap(s) == Some(i),
{
    let k = choose|k: int| #[trigger] gap_at(s, k) && forall|j: int| j < k ==> !gap_at(s, j);
    assert(forall|j: int| j < i ==> !gap_at(s, j));
    assert(gap_at(s, k));
    assert(!(k < i));
    assert(!(i < k));
}

fn find_gap(s: &str) -> (r: Option<usize>)
    ensures
        match r {
            Some(i) => gap(s@) == Some(i as int) && i + 2 <= s@.len(),
            None => gap(s@) is None,
        },
{
    let c = text::chars_of(s);
    if c.len() < 2 {
        return None;
    }
    let mut i: usize = 0;
    while i < c.len() - 1
        invariant
            c@ == s@,
            2 <= c@.len(),
            i <= c@.len() - 1,
            forall|j: int| 0 <= j < i ==> !gap_at(s@, j),
        decreases c@.len() - i,
    {
        if c[i] == ':' && c[i + 1] == ':' {
            proof {
                assert(gap_at(s@, i as int));
                lemma_gap(s@, i as int);
            }
            return Some(i);
        }
        i += 1;
    }
    None
}

/// Eight numbers: those of `head` first, those of `tail` last, zeros between.
fn spread(head: Vec<u128>, tail: &Vec<u128>) -> (r: Vec<u128>)
    requires
        head@.len() + tail@.len() <= 7,
        small(head@),
        small(tail@),
    ensures
        small(r@),
        r@.len() == 8,
        nats(r@) == nats(head@) + zeros((8 - head@.len() - tail@.len()) as nat) + nats(tail@),
{
    let ghost h = head@;
    let mut all = head;
    let from: usize = 8 - tail.len();
    while all.len() < from
        invariant
            from == 8 - tail@.len(),
            h.len() <= all@.len() <= from,
            small(h),
            forall|k: int|
                0 <= k < all@.len() ==> #[trigger] all@[k] == if k < h.len() {
                    h[k]
                } else {
                    0
                },
        decreases from - all@.len(),
    {
        all.push(0);
    }
    let ghost start = all@;
    let mut j: usize = 0;
    while j < tail.len()
        invariant
            j <= tail@.len() <= 8,
            all@.len() == start.len() + j,
            start.len() == 8 - tail@.len(),
            forall|k: int| 0 <= k < start.len() ==> #[trigger] all@[k] == start[k],
            forall|k: int| 0 <= k < j ==> #[trigger] all@[start.len() + k] == tail@[k],
        decreases tail@.len() - j,
    {
        let ghost was = all@;
        all.push(tail[j]);
        j += 1;
        assert forall|k: int| 0 <= k < j implies #[trigger] all@[start.len() + k] == tail@[k] by {
            if k < j - 1 {
                assert(was[start.len() + k] == tail@[k]);
            }
        }
    }
    proof {
        assert forall|k: int| 0 <= k < all@.len() implies #[trigger] all@[k] < 0x1_0000 by {
            if k >= start.len() {
                let t = k - start.len();
                assert(all@[start.len() + t] == tail@[t]);
            }
        }
        let whole = nats(h) + zeros((8 - h.len() - tail@.len()) as nat) + nats(tail@);
        assert forall|k: int| 0 <= k < 8 implies nats(all@)[k] == whole[k] by {
            if k >= start.len() {
                let t = k - start.len();
                assert(all@[start.len() + t] == tail@[t]);
            }
        }
        assert(nats(all@) =~= whole);
    }
    all
}

fn parse_whole(s: &str) -> (r: Option<u128>)
    ensures
        r == v6_whole(s@),
{
    match parse_stretch(s, true) {
        Some(g) => if g.len() == 8 {
            Some(fold(&g))
        } else {
            None
        },
        None => None,
    }
}

fn parse_gapped(head: &str, tail: &str) -> (r: Option<u128>)
    ensures
        r == v6_gapped(head@, tail@),
{
    let head = match parse_stretch(head, false) {
        Some(h) => h,
        None => {
            return None;
        },
    };
    let tail = match parse_stretch(tail, true) {
        Some(t) => t,
        None => {
            return None;
        },
    };
    if head.len() > 7 || tail.len() > 7 - head.len() {
        return None;
    }
    Some(fold(&spread(head, &tail)))
}

fn parse_v6(s: &str) -> (r: Option<u128>)
    ensures
        r == v6_text(s@),
{
    match find_gap(s) {
        None => parse_whole(s),
        Some(i) => {
            let n: usize = s.unicode_len();
            let before = s.substring_char(0, i);
            let behind = s.substring_char(i + 2, n);
            assert(before@ =~= s@.take(i as int));
            assert(behind@ =~= s@.skip(i + 2));
            parse_gapped(before, behind)
        },
    }
}

/// Read an address.
pub fn parse_addr(s: &str) -> (r: Option<IpAddr>)
    ensures
        r == address(s@),
{
    match parse_v4(s) {
        Some(a) => Some(IpAddr::V4(a)),
        None => match parse_v6(s) {
            Some(a) => Some(IpAddr::V6(a)),
            None => None,
        },
    }
}

/// Parse `192.168.1.239`, `192.168.1.0/24`, or the v6 equivalents.
pub fn parse_rule(s: &str) -> (r: Option<Rule>)
    ensures
        r == rule_text(text::trimmed(s@)),
{
    let s = text::trim(s);
    let (addr_part, bits) = match text::split_once(s, '/') {
        Some((a, b)) => match text::parse_number(b, 255) {
            Some(n) => (a, Some(n as u8)),
            None => {
                return None;
            },
        },
        None => (s, None),
    };
    let addr = match parse_addr(addr_part) {
        Some(a) => a,
        None => {
            return None;
        },
    };
    let full: u8 = match addr {
        IpAddr::V4(_) => 32,
        IpAddr::V6(_) => 128,
    };
    let bits: u8 = match bits {
        Some(b) => b,
        None => full,
    };
    if bits <= full {
        Some(Rule { addr, bits })
    } else {
        None
    }
}

// --- Matching ----------------------------------------------------------------

/// The rules whose prefix fits the width of their address: those that a text can
/// state.
pub open spec fn valid(rule: Rule) -> bool {
    rule.bits <= width(rule.addr)
}

/// Do two v4 addresses agree in their first `bits` bits?
pub open spec fn same_block_v4(a: u32, b: u32, bits: u8) -> bool {
    bits == 0 || a >> ((32 - bits) as u32) == b >> ((32 - bits) as u32)
}

/// Do two v6 addresses agree in their first `bits` bits?
pub open spec fn same_block_v6(a: u128, b: u128, bits: u8) -> bool {
    bits == 0 || a >> ((128 - bits) as u128) == b >> ((128 - bits) as u128)
}

/// The v4 address that a v6 address maps.
pub open spec fn mapped(a: u128) -> Option<u32> {
    if a / 0x1_0000_0000 == 0xffff {
        Some((a % 0x1_0000_0000) as u32)
    } else {
        None
    }
}

/// Does the rule cover the caller? A v4 rule never authorises a v6 caller, or the
/// reverse. An IPv4-mapped v6 address is unwrapped first so a dual-stack listener
/// behaves the way an operator expects.
pub open spec fn covers(rule: Rule, peer: IpAddr) -> bool {
    match (rule.addr, peer) {
        (IpAddr::V4(net), IpAddr::V4(ip)) => same_block_v4(net, ip, rule.bits),
        (IpAddr::V6(net), IpAddr::V6(ip)) => same_block_v6(net, ip, rule.bits),
        (IpAddr::V4(net), IpAddr::V6(ip)) => match mapped(ip) {
            Some(v4) => same_block_v4(net, v4, rule.bits),
            None => false,
        },
        _ => false,
    }
}

pub open spec fn loopback_v4(a: u32) -> bool {
    a / 0x100_0000 == 127
}

/// Does the caller sit at this very machine?
pub open spec fn loopback(peer: IpAddr) -> bool {
    match peer {
        IpAddr::V4(a) => loopback_v4(a),
        IpAddr::V6(a) => a == 1 || (mapped(a) matches Some(v4) && loopback_v4(v4)),
    }
}

fn to_mapped(a: u128) -> (r: Option<u32>)
    ensures
        r == mapped(a),
{
    if a / 0x1_0000_0000 == 0xffff {
        Some((a % 0x1_0000_0000) as u32)
    } else {
        None
    }
}

fn block_v4(net: u32, ip: u32, bits: u8) -> (r: bool)
    requires
        bits <= 32,
    ensures
        r == same_block_v4(net, ip, bits),
{
    // A /0 would shift by the whole width; handle it as "everything".
    if bits == 0 {
        return true;
    }
    let shift: u32 = (32 - bits) as u32;
    net >> shift == ip >> shift
}

fn block_v6(net: u128, ip: u128, bits: u8) -> (r: bool)
    requires
        bits <= 128,
    ensures
        r == same_block_v6(net, ip, bits),
{
    if bits == 0 {
        return true;
    }
    let shift: u128 = (128 - bits) as u128;
    net >> shift == ip >> shift
}

/// Does the rule cover the caller?
pub fn matches(rule: &Rule, peer: IpAddr) -> (r: bool)
    requires
        valid(*rule),
    ensures
        r == covers(*rule, peer),
{
    match (rule.addr, peer) {
        (IpAddr::V4(net), IpAddr::V4(ip)) => block_v4(net, ip, rule.bits),
        (IpAddr::V6(net), IpAddr::V6(ip)) => block_v6(net, ip, rule.bits),
        (IpAddr::V4(net), IpAddr::V6(ip)) => match to_mapped(ip) {
            Some(v4) => block_v4(net, v4, rule.bits),
            None => false,
        },
        _ => false,
    }
}

/// Is `peer` permitted under `rules`?
pub open spec fn allowed(rules: Seq<Rule>, peer: IpAddr) -> bool {
    rules.len() == 0 || loopback(peer) || exists|i: int|
        0 <= i < rules.len() && covers(#[trigger] rules[i], peer)
}

/// Is `peer` permitted, given the configured rules?
///
/// An empty list allows everything — the setting is opt-in, and a proxy that
/// refused all traffic the moment someone saved an empty field would be a bad
/// surprise. Loopback is always allowed regardless, so a host can always reach
/// its own health probe and an operator can never lock themselves out of the
/// machine they are sitting at.
pub fn permitted(rules: &[Rule], peer: IpAddr) -> (r: bool)
    requires
        forall|i: int| 0 <= i < rules@.len() ==> valid(#[trigger] rules@[i]),
    ensures
        r == allowed(rules@, peer),
{
    let local = match peer {
        IpAddr::V4(a) => a / 0x100_0000 == 127,
        IpAddr::V6(a) => a == 1 || match to_mapped(a) {
            Some(v4) => v4 / 0x100_0000 == 127,
            None => false,
        },
    };
    if rules.len() == 0 || local {
        return true;
    }
    let mut i: usize = 0;
    while i < rules.len()
        invariant
            i <= rules@.len(),
            forall|j: int| 0 <= j < rules@.len() ==> valid(#[trigger] rules@[j]),
            forall|j: int| 0 <= j < i ==> !covers(#[trigger] rules@[j], peer),
        decreases rules@.len() - i,
    {
        assert(valid(rules@[i as int]));
        if matches(&rules[i], peer) {
            return true;
        }
        i += 1;
    }
    false
}

/// A rule that a text states is valid.
pub proof fn law_a_stated_rule_is_valid(s: Seq<char>)
    ensures
        rule_text(s) matches Some(r) ==> valid(r),
{
}

/// Whatever the rules, the machine itself is never locked out.
pub proof fn law_loopback_is_always_allowed(rules: Seq<Rule>, peer: IpAddr)
    requires
        loopback(peer),
    ensures
        allowed(rules, peer),
{
}

/// A bare address covers itself and, within its family, nothing else.
pub proof fn law_a_bare_address_covers_itself_only(a: IpAddr, peer: IpAddr)
    requires
        width(a) == width(peer),
    ensures
        covers(Rule { addr: a, bits: width(a) }, peer) <==> a == peer,
{
    match (a, peer) {
        (IpAddr::V4(x), IpAddr::V4(y)) => {
            assert(x >> 0u32 == x) by (bit_vector);
            assert(y >> 0u32 == y) by (bit_vector);
        },
        (IpAddr::V6(x), IpAddr::V6(y)) => {
            assert(x >> 0u128 == x) by (bit_vector);
            assert(y >> 0u128 == y) by (bit_vector);
        },
        _ => {},
    }
}

/// A prefix of no bits covers its whole family.
pub proof fn law_an_empty_prefix_covers_everything(a: IpAddr, peer: IpAddr)
    requires
        width(a) == width(peer),
    ensures
        covers(Rule { addr: a, bits: 0 }, peer),
{
}

// --- What the rules come to --------------------------------------------------

proof fn lemma_octet(n: nat)
    requires
        n <= 255,
    ensures
        octet(text::decimal(n)) == Some(n),
        !text::decimal(n).contains('.'),
        !text::decimal(n).contains('/'),
{
    let s = text::decimal(n);
    text::lemma_decimal_digits(n);
    reveal_with_fuel(text::decimal, 3);
    if n < 10 {
        assert(s.len() == 1);
    } else if n < 100 {
        assert(s.len() == 2);
        assert(s[0] == text::digit_char(n / 10));
    } else {
        assert(s.len() == 3);
        assert(n / 10 / 10 >= 1);
        assert(s[0] == text::digit_char(n / 10 / 10));
    }
    assert forall|i: int| 0 <= i < s.len() implies s[i] != '.' && s[i] != '/' by {
        assert(text::is_digit(s[i]));
    }
}

proof fn lemma_four_pieces(p: Seq<char>, q: Seq<char>, r: Seq<char>, t: Seq<char>)
    requires
        !p.contains('.'),
        !q.contains('.'),
        !r.contains('.'),
        !t.contains('.'),
    ensures
        text::pieces(p.push('.') + q.push('.') + r.push('.') + t, '.') == seq![p, q, r, t],
{
    text::lemma_last_piece(p, '.', 0);
    assert(p.skip(0) =~= p);
    let s2 = p.push('.') + q;
    text::law_a_separator_starts_a_piece(p, '.', q);
    text::law_a_separator_starts_a_piece(s2, '.', r);
    let s3 = s2.push('.') + r;
    text::law_a_separator_starts_a_piece(s3, '.', t);
    assert(p.push('.') + q.push('.') + r.push('.') + t =~= s3.push('.') + t);
    assert(text::pieces(s3.push('.') + t, '.') =~= seq![p, q, r, t]);
}

/// An address written as four numbers with dots between is read as those four numbers,
/// the first the most significant.
pub proof fn law_a_dotted_address_is_read(a: u8, b: u8, c: u8, d: u8)
    ensures
        address(
            text::decimal(a as nat).push('.') + text::decimal(b as nat).push('.') + text::decimal(
                c as nat,
            ).push('.') + text::decimal(d as nat),
        ) == Some(IpAddr::V4((a * 0x100_0000 + b * 0x1_0000 + c * 0x100 + d) as u32)),
{
    lemma_octet(a as nat);
    lemma_octet(b as nat);
    lemma_octet(c as nat);
    lemma_octet(d as nat);
    lemma_four_pieces(
        text::decimal(a as nat),
        text::decimal(b as nat),
        text::decimal(c as nat),
        text::decimal(d as nat),
    );
}

/// A block is written as an address, a slash and how many of its bits count; more bits
/// than the address has are no block, and an address alone counts all of them.
pub proof fn law_a_block_is_read_as_written(a: Seq<char>, addr: IpAddr, bits: u8)
    requires
        address(a) == Some(addr),
        !a.contains('/'),
    ensures
        bits <= width(addr) ==> rule_text(a.push('/') + text::decimal(bits as nat)) == Some(
            Rule { addr, bits },
        ),
        bits > width(addr) ==> rule_text(a.push('/') + text::decimal(bits as nat)) is None,
        rule_text(a) == Some(
            Rule {
                addr,
                bits: match addr {
                    IpAddr::V4(_) => 32,
                    IpAddr::V6(_) => 128,
                },
            },
        ),
{
    let n = text::decimal(bits as nat);
    let s = a.push('/') + n;
    let i = a.len() as int;
    text::law_decimal_reads_back(bits as nat, u8::MAX as nat);
    assert forall|j: int| 0 <= j < i implies s[j] != '/' by {
        assert(s[j] == a[j]);
        assert(a.contains(a[j]));
    }
    text::lemma_cut_first(s, '/', i);
    assert(s.take(i) =~= a);
    assert(s.skip(i + 1) =~= n);
    text::lemma_uncut(a, '/');
}

/// A block covers the addresses that begin with the same bits: by the byte, those with
/// the same leading numbers. A longer prefix covers less.
pub proof fn law_a_block_covers_its_prefix(a: u32, b: u32, short: u8, long: u8)
    requires
        short <= long <= 32,
    ensures
        covers(Rule { addr: IpAddr::V4(a), bits: 8 }, IpAddr::V4(b)) <==> a / 0x100_0000 == b
            / 0x100_0000,
        covers(Rule { addr: IpAddr::V4(a), bits: 16 }, IpAddr::V4(b)) <==> a / 0x1_0000 == b
            / 0x1_0000,
        covers(Rule { addr: IpAddr::V4(a), bits: 24 }, IpAddr::V4(b)) <==> a / 0x100 == b / 0x100,
        covers(Rule { addr: IpAddr::V4(a), bits: 31 }, IpAddr::V4(b)) <==> a / 2 == b / 2,
        covers(Rule { addr: IpAddr::V4(a), bits: long }, IpAddr::V4(b)) ==> covers(
            Rule { addr: IpAddr::V4(a), bits: short },
            IpAddr::V4(b),
        ),
{
    assert((a >> 24u32) == a / 0x100_0000 && (b >> 24u32) == b / 0x100_0000) by (bit_vector);
    assert((a >> 16u32) == a / 0x1_0000 && (b >> 16u32) == b / 0x1_0000) by (bit_vector);
    assert((a >> 8u32) == a / 0x100 && (b >> 8u32) == b / 0x100) by (bit_vector);
    assert((a >> 1u32) == a / 2 && (b >> 1u32) == b / 2) by (bit_vector);
    if short > 0 {
        let s = (32 - short) as u32;
        let l = (32 - long) as u32;
        assert(a >> l == b >> l ==> a >> s == b >> s) by (bit_vector)
            requires
                l <= s < 32,
        ;
    }
}

/// An address of the older family is the same caller in either form, and a rule for one
/// family lets in nobody of the other.
pub proof fn law_a_mapped_address_is_the_same_caller(net: u32, bits: u8, ip: u32, wide: u128, v6: u128)
    ensures
        covers(
            Rule { addr: IpAddr::V4(net), bits },
            IpAddr::V6((0xffff_0000_0000u128 + ip) as u128),
        ) == covers(Rule { addr: IpAddr::V4(net), bits }, IpAddr::V4(ip)),
        !covers(Rule { addr: IpAddr::V6(wide), bits }, IpAddr::V4(ip)),
        v6 / 0x1_0000_0000 != 0xffff ==> !covers(
            Rule { addr: IpAddr::V4(net), bits },
            IpAddr::V6(v6),
        ),
        loopback(IpAddr::V6((0xffff_0000_0000u128 + ip) as u128)) == loopback(IpAddr::V4(ip)),
{
    let w = (0xffff_0000_0000u128 + ip) as u128;
    assert(w / 0x1_0000_0000 == 0xffff && w % 0x1_0000_0000 == ip);
}

/// This machine is the addresses that begin with 127, and the one of the newer family.
pub proof fn law_loopback_is_this_machine(a: u32, b: u128)
    ensures
        loopback(IpAddr::V4(a)) <==> 0x7f00_0000 <= a <= 0x7fff_ffff,
        loopback(IpAddr::V6(1)),
        b / 0x1_0000_0000 != 0xffff && b != 1 ==> !loopback(IpAddr::V6(b)),
{
}

/// A block of the newer family covers the addresses that begin with the same bits.
pub proof fn law_a_wide_block_covers_its_prefix(a: u128, b: u128)
    ensures
        covers(Rule { addr: IpAddr::V6(a), bits: 1 }, IpAddr::V6(b)) <==> a
            / 0x8000_0000_0000_0000_0000_0000_0000_0000 == b
            / 0x8000_0000_0000_0000_0000_0000_0000_0000,
        covers(Rule { addr: IpAddr::V6(a), bits: 8 }, IpAddr::V6(b)) <==> a
            / 0x100_0000_0000_0000_0000_0000_0000_0000 == b
            / 0x100_0000_0000_0000_0000_0000_0000_0000,
        covers(Rule { addr: IpAddr::V6(a), bits: 64 }, IpAddr::V6(b)) <==> a
            / 0x1_0000_0000_0000_0000 == b / 0x1_0000_0000_0000_0000,
        covers(Rule { addr: IpAddr::V6(a), bits: 127 }, IpAddr::V6(b)) <==> a / 2 == b / 2,
{
    assert((a >> 127u128) == a / 0x8000_0000_0000_0000_0000_0000_0000_0000 && (b >> 127u128) == b
        / 0x8000_0000_0000_0000_0000_0000_0000_0000) by (bit_vector);
    assert((a >> 120u128) == a / 0x100_0000_0000_0000_0000_0000_0000_0000 && (b >> 120u128) == b
        / 0x100_0000_0000_0000_0000_0000_0000_0000) by (bit_vector);
    assert((a >> 64u128) == a / 0x1_0000_0000_0000_0000 && (b >> 64u128) == b
        / 0x1_0000_0000_0000_0000) by (bit_vector);
    assert((a >> 1u128) == a / 2 && (b >> 1u128) == b / 2) by (bit_vector);
}

/// Each digit of a hexadecimal number counts sixteen times the one behind it, and small
/// and capital letters count alike.
pub proof fn law_hexadecimal_is_read_by_sixteens(s: Seq<char>, n: nat, c: char)
    requires
        hex_number(s) == Some(n),
    ensures
        hex_number(Seq::<char>::empty()) == Some(0nat),
        '0' <= c <= '9' ==> hex_number(s.push(c)) == Some((n * 16 + (c as int - '0' as int)) as nat),
        'a' <= c <= 'f' ==> hex_number(s.push(c)) == Some(
            (n * 16 + 10 + (c as int - 'a' as int)) as nat,
        ),
        'A' <= c <= 'F' ==> hex_number(s.push(c)) == Some(
            (n * 16 + 10 + (c as int - 'A' as int)) as nat,
        ),
{
    assert(s.push(c).drop_last() =~= s);
}

/// Sixteen bits for each of `n` numbers.
pub open spec fn shifted(n: nat) -> nat
    decreases n,
{
    if n == 0 {
        1
    } else {
        shifted((n - 1) as nat) * 0x1_0000
    }
}

proof fn lemma_folded_joined(a: Seq<nat>, b: Seq<nat>)
    ensures
        folded(a + b) == folded(a) * shifted(b.len()) + folded(b),
    decreases b.len(),
{
    if b.len() == 0 {
        assert(a + b =~= a);
        assert(folded(b) == 0 && shifted(b.len()) == 1);
        assert(folded(a) * 1 == folded(a));
    } else {
        let c = b.drop_last();
        lemma_folded_joined(a, c);
        assert((a + b).drop_last() =~= a + c);
        assert((a + b).last() == b.last());
        let x = folded(a);
        let y = shifted(c.len());
        let z = folded(c);
        assert((x * y + z) * 0x1_0000 == x * (y * 0x1_0000) + z * 0x1_0000) by (nonlinear_arith);
        assert(shifted(b.len()) == y * 0x1_0000);
        assert(folded(b) == z * 0x1_0000 + b.last());
        assert(folded(a + b) == folded(a + c) * 0x1_0000 + b.last());
    }
}

proof fn lemma_folded_zeros(n: nat)
    ensures
        folded(zeros(n)) == 0,
    decreases n,
{
    if n > 0 {
        lemma_folded_zeros((n - 1) as nat);
        assert(zeros(n).drop_last() =~= zeros((n - 1) as nat));
    }
}

/// A double colon stands for one zero or more: what is written before it are the first
/// numbers of the address, what is written behind it the last, and together they are
/// seven at most.
pub proof fn law_a_double_colon_stands_for_zeros(
    head: Seq<char>,
    tail: Seq<char>,
    h: Seq<nat>,
    t: Seq<nat>,
)
    requires
        stretch(head, false) == Some(h),
        stretch(tail, true) == Some(t),
    ensures
        h.len() + t.len() > 7 ==> v6_gapped(head, tail) is None,
        h.len() + t.len() <= 7 ==> v6_gapped(head, tail) == Some(
            (folded(h) * shifted((8 - h.len()) as nat) + folded(t)) as u128,
        ),
{
    if h.len() + t.len() <= 7 {
        let z = zeros((8 - h.len() - t.len()) as nat);
        assert(h + z + t =~= h + (z + t));
        lemma_folded_joined(h, z + t);
        lemma_folded_joined(z, t);
        lemma_folded_zeros((8 - h.len() - t.len()) as nat);
        assert(0 * shifted(t.len()) == 0);
    }
}

/// A dotted address at the end of an address of the newer family counts as its lowest
/// thirty-two bits.
pub proof fn law_a_dotted_end_counts_its_value(
    parts: Seq<Seq<char>>,
    last: Seq<char>,
    before: Seq<nat>,
    v: u32,
)
    requires
        groups(parts, false) == Some(before),
        hex_group(last) is None,
        v4_text(last) == Some(v),
    ensures
        groups(parts.push(last), true) matches Some(g) && g.len() == before.len() + 2 && folded(g)
            == folded(before) * 0x1_0000_0000 + v,
        groups(parts.push(last), false) is None,
{
    assert(parts.push(last).drop_last() =~= parts);
    let hi = (v / 0x1_0000) as nat;
    let lo = (v % 0x1_0000) as nat;
    let g = before.push(hi).push(lo);
    assert(g.drop_last() =~= before.push(hi));
    assert(before.push(hi).drop_last() =~= before);
    assert(hi * 0x1_0000 + lo == v);
    assert(folded(before.push(hi)) == folded(before) * 0x1_0000 + hi);
    assert(folded(g) == folded(before.push(hi)) * 0x1_0000 + lo);
    assert(groups(parts.push(last), true) == Some(g));
}

/// One more number of an address of the newer family is worth sixteen bits behind those
/// before it.
pub proof fn law_each_number_counts_sixteen_bits(
    parts: Seq<Seq<char>>,
    last: Seq<char>,
    before: Seq<nat>,
    n: nat,
    dotted: bool,
)
    requires
        groups(parts, false) == Some(before),
        hex_group(last) == Some(n),
    ensures
        groups(parts.push(last), dotted) matches Some(g) && g.len() == before.len() + 1 && folded(g)
            == folded(before) * 0x1_0000 + n,
{
    assert(parts.push(last).drop_last() =~= parts);
    assert(before.push(n).drop_last() =~= before);
}

/// An address without a double colon names all eight numbers, no fewer and no more.
pub proof fn law_a_whole_address_names_eight_numbers(s: Seq<char>, g: Seq<nat>)
    requires
        stretch(s, true) == Some(g),
        forall|i: int| 0 <= i < s.len() - 1 && s[i] == ':' ==> #[trigger] s[i + 1] != ':',
    ensures
        g.len() == 8 ==> v6_text(s) == Some(folded(g) as u128),
        g.len() != 8 ==> v6_text(s) is None,
{
    if exists|i: int| gap_at(s, i) {
        let i = choose|i: int| gap_at(s, i);
        assert(s[i + 1] != ':');
    }
}

/// An address with a double colon is cut at the first one.
pub proof fn law_an_address_is_cut_at_its_double_colon(head: Seq<char>, tail: Seq<char>)
    requires
        !head.contains(':'),
    ensures
        v6_text(head + seq![':', ':'] + tail) == v6_gapped(head, tail),
{
    let s = head + seq![':', ':'] + tail;
    let i = head.len() as int;
    assert(gap_at(s, i));
    assert forall|j: int| j < i implies !gap_at(s, j) by {
        if 0 <= j {
            assert(s[j] == head[j]);
            assert(head.contains(head[j]));
        }
    }
    lemma_gap(s, i);
    assert(s.take(i) =~= head);
    assert(s.skip(i + 2) =~= tail);
}

} // verus!
