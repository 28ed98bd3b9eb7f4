//! IP addresses: reading them, reading CIDR ranges, and expanding an IPv4
//! range into the hosts to probe.

use vstd::prelude::*;
use vstd::arithmetic::power2::{lemma2_to64, lemma_pow2_pos, lemma_pow2_strictly_increases, pow2};
use vstd::bits::lemma_u32_shl_is_mul;
use crate::error::ScanError;
use crate::text::{
    all_digits, all_hex_digits, decimal_text, decimal_value, fields_of, free_of, hex_digit_of,
    copy_range, hex_value, is_digit, is_hex_digit, lemma_decimal_text,
    lemma_decimal_text_reads_back, lemma_fields_of_prepend, lemma_fields_of_single,
    parse_unsigned, push_decimal, split, to_chars, to_text, unsigned_of, views,
};

verus! {

/// An IP address of either family, as a number: the first octet, or the
/// first group, is the most significant.
#[derive(Clone, Copy, Debug, PartialEq, Eq, Structural)]
pub enum IpAddress {
    /// An IPv4 address.
    V4(u32),
    /// An IPv6 address.
    V6(u128),
}

/// The longest prefix that the family of `address` allows.
pub open spec fn max_prefix(address: IpAddress) -> nat {
    match address {
        IpAddress::V4(_) => 32,
        IpAddress::V6(_) => 128,
    }
}

// ---------------------------------------------------------------------------
// IPv4 literals
// ---------------------------------------------------------------------------

/// The octet that `s` denotes, if it denotes one: one to three decimal
/// digits, without a leading zero unless it is the only digit, and no more
/// than 255.
pub open spec fn octet_of(s: Seq<char>) -> Option<nat> {
    if 1 <= s.len() <= 3 && all_digits(s) && (s.len() == 1 || s[0] != '0') && decimal_value(s)
        <= 255 {
        Some(decimal_value(s))
    } else {
        None
    }
}

/// The IPv4 address that `s` denotes, if it denotes one: four octets with
/// dots between them.
pub open spec fn ipv4_of(s: Seq<char>) -> Option<u32> {
    let parts = fields_of(s, '.');
    if parts.len() == 4 {
        match (octet_of(parts[0]), octet_of(parts[1]), octet_of(parts[2]), octet_of(parts[3])) {
            (Some(a), Some(b), Some(c), Some(d)) => Some((((a * 256 + b) * 256 + c) * 256 + d) as u32),
            _ => None,
        }
    } else {
        None
    }
}

/// The dotted notation of an IPv4 address.
pub open spec fn ipv4_text(address: u32) -> Seq<char> {
    decimal_text((address / 0x1000000) as nat) + seq!['.'] + decimal_text(
        (address / 0x10000 % 256) as nat,
    ) + seq!['.'] + decimal_text((address / 0x100 % 256) as nat) + seq!['.'] + decimal_text(
        (address % 256) as nat,
    )
}

/// Reads one octet of an IPv4 literal.
fn parse_octet(field: &Vec<char>) -> (octet: Option<u8>)
    ensures
        octet is Some <==> octet_of(field@) is Some,
        octet matches Some(v) ==> v == octet_of(field@)->0,
{
    let n = field.len();
    if n == 0 || n > 3 {
        return None;
    }
    if field[0] == '+' {
        return None;
    }
    if n > 1 && field[0] == '0' {
        return None;
    }
    match parse_unsigned(field, 255) {
        Some(v) => Some(v as u8),
        None => None,
    }
}

/// Reads an IPv4 literal.
fn parse_ipv4(chars: &Vec<char>) -> (address: Option<u32>)
    ensures
        address == ipv4_of(chars@),
{
    let parts = split(chars, '.');
    if parts.len() != 4 {
        return None;
    }
    proof {
        assert(views(parts@)[0] == parts@[0]@);
        assert(views(parts@)[1] == parts@[1]@);
        assert(views(parts@)[2] == parts@[2]@);
        assert(views(parts@)[3] == parts@[3]@);
    }
    let a = match parse_octet(&parts[0]) {
        Some(v) => v as u32,
        None => {
            return None;
        },
    };
    let b = match parse_octet(&parts[1]) {
        Some(v) => v as u32,
        None => {
            return None;
        },
    };
    let c = match parse_octet(&parts[2]) {
        Some(v) => v as u32,
        None => {
            return None;
        },
    };
    let d = match parse_octet(&parts[3]) {
        Some(v) => v as u32,
        None => {
            return None;
        },
    };
    Some(((a * 256 + b) * 256 + c) * 256 + d)
}

/// The decimal notation of an octet denotes that octet and holds no dot.
pub proof fn lemma_octet_text(n: nat)
    requires
        n <= 255,
    ensures
        octet_of(decimal_text(n)) == Some(n),
        free_of(decimal_text(n), '.'),
{
    lemma_decimal_text(n);
    assert forall|i: int| 0 <= i < decimal_text(n).len() implies decimal_text(n)[i] != '.' by {
        assert(is_digit(decimal_text(n)[i]));
    }
}

/// Four texts without a dot, with dots between them, have those texts as
/// their fields.
pub proof fn lemma_four_fields(a: Seq<char>, b: Seq<char>, c: Seq<char>, d: Seq<char>)
    requires
        free_of(a, '.'),
        free_of(b, '.'),
        free_of(c, '.'),
        free_of(d, '.'),
    ensures
        fields_of(a + seq!['.'] + b + seq!['.'] + c + seq!['.'] + d, '.') == seq![a, b, c, d],
{
    let t2 = c + seq!['.'] + d;
    let t1 = b + seq!['.'] + t2;
    let t0 = a + seq!['.'] + t1;
    lemma_fields_of_single(d, '.');
    lemma_fields_of_prepend(c, '.', d);
    lemma_fields_of_prepend(b, '.', t2);
    lemma_fields_of_prepend(a, '.', t1);
    assert(a + seq!['.'] + b + seq!['.'] + c + seq!['.'] + d =~= t0);
    assert(fields_of(t0, '.') =~= seq![a, b, c, d]);
}

/// Reading the dotted notation of an IPv4 address gives that address back.
pub proof fn lemma_ipv4_text_round_trip(address: u32)
    ensures
        ipv4_of(ipv4_text(address)) == Some(address),
{
    let a = (address / 0x1000000) as nat;
    let b = (address / 0x10000 % 256) as nat;
    let c = (address / 0x100 % 256) as nat;
    let d = (address % 256) as nat;
    assert(address / 0x1000000 <= 255 && ((address / 0x1000000 * 256 + address / 0x10000 % 256)
        * 256 + address / 0x100 % 256) * 256 + address % 256 == address) by (bit_vector);
    lemma_octet_text(a);
    lemma_octet_text(b);
    lemma_octet_text(c);
    lemma_octet_text(d);
    lemma_four_fields(decimal_text(a), decimal_text(b), decimal_text(c), decimal_text(d));
}

/// The dotted notation of an IPv4 address, as `192.168.1.1`.
pub fn host_text(address: u32) -> (text: String)
    ensures
        text@ == ipv4_text(address),
{
    let mut out: Vec<char> = Vec::new();
    push_decimal(&mut out, address / 0x1000000);
    out.push('.');
    push_decimal(&mut out, address / 0x10000 % 256);
    out.push('.');
    push_decimal(&mut out, address / 0x100 % 256);
    out.push('.');
    push_decimal(&mut out, address % 256);
    assert(out@ == ipv4_text(address));
    to_text(&out)
}

// ---------------------------------------------------------------------------
// IPv6 literals
// ---------------------------------------------------------------------------

/// The group that `s` denotes, if it denotes one: one to four hexadecimal
/// digits.
pub open spec fn group_of(s: Seq<char>) -> Option<nat> {
    if 1 <= s.len() <= 4 && all_hex_digits(s) {
        Some(hex_value(s))
    } else {
        None
    }
}

/// The groups that `fields` denote, if each of them denotes one.
pub open spec fn hex_groups_of(fields: Seq<Seq<char>>) -> Option<Seq<u16>> {
    if forall|i: int| 0 <= i < fields.len() ==> (#[trigger] group_of(fields[i])) is Some {
        Some(Seq::new(fields.len(), |i: int| group_of(fields[i])->0 as u16))
    } else {
        None
    }
}

/// The groups that a colon-separated list denotes, if each of its fields is
/// a group.
pub open spec fn plain_groups_of(s: Seq<char>) -> Option<Seq<u16>> {
    hex_groups_of(fields_of(s, ':'))
}

/// The groups that a colon-separated list denotes whose last field may be
/// an IPv4 address in dotted notation, which stands for two groups.
pub open spec fn groups_of(s: Seq<char>) -> Option<Seq<u16>> {
    let fields = fields_of(s, ':');
    match hex_groups_of(fields.drop_last()) {
        Some(init) => match group_of(fields.last()) {
            Some(group) => Some(init.push(group as u16)),
            None => match ipv4_of(fields.last()) {
                Some(v4) => Some(init.push((v4 / 0x10000) as u16).push((v4 % 0x10000) as u16)),
                None => None,
            },
        },
        None => None,
    }
}

/// Whether a double colon stands at position `i` of `s`.
pub open spec fn gap_at(s: Seq<char>, i: int) -> bool {
    0 <= i && i + 1 < s.len() && s[i] == ':' && s[i + 1] == ':'
}

/// The position of the first double colon in `s`, or the length of `s`
/// where `s` holds none.
pub open spec fn gap_of(s: Seq<char>) -> int
    decreases s.len(),
{
    if s.len() < 2 {
        s.len() as int
    } else if s[0] == ':' && s[1] == ':' {
        0
    } else {
        1 + gap_of(s.drop_first())
    }
}

/// The eight groups of the IPv6 address that `s` denotes, if it denotes
/// one.  Without a double colon, `s` is a list of exactly eight groups.
/// With one, the groups before the first double colon come first, the
/// groups after it come last, and as many zero groups as are missing, at
/// least one, stand between them.  In either form an IPv4 address in dotted
/// notation may stand for the last two groups.
pub open spec fn ipv6_groups_of(s: Seq<char>) -> Option<Seq<u16>> {
    let gap = gap_of(s);
    if 0 <= gap && gap + 1 < s.len() {
        let head = s.take(gap);
        let tail = s.skip(gap + 2);
        let front = if head.len() == 0 {
            Some(Seq::<u16>::empty())
        } else {
            plain_groups_of(head)
        };
        let back = if tail.len() == 0 {
            Some(Seq::<u16>::empty())
        } else {
            groups_of(tail)
        };
        match (front, back) {
            (Some(f), Some(b)) => if f.len() + b.len() <= 7 {
                Some(f + Seq::new((8 - f.len() - b.len()) as nat, |i: int| 0u16) + b)
            } else {
                None
            },
            _ => None,
        }
    } else {
        match groups_of(s) {
            Some(groups) => if groups.len() == 8 {
                Some(groups)
            } else {
                None
            },
            None => None,
        }
    }
}

/// The number that groups stand for, the first group most significant.
pub open spec fn groups_value(groups: Seq<u16>) -> nat
    decreases groups.len(),
{
    if groups.len() == 0 {
        0
    } else {
        groups_value(groups.drop_last()) * 0x10000 + groups.last() as nat
    }
}

/// The IPv6 address that `s` denotes, if it denotes one.
pub open spec fn ipv6_of(s: Seq<char>) -> Option<u128> {
    match ipv6_groups_of(s) {
        Some(groups) => Some(groups_value(groups) as u128),
        None => None,
    }
}

/// The IP address that `s` denotes, if it denotes one of either family.
pub open spec fn address_of(s: Seq<char>) -> Option<IpAddress> {
    match ipv4_of(s) {
        Some(v4) => Some(IpAddress::V4(v4)),
        None => match ipv6_of(s) {
            Some(v6) => Some(IpAddress::V6(v6)),
            None => None,
        },
    }
}

/// A position that holds a double colon, or is the end of the text, with
/// no double colon before it, is `gap_of`.
pub proof fn lemma_gap_is(s: Seq<char>, i: int)
    requires
        0 <= i <= s.len(),
        forall|j: int| 0 <= j < i ==> !gap_at(s, j),
        i == s.len() || gap_at(s, i),
    ensures
        gap_of(s) == i,
    decreases s.len(),
{
    if s.len() < 2 {
    } else if s[0] == ':' && s[1] == ':' {
        assert(gap_at(s, 0));
    } else {
        let rest = s.drop_first();
        assert(!gap_at(s, 0));
        assert forall|j: int| 0 <= j < i - 1 implies !gap_at(rest, j) by {
            assert(!gap_at(s, j + 1));
            if j + 1 < rest.len() {
                assert(rest[j] == s[j + 1]);
                assert(rest[j + 1] == s[j + 2]);
            }
        }
        if i < s.len() {
            assert(rest[i - 1] == s[i]);
            assert(rest[i] == s[i + 1]);
            assert(gap_at(rest, i - 1));
        }
        lemma_gap_is(rest, i - 1);
    }
}

/// Finds the first double colon.
fn find_gap(chars: &Vec<char>) -> (gap: usize)
    ensures
        gap == gap_of(chars@),
        gap <= chars@.len(),
{
    let n = chars.len();
    if n < 2 {
        proof {
            assert forall|j: int| 0 <= j < n implies !gap_at(chars@, j) by {}
            lemma_gap_is(chars@, n as int);
        }
        return n;
    }
    let mut i: usize = 0;
    while i < n - 1
        invariant
            i <= n - 1,
            n == chars@.len(),
            forall|j: int| 0 <= j < i ==> !gap_at(chars@, j),
        decreases n - i,
    {
        if chars[i] == ':' && chars[i + 1] == ':' {
            proof {
                lemma_gap_is(chars@, i as int);
            }
            return i;
        }
        i += 1;
    }
    proof {
        assert forall|j: int| 0 <= j < n implies !gap_at(chars@, j) by {}
        lemma_gap_is(chars@, n as int);
    }
    n
}

/// Reads one group of an IPv6 literal.
fn parse_group(field: &Vec<char>) -> (group: Option<u16>)
    ensures
        group is Some <==> group_of(field@) is Some,
        group matches Some(v) ==> v == group_of(field@)->0,
{
    let n = field.len();
    if n == 0 || n > 4 {
        return None;
    }
    let mut value: u32 = 0;
    let mut i: usize = 0;
    assert(field@.take(0) == Seq::<char>::empty());
    while i < n
        invariant
            i <= n <= 4,
            n == field@.len(),
            all_hex_digits(field@.take(i as int)),
            value == hex_value(field@.take(i as int)),
            i == 0 ==> value == 0,
            i == 1 ==> value < 0x10,
            i == 2 ==> value < 0x100,
            i == 3 ==> value < 0x1000,
            i == 4 ==> value < 0x10000,
        decreases n - i,
    {
        let ghost before = field@.take(i as int);
        let ghost after = field@.take(i + 1);
        proof {
            assert(after.drop_last() == before);
            assert(after.last() == field@[i as int]);
        }
        match hex_digit_of(field[i]) {
            Some(d) => {
                value = value * 16 + d as u32;
                proof {
                    assert forall|k: int| 0 <= k < after.len() implies is_hex_digit(
                        #[trigger] after[k],
                    ) by {
                        if k < before.len() {
                            assert(after[k] == before[k]);
                        }
                    }
                }
            },
            None => {
                assert(!is_hex_digit(field@[i as int]));
                return None;
            },
        }
        i += 1;
    }
    assert(field@.take(n as int) == field@);
    Some(value as u16)
}

/// Reads a colon-separated list of groups.  With `embedded`, the last field
/// may be an IPv4 address in dotted notation.
fn parse_groups(chars: &Vec<char>, embedded: bool) -> (groups: Option<Vec<u16>>)
    ensures
        match groups {
            Some(found) => (if embedded {
                groups_of(chars@)
            } else {
                plain_groups_of(chars@)
            }) == Some(found@),
            None => (if embedded {
                groups_of(chars@)
            } else {
                plain_groups_of(chars@)
            }) is None,
        },
{
    let fields = split(chars, ':');
    let ghost all = fields_of(chars@, ':');
    let n = fields.len();
    let mut groups: Vec<u16> = Vec::new();
    let mut i: usize = 0;
    while i + 1 < n
        invariant
            i < n,
            n == fields@.len(),
            views(fields@) == all,
            all == fields_of(chars@, ':'),
            groups@.len() == i,
            forall|k: int| 0 <= k < i ==> (#[trigger] group_of(all[k])) is Some,
            forall|k: int| 0 <= k < i ==> groups@[k] == group_of(all[k])->0,
        decreases n - i,
    {
        assert(all[i as int] == fields@[i as int]@);
        match parse_group(&fields[i]) {
            Some(group) => {
                groups.push(group);
            },
            None => {
                proof {
                    assert(all.drop_last()[i as int] == all[i as int]);
                    assert(group_of(all.drop_last()[i as int]) is None);
                    assert(hex_groups_of(all.drop_last()) is None);
                    assert(group_of(all[i as int]) is None);
                    assert(hex_groups_of(all) is None);
                }
                return None;
            },
        }
        i += 1;
    }
    let last = &fields[n - 1];
    proof {
        assert(all.last() == last@);
        assert(hex_groups_of(all.drop_last()) == Some(groups@)) by {
            let init = all.drop_last();
            assert forall|k: int| 0 <= k < init.len() implies (#[trigger] group_of(init[k])) is Some by {
                assert(init[k] == all[k]);
            }
            assert(hex_groups_of(init)->0 =~= groups@);
        }
    }
    match parse_group(last) {
        Some(group) => {
            groups.push(group);
            proof {
                assert forall|k: int| 0 <= k < all.len() implies (#[trigger] group_of(all[k])) is Some by {}
                assert(hex_groups_of(all)->0 =~= groups@);
            }
            Some(groups)
        },
        None => {
            proof {
                assert(hex_groups_of(all) is None);
            }
            if !embedded {
                return None;
            }
            match parse_ipv4(last) {
                Some(v4) => {
                    groups.push((v4 / 0x10000) as u16);
                    groups.push((v4 % 0x10000) as u16);
                    Some(groups)
                },
                None => None,
            }
        },
    }
}

/// The largest number that `n` groups can stand for, plus one.
pub open spec fn groups_bound(n: nat) -> nat
    decreases n,
{
    if n == 0 {
        1
    } else {
        groups_bound((n - 1) as nat) * 0x10000
    }
}

/// The number that the eight groups of an IPv6 address stand for.
fn value_of_groups(groups: &Vec<u16>) -> (value: u128)
    requires
        groups@.len() == 8,
    ensures
        value == groups_value(groups@),
{
    let mut value: u128 = 0;
    let mut i: usize = 0;
    assert(groups@.take(0) == Seq::<u16>::empty());
    assert(groups_bound(8) == 0x1_0000_0000_0000_0000_0000_0000_0000_0000) by {
        reveal_with_fuel(groups_bound, 9);
    }
    while i < 8
        invariant
            i <= 8,
            groups@.len() == 8,
            value == groups_value(groups@.take(i as int)),
            value < groups_bound(i as nat),
            groups_bound(8) == 0x1_0000_0000_0000_0000_0000_0000_0000_0000,
        decreases 8 - i,
    {
        proof {
            let after = groups@.take(i + 1);
            assert(after.drop_last() == groups@.take(i as int));
            assert(after.last() == groups@[i as int]);
            lemma_groups_bound_grows((i + 1) as nat, 8);
            assert(groups_bound((i + 1) as nat) == groups_bound(i as nat) * 0x10000);
        }
        value = value * 0x10000 + groups[i] as u128;
        i += 1;
    }
    assert(groups@.take(8) == groups@);
    value
}

/// More groups can stand for larger numbers.
pub proof fn lemma_groups_bound_grows(a: nat, b: nat)
    requires
        a <= b,
    ensures
        groups_bound(a) <= groups_bound(b),
        groups_bound(a) >= 1,
    decreases b,
{
    if a < b {
        lemma_groups_bound_grows(a, (b - 1) as nat);
    } else if a > 0 {
        lemma_groups_bound_grows((a - 1) as nat, (a - 1) as nat);
    }
}

/// Reads an IPv6 literal.
fn parse_ipv6(chars: &Vec<char>) -> (address: Option<u128>)
    ensures
        address == ipv6_of(chars@),
{
    let n = chars.len();
    let gap = find_gap(chars);
    proof {
        lemma_gap_within(chars@);
    }
    let groups: Vec<u16> = if gap < n {
        let head = copy_range(chars, 0, gap);
        let tail = copy_range(chars, gap + 2, n);
        proof {
            assert(head@ == chars@.take(gap as int));
            assert(tail@ == chars@.skip(gap + 2));
        }
        let front = if head.len() == 0 {
            Vec::new()
        } else {
            match parse_groups(&head, false) {
                Some(found) => found,
                None => {
                    return None;
                },
            }
        };
        let back = if tail.len() == 0 {
            Vec::new()
        } else {
            match parse_groups(&tail, true) {
                Some(found) => found,
                None => {
                    return None;
                },
            }
        };
        if front.len() > 7 || back.len() > 7 - front.len() {
            return None;
        }
        let missing = 8 - front.len() - back.len();
        let mut all: Vec<u16> = front;
        let ghost f = all@;
        let mut k: usize = 0;
        while k < missing
            invariant
                k <= missing,
                all@ == f + Seq::new(k as nat, |i: int| 0u16),
            decreases missing - k,
        {
            all.push(0);
            k += 1;
        }
        let mut m: usize = 0;
        while m < back.len()
            invariant
                m <= back@.len(),
                all@ == f + Seq::new(missing as nat, |i: int| 0u16) + back@.take(m as int),
            decreases back@.len() - m,
        {
            all.push(back[m]);
            proof {
                assert(back@.take(m + 1) == back@.take(m as int).push(back@[m as int]));
            }
            m += 1;
        }
        assert(back@.take(back@.len() as int) == back@);
        all
    } else {
        match parse_groups(chars, true) {
            Some(found) => {
                if found.len() != 8 {
                    return None;
                }
                found
            },
            None => {
                return None;
            },
        }
    };
    proof {
        lemma_groups_value_bound(groups@);
        assert(groups_bound(8) == 0x1_0000_0000_0000_0000_0000_0000_0000_0000) by {
            reveal_with_fuel(groups_bound, 9);
        }
    }
    Some(value_of_groups(&groups))
}

/// A double colon, where there is one, lies within the text.
pub proof fn lemma_gap_within(s: Seq<char>)
    ensures
        0 <= gap_of(s) <= s.len(),
        gap_of(s) < s.len() ==> gap_of(s) + 1 < s.len(),
    decreases s.len(),
{
    if s.len() >= 2 && !(s[0] == ':' && s[1] == ':') {
        lemma_gap_within(s.drop_first());
    }
}

/// Groups stand for a number below the bound of their count.
pub proof fn lemma_groups_value_bound(groups: Seq<u16>)
    ensures
        groups_value(groups) < groups_bound(groups.len()),
    decreases groups.len(),
{
    if groups.len() > 0 {
        lemma_groups_value_bound(groups.drop_last());
        lemma_groups_bound_grows((groups.len() - 1) as nat, (groups.len() - 1) as nat);
    }
}

/// Reads an IP literal of either family.
pub(crate) fn parse_address_chars(chars: &Vec<char>) -> (address: Option<IpAddress>)
    ensures
        address == address_of(chars@),
{
    match parse_ipv4(chars) {
        Some(v4) => Some(IpAddress::V4(v4)),
        None => match parse_ipv6(chars) {
            Some(v6) => Some(IpAddress::V6(v6)),
            None => None,
        },
    }
}

/// Reads an IP address of either family: `192.168.1.1`, `::1`,
/// `2001:db8::ff00:42:8329`, `::ffff:10.0.0.1`.
pub fn parse_address(text: &str) -> (address: Option<IpAddress>)
    ensures
        address == address_of(text@),
{
    let chars = to_chars(text);
    parse_address_chars(&chars)
}

// ---------------------------------------------------------------------------
// CIDR ranges
// ---------------------------------------------------------------------------

/// The range that a CIDR denotes: an address and a prefix length with one
/// slash between them.  A text of another shape is refused as
/// `InvalidFormat`.  An address that is no IP literal, and a prefix that is
/// no number or is longer than the family of the address allows, are
/// refused as `InvalidRange`.
pub open spec fn cidr_of(s: Seq<char>) -> Result<(IpAddress, u8), ScanError> {
    let parts = fields_of(s, '/');
    if parts.len() != 2 {
        Err(ScanError::InvalidFormat)
    } else {
        match (address_of(parts[0]), unsigned_of(parts[1], 255)) {
            (Some(address), Some(prefix)) => if prefix <= max_prefix(address) {
                Ok((address, prefix as u8))
            } else {
                Err(ScanError::InvalidRange)
            },
            _ => Err(ScanError::InvalidRange),
        }
    }
}

/// An IPv4 address in dotted notation, a slash and a prefix length in
/// decimal are read as that address and that prefix length, unless the
/// prefix is longer than 32 bits.
pub proof fn lemma_cidr_text(address: u32, prefix: u8)
    ensures
        cidr_of(ipv4_text(address) + seq!['/'] + decimal_text(prefix as nat)) == if prefix <= 32 {
            Ok::<(IpAddress, u8), ScanError>((IpAddress::V4(address), prefix))
        } else {
            Err::<(IpAddress, u8), ScanError>(ScanError::InvalidRange)
        },
{
    let host = ipv4_text(address);
    let length = decimal_text(prefix as nat);
    lemma_ipv4_text_round_trip(address);
    lemma_decimal_text_reads_back(prefix as nat, 255, '/');
    lemma_decimal_text_reads_back((address / 0x1000000) as nat, 255, '/');
    lemma_decimal_text_reads_back((address / 0x10000 % 256) as nat, 255, '/');
    lemma_decimal_text_reads_back((address / 0x100 % 256) as nat, 255, '/');
    lemma_decimal_text_reads_back((address % 256) as nat, 255, '/');
    assert(free_of(host, '/'));
    lemma_fields_of_single(length, '/');
    lemma_fields_of_prepend(host, '/', length);
    assert(fields_of(host + seq!['/'] + length, '/') =~= seq![host, length]);
}

/// Reads a CIDR such as `192.168.1.0/24`.
pub fn parse_cidr(cidr: &str) -> (parsed: Result<(IpAddress, u8), ScanError>)
    ensures
        parsed == cidr_of(cidr@),
        parsed matches Ok(range) ==> range.1 <= max_prefix(range.0),
{
    let chars = to_chars(cidr);
    let parts = split(&chars, '/');
    if parts.len() != 2 {
        return Err(ScanError::InvalidFormat);
    }
    proof {
        assert(views(parts@)[0] == parts@[0]@);
        assert(views(parts@)[1] == parts@[1]@);
    }
    let address = match parse_address_chars(&parts[0]) {
        Some(address) => address,
        None => {
            return Err(ScanError::InvalidRange);
        },
    };
    let prefix = match parse_unsigned(&parts[1], 255) {
        Some(prefix) => prefix as u8,
        None => {
            return Err(ScanError::InvalidRange);
        },
    };
    let longest: u8 = match address {
        IpAddress::V4(_) => 32,
        IpAddress::V6(_) => 128,
    };
    if prefix > longest {
        Err(ScanError::InvalidRange)
    } else {
        Ok((address, prefix))
    }
}

// ---------------------------------------------------------------------------
// Expansion
// ---------------------------------------------------------------------------

/// The bits of an IPv4 address that a prefix of this length leaves to the
/// host: the inverted network mask.
pub open spec fn host_mask(prefix: u8) -> u32 {
    (pow2((32 - prefix) as nat) - 1) as u32
}

/// The first address of the block: the base address with its host bits
/// cleared.
pub open spec fn network_of(base: u32, prefix: u8) -> u32 {
    base & !host_mask(prefix)
}

/// The last address of the block: the base address with its host bits set.
pub open spec fn broadcast_of(base: u32, prefix: u8) -> u32 {
    network_of(base, prefix) | host_mask(prefix)
}

/// The first address to probe.  A block of four addresses or more keeps its
/// first address for the network itself.
pub open spec fn first_host(base: u32, prefix: u8) -> u32 {
    if prefix < 31 {
        (network_of(base, prefix) + 1) as u32
    } else {
        network_of(base, prefix)
    }
}

/// The last address to probe.  A block of four addresses or more keeps its
/// last address for broadcast.
pub open spec fn last_host(base: u32, prefix: u8) -> u32 {
    if prefix < 31 {
        (broadcast_of(base, prefix) - 1) as u32
    } else {
        broadcast_of(base, prefix)
    }
}

/// The hosts of an IPv4 block, in ascending order.
pub open spec fn hosts_of(base: u32, prefix: u8) -> Seq<IpAddress> {
    Seq::new(
        (last_host(base, prefix) - first_host(base, prefix) + 1) as nat,
        |i: int| IpAddress::V4((first_host(base, prefix) + i) as u32),
    )
}

/// The number of hosts of an IPv4 block with this prefix: all its
/// addresses but two, and all of them where the block has only one or two.
pub open spec fn host_count(prefix: u8) -> nat {
    if prefix < 31 {
        (pow2((32 - prefix) as nat) - 2) as nat
    } else if prefix == 31 {
        2
    } else {
        1
    }
}

/// What expanding a range gives: the hosts of an IPv4 block; `InvalidRange`
/// for a prefix longer than the family allows; `Unsupported` for an IPv6
/// block.
pub open spec fn ip_range_of(base: IpAddress, prefix: u8) -> Result<Seq<IpAddress>, ScanError> {
    match base {
        IpAddress::V4(v4) => if prefix <= 32 {
            Ok(hosts_of(v4, prefix))
        } else {
            Err(ScanError::InvalidRange)
        },
        IpAddress::V6(_) => if prefix <= 128 {
            Err(ScanError::Unsupported)
        } else {
            Err(ScanError::InvalidRange)
        },
    }
}

/// The host mask of a prefix is one less than the size of the block, and
/// the block runs from its network address up by that much.
pub proof fn lemma_block(base: u32, prefix: u8)
    requires
        prefix <= 32,
    ensures
        1 <= pow2((32 - prefix) as nat) <= 0x1_0000_0000,
        prefix < 31 ==> pow2((32 - prefix) as nat) >= 4,
        prefix == 31 ==> pow2((32 - prefix) as nat) == 2,
        prefix == 32 ==> pow2((32 - prefix) as nat) == 1,
        host_mask(prefix) == pow2((32 - prefix) as nat) - 1,
        broadcast_of(base, prefix) == network_of(base, prefix) + host_mask(prefix),
        network_of(base, prefix) <= base <= broadcast_of(base, prefix),
{
    let bits = (32 - prefix) as nat;
    lemma2_to64();
    lemma_pow2_pos(bits);
    if bits < 32 {
        lemma_pow2_strictly_increases(bits, 32);
    }
    if bits > 2 {
        lemma_pow2_strictly_increases(2, bits);
    }
    let mask = host_mask(prefix);
    let network = base & !mask;
    assert((network | mask) == network + mask) by (bit_vector)
        requires
            network == base & !mask,
    ;
    assert(network <= base) by (bit_vector)
        requires
            network == base & !mask,
    ;
    assert(base <= (network | mask)) by (bit_vector)
        requires
            network == base & !mask,
    ;
}

/// An IPv4 block of prefix length p has 2^(32-p) - 2 hosts where p is
/// below 31, two hosts where p is 31, and one host where p is 32.
pub proof fn lemma_host_count(base: u32, prefix: u8)
    requires
        prefix <= 32,
    ensures
        hosts_of(base, prefix).len() == host_count(prefix),
        prefix < 31 ==> hosts_of(base, prefix).len() == pow2((32 - prefix) as nat) - 2,
        prefix == 31 ==> hosts_of(base, prefix).len() == 2,
        prefix == 32 ==> hosts_of(base, prefix).len() == 1,
{
    lemma_block(base, prefix);
}

/// The hosts of an IPv4 block ascend one by one from the first to the last,
/// and all lie in the block.
pub proof fn lemma_hosts_ascend(base: u32, prefix: u8)
    requires
        prefix <= 32,
    ensures
        hosts_of(base, prefix).len() >= 1,
        hosts_of(base, prefix)[0] == IpAddress::V4(first_host(base, prefix)),
        hosts_of(base, prefix).last() == IpAddress::V4(last_host(base, prefix)),
        forall|i: int|
            0 <= i < hosts_of(base, prefix).len() ==> #[trigger] hosts_of(base, prefix)[i]
                == IpAddress::V4((first_host(base, prefix) + i) as u32) && network_of(base, prefix)
                <= first_host(base, prefix) + i <= broadcast_of(base, prefix),
{
    lemma_block(base, prefix);
}

/// The addresses from the network address to the broadcast address are
/// exactly those that agree with the base address outside the host bits.
pub proof fn lemma_block_members(base: u32, prefix: u8, address: u32)
    requires
        prefix <= 32,
    ensures
        (address & !host_mask(prefix)) == network_of(base, prefix) <==> network_of(base, prefix)
            <= address <= broadcast_of(base, prefix),
{
    let bits: u32 = (32 - prefix) as u32;
    let mask = host_mask(prefix);
    let network = network_of(base, prefix);
    lemma_block(base, prefix);
    lemma2_to64();
    if bits < 32 {
        lemma_pow2_strictly_increases(bits as nat, 32);
        lemma_u32_shl_is_mul(1, bits);
        assert((address & !mask == network) <==> (network <= address && address <= (network | mask)))
            by (bit_vector)
            requires
                bits < 32,
                mask + 1 == (1u32 << bits),
                network == base & !mask,
        ;
    } else {
        assert((address & !mask == network) <==> (network <= address && address <= (network | mask)))
            by (bit_vector)
            requires
                mask == 0xffff_ffffu32,
                network == base & !mask,
        ;
    }
}

/// The hosts of an IPv4 block are the addresses of the block; a block of
/// four addresses or more leaves out its network address and its broadcast
/// address, and nothing else.
pub proof fn lemma_hosts_are_the_block(base: u32, prefix: u8, address: u32)
    requires
        prefix <= 32,
    ensures
        hosts_of(base, prefix).contains(IpAddress::V4(address)) <==> {
            &&& (address & !host_mask(prefix)) == network_of(base, prefix)
            &&& prefix < 31 ==> address != network_of(base, prefix) && address != broadcast_of(
                base,
                prefix,
            )
        },
{
    lemma_block(base, prefix);
    lemma_block_members(base, prefix, address);
    let hosts = hosts_of(base, prefix);
    let first = first_host(base, prefix);
    let last = last_host(base, prefix);
    if first <= address <= last {
        assert(hosts[address - first] == IpAddress::V4(address));
    }
    if hosts.contains(IpAddress::V4(address)) {
        let i = choose|i: int| 0 <= i < hosts.len() && hosts[i] == IpAddress::V4(address);
        assert(address == first + i);
    }
}

/// Expands a range into the hosts to probe, in ascending order.  For an
/// IPv4 block of four addresses or more these are all its addresses but
/// the first and the last; a block of one or two addresses gives them all.
/// IPv6 blocks are not expanded.
pub fn generate_ip_range(base_ip: IpAddress, prefix: u8) -> (range: Result<Vec<IpAddress>, ScanError>)
    ensures
        match range {
            Ok(hosts) => ip_range_of(base_ip, prefix) == Ok::<Seq<IpAddress>, ScanError>(hosts@),
            Err(e) => ip_range_of(base_ip, prefix) == Err::<Seq<IpAddress>, ScanError>(e),
        },
        range matches Ok(hosts) ==> hosts@.len() == host_count(prefix),
{
    let base = match base_ip {
        IpAddress::V4(v4) => {
            if prefix > 32 {
                return Err(ScanError::InvalidRange);
            }
            v4
        },
        IpAddress::V6(_) => {
            if prefix > 128 {
                return Err(ScanError::InvalidRange);
            }
            return Err(ScanError::Unsupported);
        },
    };
    let bits: u32 = 32 - prefix as u32;
    proof {
        lemma_block(base, prefix);
        lemma2_to64();
        if bits < 32 {
            lemma_pow2_strictly_increases(bits as nat, 32);
            lemma_u32_shl_is_mul(1, bits);
        }
    }
    let mask: u32 = if bits == 32 {
        0xffff_ffff
    } else {
        (1u32 << bits) - 1
    };
    assert(mask == host_mask(prefix));
    let network: u32 = base & !mask;
    let broadcast: u32 = network | mask;
    let first: u32 = if prefix < 31 {
        network + 1
    } else {
        network
    };
    let last: u32 = if prefix < 31 {
        broadcast - 1
    } else {
        broadcast
    };
    assert(first == first_host(base, prefix));
    assert(last == last_host(base, prefix));
    let mut hosts: Vec<IpAddress> = Vec::new();
    let mut address: u32 = first;
    loop
        invariant_except_break
            first <= address <= last,
            hosts@ == Seq::new((address - first) as nat, |i: int| IpAddress::V4((first + i) as u32)),
        ensures
            hosts@ == Seq::new((last - first + 1) as nat, |i: int| IpAddress::V4((first + i) as u32)),
        decreases last - address,
    {
        hosts.push(IpAddress::V4(address));
        if address == last {
            break ;
        }
        address = address + 1;
    }
    assert(hosts@ == hosts_of(base, prefix));
    proof {
        lemma_host_count(base, prefix);
    }
    Ok(hosts)
}

} // verus!
