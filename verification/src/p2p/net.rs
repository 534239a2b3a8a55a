//! Network addresses.

use vstd::prelude::*;
use vstd::string::*;
use crate::bytes;
use crate::text;

verus! {

/// An IP address.
#[derive(Clone, Copy, Eq, Hash, Debug)]
pub enum IpAddr {
    V4([u8; 4]),
    V6([u8; 16]),
}

impl PartialEq for IpAddr {
    fn eq(&self, other: &Self) -> (r: bool) {
        match (self, other) {
            (IpAddr::V4(a), IpAddr::V4(b)) => {
                let r = bytes::bytes_equal(a, b);
                proof {
                    if r {
                        bytes::lemma_array_equal(*a, *b);
                    }
                }
                r
            },
            (IpAddr::V6(a), IpAddr::V6(b)) => {
                let r = bytes::bytes_equal(a, b);
                proof {
                    if r {
                        bytes::lemma_array_equal(*a, *b);
                    }
                }
                r
            },
            _ => false,
        }
    }
}

impl vstd::std_specs::cmp::PartialEqSpecImpl for IpAddr {
    open spec fn obeys_eq_spec() -> bool {
        true
    }

    open spec fn eq_spec(&self, other: &Self) -> bool {
        *self == *other
    }
}

/// An IP address and a port.
#[derive(Clone, Copy, Eq, Hash, Debug)]
pub struct NetAddr {
    pub ip: IpAddr,
    pub port: u16,
}

impl PartialEq for NetAddr {
    fn eq(&self, other: &Self) -> (r: bool) {
        self.ip == other.ip && self.port == other.port
    }
}

impl vstd::std_specs::cmp::PartialEqSpecImpl for NetAddr {
    open spec fn obeys_eq_spec() -> bool {
        true
    }

    open spec fn eq_spec(&self, other: &Self) -> bool {
        *self == *other
    }
}

impl NetAddr {
    pub fn new(ip: IpAddr, port: u16) -> (r: NetAddr)
        ensures
            r.ip == ip,
            r.port == port,
    {
        NetAddr { ip, port }
    }

    /// The address as text: `a.b.c.d:port`, or `[ip]:port` for IPv6.
    pub fn to_text(&self) -> (r: String)
        ensures
            r@ == addr_text(*self),
    {
        let mut s: String = match &self.ip {
            IpAddr::V4(o) => v4_words(o),
            IpAddr::V6(o) => {
                let mut s: String = "[".to_string();
                s.append(v6_words(o).as_str());
                s.append("]");
                s
            },
        };
        s.append(":");
        s.append(text::decimal_text(self.port as u64).as_str());
        s
    }
}

// ---------------------------------------------------------------------------
// Text
// ---------------------------------------------------------------------------

/// An IPv4 address as text.
pub open spec fn v4_text(o: Seq<u8>) -> Seq<char> {
    text::decimal(o[0] as nat) + "."@ + text::decimal(o[1] as nat) + "."@ + text::decimal(
        o[2] as nat,
    ) + "."@ + text::decimal(o[3] as nat)
}

/// The eight 16-bit groups of an IPv6 address.
pub open spec fn groups(o: Seq<u8>) -> Seq<u16> {
    Seq::new(8, |i: int| (o[2 * i] * 0x100 + o[2 * i + 1]) as u16)
}

/// How many of the four digits of a group are leading zeros. The last digit
/// always stays.
pub open spec fn idle_digits(n: u16) -> int {
    if n < 0x10 {
        3
    } else if n < 0x100 {
        2
    } else if n < 0x1000 {
        1
    } else {
        0
    }
}

/// A group as text: hexadecimal, without leading zeros.
pub open spec fn group_text(n: u16) -> Seq<char> {
    text::hex_text(seq![(n / 0x100) as u8, (n % 0x100) as u8]).subrange(idle_digits(n), 4)
}

/// Groups as text, with colons in between.
pub open spec fn groups_text(s: Seq<u16>) -> Seq<char>
    decreases s.len(),
{
    if s.len() == 0 {
        Seq::empty()
    } else if s.len() == 1 {
        group_text(s[0])
    } else {
        groups_text(s.drop_last()) + ":"@ + group_text(s.last())
    }
}

/// How many groups are zero in a row from a place on.
pub open spec fn zero_run(s: Seq<u16>, i: int) -> int
    decreases s.len() - i,
{
    if i < 0 || i >= s.len() || s[i] != 0 {
        0
    } else {
        1 + zero_run(s, i + 1)
    }
}

/// Where the longest run of zero groups that starts before a place starts, and
/// how long it is. Of several the first.
pub open spec fn longest_run(s: Seq<u16>, n: int) -> (int, int)
    decreases n,
{
    if n <= 0 {
        (0, 0)
    } else {
        let best = longest_run(s, n - 1);
        if zero_run(s, n - 1) > best.1 {
            (n - 1, zero_run(s, n - 1))
        } else {
            best
        }
    }
}

/// Whether an IPv6 address stands for an IPv4 one.
pub open spec fn is_mapped(s: Seq<u16>) -> bool {
    s.subrange(0, 6) == seq![0u16, 0u16, 0u16, 0u16, 0u16, 0xffffu16]
}

/// An IPv6 address as text: two colons stand for the longest run of two or more
/// zero groups, and one that stands for an IPv4 address ends in that.
pub open spec fn v6_text(o: Seq<u8>) -> Seq<char> {
    let s = groups(o);
    let (start, len) = longest_run(s, 8);
    if is_mapped(s) {
        "::ffff:"@ + v4_text(o.subrange(12, 16))
    } else if len > 1 {
        groups_text(s.subrange(0, start)) + "::"@ + groups_text(s.subrange(start + len, 8))
    } else {
        groups_text(s)
    }
}

/// An address as text.
pub open spec fn addr_text(a: NetAddr) -> Seq<char> {
    (match a.ip {
        IpAddr::V4(o) => v4_text(o@),
        IpAddr::V6(o) => "["@ + v6_text(o@) + "]"@,
    }) + ":"@ + text::decimal(a.port as nat)
}

fn v4_words(o: &[u8]) -> (r: String)
    requires
        o@.len() == 4,
    ensures
        r@ == v4_text(o@),
{
    let mut s: String = text::decimal_text(o[0] as u64);
    s.append(".");
    s.append(text::decimal_text(o[1] as u64).as_str());
    s.append(".");
    s.append(text::decimal_text(o[2] as u64).as_str());
    s.append(".");
    s.append(text::decimal_text(o[3] as u64).as_str());
    s
}

fn add_group(s: &mut String, n: u16)
    ensures
        final(s)@ == old(s)@ + group_text(n),
{
    let pair: [u8; 2] = [(n / 0x100) as u8, (n % 0x100) as u8];
    assert(pair@ =~= seq![(n / 0x100) as u8, (n % 0x100) as u8]);
    let digits = text::hex_encode(&pair);
    let idle: usize = if n < 0x10 {
        3
    } else if n < 0x100 {
        2
    } else if n < 0x1000 {
        1
    } else {
        0
    };
    s.append(digits.as_str().substring_char(idle, 4));
}

/// Add the groups from one place to another.
fn add_groups(r: &mut String, s: &Vec<u16>, from: usize, to: usize)
    requires
        from <= to <= s@.len(),
    ensures
        final(r)@ == old(r)@ + groups_text(s@.subrange(from as int, to as int)),
{
    let mut i: usize = from;
    let ghost before = r@;
    assert(before + groups_text(s@.subrange(from as int, from as int)) =~= before);
    while i < to
        invariant
            from <= i <= to <= s@.len(),
            r@ == before + groups_text(s@.subrange(from as int, i as int)),
        decreases to - i,
    {
        let ghost t = s@.subrange(from as int, i + 1);
        let ghost so_far = r@;
        proof {
            assert(t.drop_last() =~= s@.subrange(from as int, i as int));
            assert(t.last() == s@[i as int]);
        }
        if i > from {
            r.append(":");
        }
        add_group(r, s[i]);
        assert(r@ =~= before + groups_text(t));
        i = i + 1;
    }
}

fn run_at(s: &Vec<u16>, i: usize) -> (r: usize)
    requires
        i <= s@.len(),
    ensures
        r == zero_run(s@, i as int),
        r <= s@.len() - i,
    decreases s@.len() - i,
{
    if i == s.len() || s[i] != 0 {
        0
    } else {
        1 + run_at(s, i + 1)
    }
}

fn v6_words(o: &[u8; 16]) -> (r: String)
    ensures
        r@ == v6_text(o@),
{
    let mut s: Vec<u16> = Vec::new();
    let mut i: usize = 0;
    while i < 8
        invariant
            i <= 8,
            s@ == groups(o@).subrange(0, i as int),
        decreases 8 - i,
    {
        s.push(o[2 * i] as u16 * 0x100 + o[2 * i + 1] as u16);
        i = i + 1;
        assert(s@ =~= groups(o@).subrange(0, i as int));
    }
    assert(s@ =~= groups(o@));
    if s[0] == 0 && s[1] == 0 && s[2] == 0 && s[3] == 0 && s[4] == 0 && s[5] == 0xffff {
        assert(s@.subrange(0, 6) =~= seq![0u16, 0u16, 0u16, 0u16, 0u16, 0xffffu16]);
        let mut r: String = "::ffff:".to_string();
        let four: [u8; 4] = [o[12], o[13], o[14], o[15]];
        assert(four@ =~= o@.subrange(12, 16));
        r.append(v4_words(&four).as_str());
        return r;
    }
    proof {
        if is_mapped(s@) {
            let m = seq![0u16, 0u16, 0u16, 0u16, 0u16, 0xffffu16];
            assert(forall|j: int| 0 <= j < 6 ==> s@[j] == s@.subrange(0, 6)[j]);
            assert(s@[0] == m[0] && s@[1] == m[1] && s@[2] == m[2] && s@[3] == m[3] && s@[4] == m[4]
                && s@[5] == m[5]);
        }
    }
    let mut start: usize = 0;
    let mut len: usize = 0;
    let mut n: usize = 0;
    while n < 8
        invariant
            n <= 8 == s@.len(),
            longest_run(s@, n as int) == (start as int, len as int),
            start + len <= 8,
        decreases 8 - n,
    {
        let run = run_at(&s, n);
        if run > len {
            start = n;
            len = run;
        }
        n = n + 1;
    }
    let mut r: String = String::new();
    proof {
        assert(r@ =~= Seq::<char>::empty());
    }
    if len > 1 {
        add_groups(&mut r, &s, 0, start);
        r.append("::");
        add_groups(&mut r, &s, start + len, 8);
    } else {
        add_groups(&mut r, &s, 0, 8);
        assert(s@.subrange(0, 8) =~= s@);
    }
    assert(r@ =~= v6_text(o@));
    r
}

/// A group is written digit by digit in base sixteen, highest first, and starts
/// with no idle zero.
pub proof fn group_is_written_in_base_sixteen(n: u16)
    ensures
        n < 16 ==> group_text(n) == seq!["0123456789abcdef"@[n as int]],
        n >= 16 ==> group_text(n) == group_text((n / 16) as u16).push(
            "0123456789abcdef"@[n as int % 16],
        ),
{
    let m = (n / 16) as u16;
    let a = seq![(n / 0x100) as u8, (n % 0x100) as u8];
    let b = seq![(m / 0x100) as u8, (m % 0x100) as u8];
    text::hex_writes_the_high_half_first(a, 0);
    text::hex_writes_the_high_half_first(a, 1);
    text::hex_writes_the_high_half_first(b, 0);
    text::hex_writes_the_high_half_first(b, 1);
    let s = text::hex_text(a);
    let t = text::hex_text(b);
    let row = "0123456789abcdef"@;
    assert(a[0] == (n / 0x100) as u8 && a[1] == (n % 0x100) as u8);
    assert(b[0] == (m / 0x100) as u8 && b[1] == (m % 0x100) as u8);
    assert(s[0] == row[n as int / 0x1000] && s[1] == row[n as int / 0x100 % 16] && s[2] == row[n as int
        / 16 % 16] && s[3] == row[n as int % 16]);
    assert(t[1] == row[n as int / 0x1000] && t[2] == row[n as int / 0x100 % 16] && t[3] == row[n as int
        / 16 % 16]);
    if n < 16 {
        assert(group_text(n) =~= seq![row[n as int]]);
    } else {
        assert(group_text(n) =~= group_text(m).push(row[n as int % 16]));
    }
}

/// An address has eight groups of two bytes, the first of them the high one.
pub proof fn groups_are_pairs_of_bytes(o: Seq<u8>, i: int)
    requires
        0 <= i < 8,
    ensures
        groups(o).len() == 8,
        groups(o)[i] == 256 * o[2 * i] + o[2 * i + 1],
{
}

proof fn lemma_zero_run(s: Seq<u16>, i: int)
    requires
        0 <= i <= s.len(),
    ensures
        ({
            let n = zero_run(s, i);
            &&& 0 <= n <= s.len() - i
            &&& forall|j: int| i <= j < i + n ==> #[trigger] s[j] == 0
            &&& i + n < s.len() ==> s[i + n] != 0
        }),
    decreases s.len() - i,
{
    if i < s.len() && s[i] == 0 {
        lemma_zero_run(s, i + 1);
    }
}

/// The run of zero groups that two colons stand for is one that no other run is
/// longer than, and none before it is as long.
pub proof fn colons_stand_for_the_longest_run(s: Seq<u16>, a: int, b: int)
    requires
        s.len() == 8,
        0 <= a <= b <= 8,
        forall|j: int| a <= j < b ==> #[trigger] s[j] == 0,
    ensures
        ({
            let (start, len) = longest_run(s, 8);
            &&& 0 <= start && 0 <= len && start + len <= 8
            &&& forall|j: int| start <= j < start + len ==> #[trigger] s[j] == 0
            &&& b - a <= len
            &&& a < start ==> b - a < len
        }),
{
    lemma_longest_run(s, 8, a, b);
}

proof fn lemma_longest_run(s: Seq<u16>, n: int, a: int, b: int)
    requires
        0 <= n <= s.len(),
        0 <= a <= b <= s.len(),
        forall|j: int| a <= j < b ==> #[trigger] s[j] == 0,
    ensures
        ({
            let (start, len) = longest_run(s, n);
            &&& 0 <= start && 0 <= len && start + len <= s.len()
            &&& len > 0 ==> start < n
            &&& len == 0 ==> start == 0
            &&& forall|j: int| start <= j < start + len ==> #[trigger] s[j] == 0
            &&& a < n ==> b - a <= len
            &&& a < n && a < start ==> b - a < len
        }),
    decreases n,
{
    if n > 0 {
        lemma_longest_run(s, n - 1, a, b);
        lemma_zero_run(s, n - 1);
        if a == n - 1 {
            let run = zero_run(s, a);
            if b - a > run {
                assert(s[a + run] == 0);
            }
        }
    }
}

/// An address is written as four numbers with dots in between, or in brackets as
/// groups with colons in between, two colons where zeros are left out; a colon and
/// the port follow.
pub proof fn address_is_written_with_its_port(a: NetAddr, s: Seq<u16>, n: u16)
    ensures
        a.ip matches IpAddr::V4(o) ==> addr_text(a) == text::decimal(o[0] as nat) + "."@
            + text::decimal(o[1] as nat) + "."@ + text::decimal(o[2] as nat) + "."@ + text::decimal(
            o[3] as nat,
        ) + ":"@ + text::decimal(a.port as nat),
        a.ip matches IpAddr::V6(o) ==> addr_text(a) == "["@ + v6_text(o@) + "]"@ + ":"@
            + text::decimal(a.port as nat),
        groups_text(Seq::empty()) == Seq::<char>::empty(),
        groups_text(seq![n]) == group_text(n),
        s.len() > 0 ==> groups_text(s.push(n)) == groups_text(s) + ":"@ + group_text(n),
{
    assert(s.push(n).drop_last() =~= s);
}

/// An IPv6 address that stands for an IPv4 one is written as that behind a fixed
/// front. In any other the longest run of two or more zero groups is left out.
pub proof fn zeros_are_left_out_of_an_address(o: Seq<u8>)
    requires
        o.len() == 16,
    ensures
        ({
            let s = groups(o);
            let (start, len) = longest_run(s, 8);
            let mapped = s[0] == 0 && s[1] == 0 && s[2] == 0 && s[3] == 0 && s[4] == 0 && s[5]
                == 0xffff;
            &&& mapped ==> v6_text(o) == "::ffff:"@ + v4_text(o.subrange(12, 16))
            &&& !mapped && len >= 2 ==> v6_text(o) == groups_text(s.subrange(0, start)) + "::"@
                + groups_text(s.subrange(start + len, 8))
            &&& !mapped && len < 2 ==> v6_text(o) == groups_text(s)
        }),
{
    let s = groups(o);
    let m = seq![0u16, 0u16, 0u16, 0u16, 0u16, 0xffffu16];
    let t = s.subrange(0, 6);
    assert(t[0] == s[0] && t[1] == s[1] && t[2] == s[2] && t[3] == s[3] && t[4] == s[4] && t[5]
        == s[5]);
    if s[0] == 0 && s[1] == 0 && s[2] == 0 && s[3] == 0 && s[4] == 0 && s[5] == 0xffff {
        assert(t =~= m);
    } else {
        assert(m[0] == 0 && m[1] == 0 && m[2] == 0 && m[3] == 0 && m[4] == 0 && m[5] == 0xffff);
    }
}

} // verus!
