//! Byte sequences read as numbers, and the comparisons built on that reading.

use vstd::prelude::*;

verus! {

/// 256 to the power `n`: one more than the largest number `n` bytes can hold.
pub open spec fn pow256(n: nat) -> nat
    decreases n,
{
    if n == 0 {
        1
    } else {
        256 * pow256((n - 1) as nat)
    }
}

/// The number a little-endian byte sequence stands for.
pub open spec fn le_value(s: Seq<u8>) -> nat
    decreases s.len(),
{
    if s.len() == 0 {
        0
    } else {
        s[0] as nat + 256 * le_value(s.subrange(1, s.len() as int))
    }
}

/// The `n` low bytes of `v`, least significant first.
pub open spec fn le_bytes(v: nat, n: nat) -> Seq<u8>
    decreases n,
{
    if n == 0 {
        Seq::empty()
    } else {
        seq![(v % 256) as u8] + le_bytes(v / 256, (n - 1) as nat)
    }
}

/// The number a big-endian byte sequence stands for.
pub open spec fn be_value(s: Seq<u8>) -> nat
    decreases s.len(),
{
    if s.len() == 0 {
        0
    } else {
        256 * be_value(s.subrange(0, s.len() - 1)) + s[s.len() - 1] as nat
    }
}

/// `n` zero bytes.
pub open spec fn zeros(n: nat) -> Seq<u8> {
    Seq::new(n, |i: int| 0u8)
}

pub proof fn lemma_pow256_pos(n: nat)
    ensures
        pow256(n) > 0,
    decreases n,
{
    if n > 0 {
        lemma_pow256_pos((n - 1) as nat);
    }
}

pub proof fn lemma_pow256_add(a: nat, b: nat)
    ensures
        pow256(a + b) == pow256(a) * pow256(b),
    decreases a,
{
    if a == 0 {
        assert(pow256(a) * pow256(b) == pow256(b)) by (nonlinear_arith)
            requires
                pow256(a) == 1,
        ;
    } else {
        lemma_pow256_add((a - 1) as nat, b);
        let x = pow256((a - 1) as nat);
        let y = pow256(b);
        assert((256 * x) * y == 256 * (x * y)) by (nonlinear_arith);
    }
}

/// The powers that machine integers and 256-bit numbers need.
pub proof fn lemma_pow256_values()
    ensures
        pow256(0) == 1,
        pow256(1) == 0x100,
        pow256(2) == 0x1_0000,
        pow256(3) == 0x100_0000,
        pow256(4) == 0x1_0000_0000,
        pow256(8) == 0x1_0000_0000_0000_0000,
        pow256(16) == 0x1_0000_0000_0000_0000_0000_0000_0000_0000,
        pow256(24) == 0x1_0000_0000_0000_0000_0000_0000_0000_0000_0000_0000_0000_0000,
        pow256(32)
            == 0x1_0000_0000_0000_0000_0000_0000_0000_0000_0000_0000_0000_0000_0000_0000_0000_0000,
{
    reveal_with_fuel(pow256, 9);
    lemma_pow256_add(8, 8);
    lemma_pow256_add(16, 8);
    lemma_pow256_add(16, 16);
}

pub proof fn lemma_pow256_monotone(a: nat, b: nat)
    requires
        a <= b,
    ensures
        pow256(a) <= pow256(b),
    decreases b - a,
{
    if a < b {
        lemma_pow256_monotone(a, (b - 1) as nat);
        lemma_pow256_pos((b - 1) as nat);
    }
}

pub proof fn lemma_le_bytes_len(v: nat, n: nat)
    ensures
        le_bytes(v, n).len() == n,
    decreases n,
{
    if n > 0 {
        lemma_le_bytes_len(v / 256, (n - 1) as nat);
    }
}

/// Writing a number in enough bytes and reading it back gives the number.
pub proof fn lemma_le_value_of_bytes(v: nat, n: nat)
    requires
        v < pow256(n),
    ensures
        le_value(le_bytes(v, n)) == v,
    decreases n,
{
    if n > 0 {
        let m = (n - 1) as nat;
        lemma_le_bytes_len(v / 256, m);
        assert(v / 256 < pow256(m)) by (nonlinear_arith)
            requires
                v < 256 * pow256(m),
        ;
        lemma_le_value_of_bytes(v / 256, m);
        let s = le_bytes(v, n);
        assert(s.subrange(1, s.len() as int) =~= le_bytes(v / 256, m));
    }
}

/// Reading bytes as a number and writing it in as many bytes gives the bytes.
pub proof fn lemma_le_bytes_of_value(s: Seq<u8>)
    ensures
        le_bytes(le_value(s), s.len()) == s,
        le_value(s) < pow256(s.len()),
    decreases s.len(),
{
    if s.len() > 0 {
        let rest = s.subrange(1, s.len() as int);
        lemma_le_bytes_of_value(rest);
        assert(le_value(s) / 256 == le_value(rest));
        assert(le_value(s) % 256 == s[0] as nat);
        assert(s =~= seq![s[0]] + rest);
    }
}

/// Numbers that fit are told apart by their bytes.
pub proof fn lemma_le_bytes_injective(a: nat, b: nat, n: nat)
    requires
        a < pow256(n),
        b < pow256(n),
        le_bytes(a, n) == le_bytes(b, n),
    ensures
        a == b,
{
    lemma_le_value_of_bytes(a, n);
    lemma_le_value_of_bytes(b, n);
}

/// The first `a` bytes of a number do not depend on what lies above them, and
/// the rest are the bytes of the quotient.
pub proof fn lemma_le_bytes_split(v: nat, a: nat, b: nat)
    ensures
        le_bytes(v, a + b) == le_bytes(v, a) + le_bytes(v / pow256(a), b),
    decreases a,
{
    if a == 0 {
        assert(pow256(0) == 1);
        assert(v / 1 == v);
        assert(le_bytes(v, 0) + le_bytes(v, b) =~= le_bytes(v, b));
    } else {
        let m = (a - 1) as nat;
        lemma_le_bytes_split(v / 256, m, b);
        lemma_pow256_pos(m);
        assert((v / 256) / pow256(m) == v / (256 * pow256(m))) by {
            vstd::arithmetic::div_mod::lemma_div_denominator(v as int, 256, pow256(m) as int);
        }
        assert(le_bytes(v, a + b) =~= le_bytes(v, a) + le_bytes(v / pow256(a), b));
    }
}

pub proof fn lemma_le_bytes_low(v: nat, w: nat, n: nat)
    requires
        v % pow256(n) == w % pow256(n),
    ensures
        le_bytes(v, n) == le_bytes(w, n),
    decreases n,
{
    if n > 0 {
        let m = (n - 1) as nat;
        lemma_pow256_pos(m);
        let p = pow256(m) as int;
        vstd::arithmetic::div_mod::lemma_mod_breakdown(v as int, 256, p);
        vstd::arithmetic::div_mod::lemma_mod_breakdown(w as int, 256, p);
        let a = (v / 256) % pow256(m);
        let b = (w / 256) % pow256(m);
        assert(256 * a + v % 256 == 256 * b + w % 256);
        lemma_le_bytes_low(v / 256, w / 256, m);
    }
}

pub proof fn lemma_be_value_bound(s: Seq<u8>)
    ensures
        be_value(s) < pow256(s.len()),
    decreases s.len(),
{
    if s.len() > 0 {
        lemma_be_value_bound(s.subrange(0, s.len() - 1));
    }
}

/// A big-endian number splits at any point into a high and a low part.
pub proof fn lemma_be_value_concat(a: Seq<u8>, b: Seq<u8>)
    ensures
        be_value(a + b) == be_value(a) * pow256(b.len()) + be_value(b),
    decreases b.len(),
{
    if b.len() == 0 {
        assert(a + b =~= a);
        assert(be_value(a) * 1 == be_value(a));
    } else {
        let b0 = b.subrange(0, b.len() - 1);
        let m = (b.len() - 1) as nat;
        assert((a + b).subrange(0, (a + b).len() - 1) =~= a + b0);
        lemma_be_value_concat(a, b0);
        let x = be_value(a);
        let p = pow256(m);
        assert(256 * (x * p + be_value(b0)) == x * (256 * p) + 256 * be_value(b0))
            by (nonlinear_arith);
    }
}

/// The first byte at which two sequences of one length differ decides which
/// is the smaller number.
pub proof fn lemma_be_value_order(a: Seq<u8>, b: Seq<u8>, i: int)
    requires
        a.len() == b.len(),
        0 <= i < a.len(),
        a.subrange(0, i) == b.subrange(0, i),
        a[i] < b[i],
    ensures
        be_value(a) < be_value(b),
{
    let n = a.len() as int;
    let a1 = a.subrange(0, i + 1);
    let b1 = b.subrange(0, i + 1);
    let a2 = a.subrange(i + 1, n);
    let b2 = b.subrange(i + 1, n);
    assert(a =~= a1 + a2);
    assert(b =~= b1 + b2);
    lemma_be_value_concat(a1, a2);
    lemma_be_value_concat(b1, b2);
    lemma_be_value_bound(a2);
    assert(a1.subrange(0, i) =~= a.subrange(0, i));
    assert(b1.subrange(0, i) =~= b.subrange(0, i));
    assert(be_value(a1) + 1 <= be_value(b1));
    let x = be_value(a1);
    let y = be_value(b1);
    let p = pow256((n - i - 1) as nat);
    assert(x * p + p <= y * p) by (nonlinear_arith)
        requires
            x + 1 <= y,
            p >= 0,
    ;
}

/// Sequences of one length that stand for the same number are the same.
pub proof fn lemma_be_value_injective(a: Seq<u8>, b: Seq<u8>)
    requires
        a.len() == b.len(),
        be_value(a) == be_value(b),
    ensures
        a == b,
    decreases a.len(),
{
    if a.len() > 0 {
        let a0 = a.subrange(0, a.len() - 1);
        let b0 = b.subrange(0, b.len() - 1);
        lemma_be_value_injective(a0, b0);
        assert(a =~= a0.push(a[a.len() - 1]));
        assert(b =~= b0.push(b[b.len() - 1]));
    } else {
        assert(a =~= b);
    }
}

/// Leading zero bytes change nothing.
pub proof fn lemma_be_value_zeros(n: nat)
    ensures
        be_value(zeros(n)) == 0,
    decreases n,
{
    if n > 0 {
        lemma_be_value_zeros((n - 1) as nat);
        assert(zeros(n).subrange(0, n - 1) =~= zeros((n - 1) as nat));
    }
}

/// Two concatenations that agree, cut at the same point, agree piece by piece.
pub proof fn lemma_split_equal<T>(a1: Seq<T>, a2: Seq<T>, b1: Seq<T>, b2: Seq<T>)
    requires
        a1 + a2 == b1 + b2,
        a1.len() == b1.len() || a2.len() == b2.len(),
    ensures
        a1 == b1,
        a2 == b2,
{
    let a = a1 + a2;
    let b = b1 + b2;
    assert(a.len() == b.len());
    assert(a.subrange(0, a1.len() as int) =~= a1);
    assert(b.subrange(0, b1.len() as int) =~= b1);
    assert(a.subrange(a1.len() as int, a.len() as int) =~= a2);
    assert(b.subrange(b1.len() as int, b.len() as int) =~= b2);
}

/// Adjoining ranges of a sequence join to the range over both.
pub proof fn lemma_join_ranges<T>(s: Seq<T>, a: int, b: int, c: int)
    requires
        0 <= a <= b <= c <= s.len(),
    ensures
        s.subrange(a, b) + s.subrange(b, c) == s.subrange(a, c),
{
    assert(s.subrange(a, b) + s.subrange(b, c) =~= s.subrange(a, c));
}

/// Arrays with the same contents are the same value.
pub proof fn lemma_array_equal<const N: usize>(a: [u8; N], b: [u8; N])
    requires
        a@ == b@,
    ensures
        a == b,
{
    assert(a =~= b) by {
        assert forall|i: int| 0 <= i < N implies a[i] == b[i] by {
            assert(a@[i] == b@[i]);
        }
    }
}

/// Whether two slices hold the same bytes.
pub fn bytes_equal(a: &[u8], b: &[u8]) -> (r: bool)
    ensures
        r == (a@ == b@),
{
    if a.len() != b.len() {
        return false;
    }
    let mut i: usize = 0;
    while i < a.len()
        invariant
            i <= a@.len() == b@.len(),
            a@.subrange(0, i as int) == b@.subrange(0, i as int),
        decreases a@.len() - i,
    {
        if a[i] != b[i] {
            return false;
        }
        i = i + 1;
        assert(a@.subrange(0, i as int) =~= a@.subrange(0, i - 1).push(a@[i - 1]));
        assert(b@.subrange(0, i as int) =~= b@.subrange(0, i - 1).push(b@[i - 1]));
    }
    assert(a@ =~= a@.subrange(0, i as int));
    assert(b@ =~= b@.subrange(0, i as int));
    true
}

/// Whether `a` comes before `b` byte by byte, which for slices of one length
/// is whether it is the smaller big-endian number.
pub fn bytes_less(a: &[u8], b: &[u8]) -> (r: bool)
    requires
        a@.len() == b@.len(),
    ensures
        r == (be_value(a@) < be_value(b@)),
{
    let mut i: usize = 0;
    while i < a.len()
        invariant
            i <= a@.len() == b@.len(),
            a@.subrange(0, i as int) == b@.subrange(0, i as int),
        decreases a@.len() - i,
    {
        if a[i] < b[i] {
            proof {
                lemma_be_value_order(a@, b@, i as int);
            }
            return true;
        }
        if a[i] > b[i] {
            proof {
                lemma_be_value_order(b@, a@, i as int);
            }
            return false;
        }
        i = i + 1;
        assert(a@.subrange(0, i as int) =~= a@.subrange(0, i - 1).push(a@[i - 1]));
        assert(b@.subrange(0, i as int) =~= b@.subrange(0, i - 1).push(b@[i - 1]));
    }
    assert(a@ =~= a@.subrange(0, i as int));
    assert(b@ =~= b@.subrange(0, i as int));
    false
}

/// Append a slice to a buffer.
pub fn push_bytes(buf: &mut Vec<u8>, data: &[u8])
    ensures
        final(buf)@ == old(buf)@ + data@,
{
    buf.extend_from_slice(data);
    assert(buf@ =~= old(buf)@ + data@);
}

/// Append the `n` low bytes of `v`, least significant first.
pub fn push_le(buf: &mut Vec<u8>, v: u64, n: usize)
    ensures
        final(buf)@ == old(buf)@ + le_bytes(v as nat, n as nat),
{
    let mut rest: u64 = v;
    let mut i: usize = 0;
    assert(buf@ + le_bytes(v as nat, n as nat) =~= old(buf)@ + le_bytes(v as nat, n as nat));
    while i < n
        invariant
            i <= n,
            buf@ + le_bytes(rest as nat, (n - i) as nat) == old(buf)@ + le_bytes(
                v as nat,
                n as nat,
            ),
        decreases n - i,
    {
        let ghost before = buf@;
        let ghost tail = le_bytes(rest as nat / 256, (n - i - 1) as nat);
        buf.push((rest % 256) as u8);
        assert(buf@ + tail =~= before + le_bytes(rest as nat, (n - i) as nat));
        rest = rest / 256;
        i = i + 1;
    }
    assert(buf@ + le_bytes(rest as nat, 0) =~= buf@);
}

/// Read `n` bytes starting at `at` as a little-endian number.
pub fn read_le(data: &[u8], at: usize, n: usize) -> (v: u64)
    requires
        at + n <= data@.len(),
        n <= 8,
    ensures
        v == le_value(data@.subrange(at as int, at + n)),
        v < pow256(n as nat),
{
    let len: usize = data.len();
    let mut v: u64 = 0;
    let mut i: usize = n;
    let ghost end: int = at + n;
    proof {
        lemma_pow256_values();
    }
    while i > 0
        invariant
            i <= n <= 8,
            end == at + n,
            data@.len() == len,
            end <= data@.len(),
            v == le_value(data@.subrange(at + i, end)),
            v < pow256((n - i) as nat),
        decreases i,
    {
        i = i - 1;
        let ghost s = data@.subrange(at + i, end);
        proof {
            assert(s.subrange(1, s.len() as int) =~= data@.subrange(at + i + 1, end));
            lemma_pow256_monotone((n - i) as nat, 8);
            lemma_pow256_values();
        }
        v = v * 256 + data[at + i] as u64;
    }
    v
}

/// Read eight bytes starting at `at` as a big-endian number.
pub fn read_be_u64(data: &[u8], at: usize) -> (v: u64)
    requires
        at + 8 <= data@.len(),
    ensures
        v == be_value(data@.subrange(at as int, at + 8)),
{
    let len: usize = data.len();
    let mut v: u64 = 0;
    let mut i: usize = 0;
    while i < 8
        invariant
            i <= 8,
            data@.len() == len,
            at + 8 <= data@.len(),
            v == be_value(data@.subrange(at as int, at + i)),
            v < pow256(i as nat),
        decreases 8 - i,
    {
        let ghost s = data@.subrange(at as int, at + i + 1);
        proof {
            assert(s.subrange(0, s.len() - 1) =~= data@.subrange(at as int, at + i));
            lemma_pow256_monotone((i + 1) as nat, 8);
            lemma_pow256_values();
        }
        v = v * 256 + data[at + i] as u64;
        i = i + 1;
    }
    v
}

/// `N` zero bytes.
pub fn zero_array<const N: usize>() -> (r: [u8; N])
    ensures
        r@ == zeros(N as nat),
{
    let r: [u8; N] = [0u8; N];
    proof {
        vstd::array::axiom_spec_array_fill_for_copy_type::<u8, N>(0u8);
        assert(r@ =~= zeros(N as nat));
    }
    r
}

/// Copy `N` bytes starting at `at` out of a slice.
pub fn take_array<const N: usize>(data: &[u8], at: usize) -> (r: [u8; N])
    requires
        at + N <= data@.len(),
    ensures
        r@ == data@.subrange(at as int, at + N),
{
    let len: usize = data.len();
    let mut out: [u8; N] = [0u8; N];
    let mut i: usize = 0;
    while i < N
        invariant
            i <= N,
            data@.len() == len,
            at + N <= data@.len(),
            forall|j: int| 0 <= j < i ==> out@[j] == data@[at + j],
        decreases N - i,
    {
        out[i] = data[at + i];
        i = i + 1;
    }
    assert(out@ =~= data@.subrange(at as int, at + N));
    out
}

/// A power of 256 is that.
pub proof fn lemma_pow256_is_a_power(n: nat)
    ensures
        pow256(n) == vstd::arithmetic::power::pow(256, n),
    decreases n,
{
    reveal(vstd::arithmetic::power::pow);
    if n > 0 {
        lemma_pow256_is_a_power((n - 1) as nat);
    }
}

/// Byte `i` of a number written least significant first is its digit of weight
/// 256 to the power `i`.
pub proof fn bytes_are_digits(v: nat, n: nat, i: int)
    requires
        0 <= i < n,
    ensures
        le_bytes(v, n).len() == n,
        le_bytes(v, n)[i] == v as int / vstd::arithmetic::power::pow(256, i as nat) % 256,
{
    lemma_le_bytes_len(v, n);
    lemma_pow256_is_a_power(i as nat);
    lemma_le_bytes_split(v, i as nat, (n - i) as nat);
    lemma_le_bytes_len(v, i as nat);
    lemma_pow256_pos(i as nat);
    let x = v / pow256(i as nat);
    let rest = le_bytes(x, (n - i) as nat);
    assert(i as nat + (n - i) as nat == n);
    assert(le_bytes(v, n) == le_bytes(v, i as nat) + rest);
    let m = (n - i) as nat;
    assert(m > 0);
    assert(le_bytes(x, m) == seq![(x % 256) as u8] + le_bytes(x / 256, (m - 1) as nat));
    assert(rest[0] == (x % 256) as u8);
}

/// A further byte in front of a little-endian number, or behind a big-endian one,
/// is its lowest digit. The two readings are each other's mirror image.
pub proof fn further_byte_is_the_lowest_digit(s: Seq<u8>, b: u8)
    ensures
        le_value(Seq::empty()) == 0,
        be_value(Seq::empty()) == 0,
        le_value(seq![b] + s) == b + 256 * le_value(s),
        be_value(s.push(b)) == 256 * be_value(s) + b,
        be_value(s.reverse()) == le_value(s),
    decreases s.len(),
{
    let t = seq![b] + s;
    assert(t.subrange(1, t.len() as int) =~= s);
    let u = s.push(b);
    assert(u.subrange(0, u.len() - 1) =~= s);
    if s.len() > 0 {
        let rest = s.subrange(1, s.len() as int);
        further_byte_is_the_lowest_digit(rest, s[0]);
        let r = s.reverse();
        assert(r.subrange(0, r.len() - 1) =~= rest.reverse());
        assert(r[r.len() - 1] == s[0]);
    } else {
        assert(s.reverse() =~= s);
    }
}

} // verus!
