//! Little-endian integers and fixed-size fields in byte sequences.
use vstd::prelude::*;

verus! {

/// The `n` low bytes of `x`, least significant first.
pub open spec fn le_bytes(x: nat, n: nat) -> Seq<u8>
    decreases n,
{
    if n == 0 {
        Seq::empty()
    } else {
        seq![(x % 256) as u8] + le_bytes(x / 256, (n - 1) as nat)
    }
}

/// The number whose bytes, least significant first, are `s`.
pub open spec fn le_value(s: Seq<u8>) -> nat
    decreases s.len(),
{
    if s.len() == 0 {
        0
    } else {
        s[0] as nat + 256 * le_value(s.drop_first())
    }
}

/// The number of values that `n` bytes can hold.
pub open spec fn byte_range(n: nat) -> nat
    decreases n,
{
    if n == 0 {
        1
    } else {
        256 * byte_range((n - 1) as nat)
    }
}

pub proof fn lemma_le_bytes_len(x: nat, n: nat)
    ensures
        le_bytes(x, n).len() == n,
    decreases n,
{
    if n > 0 {
        lemma_le_bytes_len(x / 256, (n - 1) as nat);
    }
}

/// Each byte is a digit of the number in base 256, the least significant first.
pub proof fn bytes_are_digits(x: nat, n: nat, i: nat)
    requires
        i < n,
    ensures
        le_bytes(x, n)[i as int] as int == (x as int / vstd::arithmetic::power::pow(256, i)) % 256,
    decreases n,
{
    lemma_le_bytes_len(x, n);
    lemma_le_bytes_len(x / 256, (n - 1) as nat);
    reveal(vstd::arithmetic::power::pow);
    if i == 0 {
        assert(vstd::arithmetic::power::pow(256, 0) == 1);
        assert(le_bytes(x, n)[0] == (x % 256) as u8);
    } else {
        let j = (i - 1) as nat;
        bytes_are_digits(x / 256, (n - 1) as nat, j);
        assert(le_bytes(x, n)[i as int] == le_bytes(x / 256, (n - 1) as nat)[j as int]);
        vstd::arithmetic::power::lemma_pow_positive(256, j);
        vstd::arithmetic::div_mod::lemma_div_denominator(
            x as int,
            256,
            vstd::arithmetic::power::pow(256, j),
        );
        assert(vstd::arithmetic::power::pow(256, i) == 256 * vstd::arithmetic::power::pow(256, j));
    }
}

/// Reading back what was written gives the number, where it fits.
pub proof fn lemma_le_value_of_bytes(x: nat, n: nat)
    requires
        x < byte_range(n),
    ensures
        le_value(le_bytes(x, n)) == x,
    decreases n,
{
    lemma_le_bytes_len(x, n);
    if n > 0 {
        assert(x / 256 < byte_range((n - 1) as nat));
        lemma_le_value_of_bytes(x / 256, (n - 1) as nat);
        let s = le_bytes(x, n);
        assert(s.drop_first() =~= le_bytes(x / 256, (n - 1) as nat));
        assert(s[0] == (x % 256) as u8);
    }
}

/// Writing what was read gives the bytes.
pub proof fn lemma_le_bytes_of_value(s: Seq<u8>)
    ensures
        le_bytes(le_value(s), s.len()) == s,
        le_value(s) < byte_range(s.len()),
    decreases s.len(),
{
    if s.len() > 0 {
        let t = s.drop_first();
        lemma_le_bytes_of_value(t);
        let v = le_value(s);
        assert(v % 256 == s[0] as nat);
        assert(v / 256 == le_value(t));
        assert(le_bytes(v, s.len()) =~= seq![s[0]] + t);
        assert(s =~= seq![s[0]] + t);
    } else {
        assert(le_bytes(0, 0) =~= s);
    }
}

pub proof fn lemma_byte_ranges()
    ensures
        byte_range(2) == 0x1_0000,
        byte_range(4) == 0x1_0000_0000,
        byte_range(8) == 0x1_0000_0000_0000_0000,
{
    reveal_with_fuel(byte_range, 9);
}

/// Appends the `n` low bytes of a number.
fn push_le(out: &mut Vec<u8>, x: u64, n: usize)
    ensures
        final(out)@ == old(out)@ + le_bytes(x as nat, n as nat),
{
    let mut rest: u64 = x;
    let mut i: usize = 0;
    proof {
        assert(old(out)@ + le_bytes(x as nat, n as nat) == out@ + le_bytes(x as nat, n as nat));
    }
    while i < n
        invariant
            i <= n,
            old(out)@ + le_bytes(x as nat, n as nat) == out@ + le_bytes(
                rest as nat,
                (n - i) as nat,
            ),
        decreases n - i,
    {
        let ghost now = out@;
        let ghost r = rest as nat;
        out.push((rest % 256) as u8);
        rest = rest / 256;
        i += 1;
        proof {
            assert(le_bytes(r, (n - i + 1) as nat) == seq![(r % 256) as u8] + le_bytes(
                r / 256,
                (n - i) as nat,
            ));
            assert(now + le_bytes(r, (n - i + 1) as nat) =~= out@ + le_bytes(
                rest as nat,
                (n - i) as nat,
            ));
        }
    }
    assert(out@ + le_bytes(rest as nat, 0) =~= out@);
}

/// Appends a 32-bit number as four little-endian bytes.
pub fn push_u32(out: &mut Vec<u8>, x: u32)
    ensures
        final(out)@ == old(out)@ + le_bytes(x as nat, 4),
{
    push_le(out, x as u64, 4)
}

/// Appends a 64-bit number as eight little-endian bytes.
pub fn push_u64(out: &mut Vec<u8>, x: u64)
    ensures
        final(out)@ == old(out)@ + le_bytes(x as nat, 8),
{
    push_le(out, x, 8)
}

/// Appends a slice.
pub fn push_bytes(out: &mut Vec<u8>, data: &[u8])
    ensures
        final(out)@ == old(out)@ + data@,
{
    let mut i: usize = 0;
    assert(out@ =~= old(out)@ + data@.take(0));
    while i < data.len()
        invariant
            i <= data@.len(),
            out@ == old(out)@ + data@.take(i as int),
        decreases data@.len() - i,
    {
        out.push(data[i]);
        i += 1;
        assert(out@ =~= old(out)@ + data@.take(i as int));
    }
    assert(data@.take(i as int) =~= data@);
}

/// Appends an identifier.
pub fn push_array(out: &mut Vec<u8>, data: &[u8; 32])
    ensures
        final(out)@ == old(out)@ + data@,
{
    let mut i: usize = 0;
    assert(out@ =~= old(out)@ + data@.take(0));
    while i < 32
        invariant
            i <= 32,
            out@ == old(out)@ + data@.take(i as int),
        decreases 32 - i,
    {
        out.push(data[i]);
        i += 1;
        assert(out@ =~= old(out)@ + data@.take(i as int));
    }
    assert(data@.take(i as int) =~= data@);
}

/// The number that `n` bytes at an offset hold, where `n` is at most eight.
fn read_le(data: &[u8], at: usize, n: usize) -> (x: u64)
    requires
        at + n <= data@.len(),
        n <= 8,
    ensures
        x as nat == le_value(data@.subrange(at as int, at + n)),
{
    let total: usize = data.len();
    let mut x: u64 = 0;
    let mut i: usize = n;
    proof {
        lemma_byte_ranges();
        reveal_with_fuel(byte_range, 9);
    }
    while i > 0
        invariant
            i <= n <= 8,
            total == data@.len(),
            at + n <= total,
            x as nat == le_value(data@.subrange(at + i, at + n)),
            x < byte_range((n - i) as nat),
        decreases i,
    {
        let ghost later = x as nat;
        proof {
            reveal_with_fuel(byte_range, 9);
            let tail = data@.subrange(at + i - 1, at + n);
            assert(tail.drop_first() =~= data@.subrange(at + i, at + n));
            lemma_le_bytes_of_value(tail);
            assert(byte_range((n - i + 1) as nat) <= 0x1_0000_0000_0000_0000) by {
                lemma_byte_range_monotone((n - i + 1) as nat, 8);
                lemma_byte_ranges();
            }
            assert(le_value(tail) == data@[at + i - 1] as nat + 256 * later);
        }
        i -= 1;
        x = data[at + i] as u64 + 256 * x;
    }
    x
}

proof fn lemma_byte_range_monotone(a: nat, b: nat)
    requires
        a <= b,
    ensures
        byte_range(a) <= byte_range(b),
    decreases b,
{
    if a < b {
        lemma_byte_range_monotone(a, (b - 1) as nat);
    }
}

/// The 32-bit number in four bytes at an offset.
pub fn read_u32(data: &[u8], at: usize) -> (x: u32)
    requires
        at + 4 <= data@.len(),
    ensures
        x as nat == le_value(data@.subrange(at as int, at + 4)),
        le_bytes(x as nat, 4) == data@.subrange(at as int, at + 4),
{
    proof {
        lemma_le_bytes_of_value(data@.subrange(at as int, at + 4));
        lemma_byte_ranges();
    }
    read_le(data, at, 4) as u32
}

/// The 64-bit number in eight bytes at an offset.
pub fn read_u64(data: &[u8], at: usize) -> (x: u64)
    requires
        at + 8 <= data@.len(),
    ensures
        x as nat == le_value(data@.subrange(at as int, at + 8)),
        le_bytes(x as nat, 8) == data@.subrange(at as int, at + 8),
{
    proof {
        lemma_le_bytes_of_value(data@.subrange(at as int, at + 8));
    }
    read_le(data, at, 8)
}

/// The identifier in thirty-two bytes at an offset.
pub fn read_array(data: &[u8], at: usize) -> (a: [u8; 32])
    requires
        at + 32 <= data@.len(),
    ensures
        a@ == data@.subrange(at as int, at + 32),
{
    let total: usize = data.len();
    let mut a: [u8; 32] = [0u8; 32];
    let mut i: usize = 0;
    while i < 32
        invariant
            i <= 32,
            total == data@.len(),
            at + 32 <= total,
            forall|j: int| 0 <= j < i ==> a@[j] == data@[at + j],
        decreases 32 - i,
    {
        a[i] = data[at + i];
        i += 1;
    }
    assert(a@ =~= data@.subrange(at as int, at + 32));
    a
}

/// Whether the bytes at an offset are those of a slice.
pub fn has_bytes_at(data: &[u8], at: usize, part: &[u8]) -> (r: bool)
    requires
        at <= data@.len(),
    ensures
        r == (at + part@.len() <= data@.len() && data@.subrange(at as int, at + part@.len())
            == part@),
{
    let total: usize = data.len();
    if total - at < part.len() {
        return false;
    }
    let mut i: usize = 0;
    while i < part.len()
        invariant
            total == data@.len(),
            at <= total,
            part@.len() <= total - at,
            i <= part@.len(),
            forall|j: int| 0 <= j < i ==> data@[at + j] == part@[j],
        decreases part@.len() - i,
    {
        if data[at + i] != part[i] {
            assert(data@.subrange(at as int, at + part@.len())[i as int] != part@[i as int]);
            return false;
        }
        i += 1;
    }
    assert(data@.subrange(at as int, at + part@.len()) =~= part@);
    true
}

} // verus!
