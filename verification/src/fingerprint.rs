//! Fingerprints that stay the same across runs and machines.
use vstd::prelude::*;
use vstd::string::*;

verus! {

pub const FNV_OFFSET: u64 = 0xcbf2_9ce4_8422_2325;

pub const FNV_PRIME: u64 = 0x0000_0100_0000_01b3;

/// One byte mixed into a state, and the state multiplied.
pub open spec fn fnv_step(h: u64, b: u8) -> u64 {
    (h ^ (b as u64)).wrapping_mul(FNV_PRIME)
}

/// FNV-1a over the bytes.
pub open spec fn fnv_state(b: Seq<u8>) -> u64
    decreases b.len(),
{
    if b.len() == 0 {
        FNV_OFFSET
    } else {
        fnv_step(fnv_state(b.drop_last()), b.last())
    }
}

/// The character of a hexadecimal digit.
pub open spec fn hex_char(d: nat) -> char {
    if d < 10 {
        (48 + d) as char
    } else {
        (87 + d) as char
    }
}

/// The last `width` hexadecimal digits of `n`.
pub open spec fn hex(n: nat, width: nat) -> Seq<char>
    decreases width,
{
    if width == 0 {
        Seq::empty()
    } else {
        hex(n / 16, (width - 1) as nat).push(hex_char(n % 16))
    }
}

/// The fingerprint of the bytes.
pub open spec fn fnv_text(b: Seq<u8>) -> Seq<char> {
    hex(fnv_state(b) as nat, 16)
}

fn to_hex_char(d: u8) -> (r: char)
    requires
        d < 16,
    ensures
        r == hex_char(d as nat),
{
    if d < 10 {
        (48u8 + d) as char
    } else {
        (87u8 + d) as char
    }
}

fn push_hex(out: &mut String, n: u64, width: u8)
    ensures
        final(out)@ == old(out)@ + hex(n as nat, width as nat),
    decreases width,
{
    if width > 0 {
        push_hex(out, n / 16, width - 1);
        out.push(to_hex_char((n % 16) as u8));
    }
    assert(out@ =~= old(out)@ + hex(n as nat, width as nat));
}

/// FNV over raw bytes — for callers slicing at a fixed offset.
pub fn fnv_bytes(bytes: &[u8]) -> (r: String)
    ensures
        r@ == fnv_text(bytes@),
{
    let mut h: u64 = FNV_OFFSET;
    let mut i: usize = 0;
    while i < bytes.len()
        invariant
            i <= bytes.len(),
            h == fnv_state(bytes@.take(i as int)),
        decreases bytes.len() - i,
    {
        assert(bytes@.take(i + 1).drop_last() =~= bytes@.take(i as int));
        h = (h ^ (bytes[i] as u64)).wrapping_mul(FNV_PRIME);
        i += 1;
    }
    assert(bytes@.take(i as int) =~= bytes@);
    let mut out = String::new();
    push_hex(&mut out, h, 16);
    assert(out@ =~= fnv_text(bytes@));
    out
}

/// The fingerprint of a text.
pub open spec fn fnv_of(s: Seq<char>) -> Seq<char> {
    fnv_text(vstd::utf8::encode_utf8(s))
}

/// FNV-1a 64-bit, hex. Stable across runs, which is what a persisted
/// fingerprint requires.
pub fn fnv(s: &str) -> (r: String)
    ensures
        r@ == fnv_of(s@),
{
    fnv_bytes(s.as_bytes())
}

// ------------------------------------------------------------------------- laws

/// What undoes a multiplication by the prime.
const FNV_INVERSE: u64 = 0xce96_5057_aff6_957b;

/// States that differ still differ after the same byte.
proof fn lemma_step_differs(x: u64, y: u64, b: u8)
    requires
        x != y,
    ensures
        fnv_step(x, b) != fnv_step(y, b),
{
    let (p, q) = (x ^ (b as u64), y ^ (b as u64));
    assert(p != q) by (bit_vector)
        requires
            x != y,
            p == x ^ (b as u64),
            q == y ^ (b as u64),
    ;
    let m: int = 0x1_0000_0000_0000_0000;
    lemma_unmultiplied(p);
    lemma_unmultiplied(q);
    assert(p.wrapping_mul(FNV_PRIME) as int == (p * FNV_PRIME) % m);
    assert(q.wrapping_mul(FNV_PRIME) as int == (q * FNV_PRIME) % m);
}

/// A state is got back from its product with the prime.
proof fn lemma_unmultiplied(p: u64)
    ensures
        (((p * FNV_PRIME) % 0x1_0000_0000_0000_0000) * FNV_INVERSE) % 0x1_0000_0000_0000_0000 == p,
{
    let m: int = 0x1_0000_0000_0000_0000;
    let (a, b) = (FNV_PRIME as int, FNV_INVERSE as int);
    let k: int = 887_285_111_055;
    assert(a * b == k * m + 1) by (nonlinear_arith)
        requires
            a == 0x0100_0000_01b3,
            b == 0xce96_5057_aff6_957b,
            k == 887_285_111_055,
            m == 0x1_0000_0000_0000_0000,
    ;
    vstd::arithmetic::div_mod::lemma_mul_mod_noop_left(p * a, b, m);
    assert((p * a) * b == m * (p * k) + p) by (nonlinear_arith)
        requires
            a * b == k * m + 1,
    ;
    vstd::arithmetic::div_mod::lemma_mod_multiples_vanish(p * k, p as int, m);
    vstd::arithmetic::div_mod::lemma_small_mod(p as nat, m as nat);
}

/// What makes two fingerprints differ is not undone by what follows.
pub proof fn what_follows_undoes_nothing(a: Seq<u8>, b: Seq<u8>, rest: Seq<u8>)
    requires
        fnv_state(a) != fnv_state(b),
    ensures
        fnv_state(a + rest) != fnv_state(b + rest),
        fnv_text(a + rest) != fnv_text(b + rest),
    decreases rest.len(),
{
    if rest.len() == 0 {
        assert(a + rest =~= a);
        assert(b + rest =~= b);
    } else {
        let before = rest.drop_last();
        what_follows_undoes_nothing(a, b, before);
        assert((a + rest).drop_last() =~= a + before);
        assert((b + rest).drop_last() =~= b + before);
        lemma_step_differs(fnv_state(a + before), fnv_state(b + before), rest.last());
    }
    lemma_hex_differs(fnv_state(a + rest) as nat, fnv_state(b + rest) as nat, 16);
}

/// Sixteen to the power of `n`.
pub open spec fn pow16(n: nat) -> nat
    decreases n,
{
    if n == 0 {
        1
    } else {
        16 * pow16((n - 1) as nat)
    }
}

proof fn lemma_hex_len(n: nat, width: nat)
    ensures
        hex(n, width).len() == width,
    decreases width,
{
    if width > 0 {
        lemma_hex_len(n / 16, (width - 1) as nat);
    }
}

/// Numbers that differ, and have no more digits than are written, are written
/// differently.
proof fn lemma_hex_digits(n: nat, m: nat, width: nat)
    requires
        n < pow16(width),
        m < pow16(width),
        hex(n, width) == hex(m, width),
    ensures
        n == m,
    decreases width,
{
    if width > 0 {
        let w = (width - 1) as nat;
        let (a, b) = (hex(n / 16, w), hex(m / 16, w));
        let (x, y) = (hex_char(n % 16), hex_char(m % 16));
        assert(a.push(x).last() == x && b.push(y).last() == y);
        assert(a =~= a.push(x).drop_last() && b =~= b.push(y).drop_last());
        assert(x as u32 == y as u32);
        assert(n % 16 == m % 16);
        lemma_hex_digits(n / 16, m / 16, w);
    }
}

proof fn lemma_hex_differs(n: nat, m: nat, width: nat)
    requires
        width == 16,
        n <= u64::MAX,
        m <= u64::MAX,
    ensures
        n != m ==> hex(n, width) != hex(m, width),
{
    reveal_with_fuel(pow16, 17);
    assert(pow16(16) == 0x1_0000_0000_0000_0000);
    if hex(n, width) == hex(m, width) {
        lemma_hex_digits(n, m, width);
    }
}

/// Texts of one length that differ in a single byte never share a
/// fingerprint.
pub proof fn one_changed_byte_changes_the_fingerprint(a: Seq<u8>, b: Seq<u8>, i: int)
    requires
        0 <= i < a.len(),
        a.len() == b.len(),
        a[i] != b[i],
        forall|k: int| 0 <= k < a.len() && k != i ==> a[k] == b[k],
    ensures
        fnv_text(a) != fnv_text(b),
{
    let head = a.take(i);
    let rest = a.skip(i + 1);
    let (x, y) = (head.push(a[i]), head.push(b[i]));
    assert(x.drop_last() =~= head && y.drop_last() =~= head);
    let h = fnv_state(head);
    let (c, d) = (a[i] as u64, b[i] as u64);
    let (p, q) = (h ^ c, h ^ d);
    assert(p != q) by (bit_vector)
        requires
            c != d,
            p == h ^ c,
            q == h ^ d,
    ;
    let m: int = 0x1_0000_0000_0000_0000;
    lemma_unmultiplied(p);
    lemma_unmultiplied(q);
    assert(p.wrapping_mul(FNV_PRIME) as int == (p * FNV_PRIME) % m);
    assert(q.wrapping_mul(FNV_PRIME) as int == (q * FNV_PRIME) % m);
    what_follows_undoes_nothing(x, y, rest);
    assert(a =~= x + rest);
    assert(b =~= y + rest);
}

/// One more byte, with the numbers at hand.
pub proof fn lemma_fnv_push(s: Seq<u8>, b: u8, h: u64, mixed: u64, next: u64)
    requires
        fnv_state(s) == h,
        h ^ (b as u64) == mixed,
        (mixed as nat * FNV_PRIME as nat) % 0x1_0000_0000_0000_0000nat == next,
    ensures
        fnv_state(s.push(b)) == next,
{
    assert(s.push(b).drop_last() =~= s);
}

/// The fingerprint is FNV-1a over 64 bits: one more byte is mixed into the state, and the
/// state multiplied, with the constants that it is known by.
pub proof fn each_byte_is_mixed_in(s: Seq<u8>, b: u8)
    ensures
        fnv_state(Seq::empty()) == 14_695_981_039_346_656_037u64,
        fnv_state(s.push(b)) as nat == ((fnv_state(s) ^ (b as u64)) as nat * 1_099_511_628_211nat)
            % 18_446_744_073_709_551_616nat,
{
    let h = fnv_state(s);
    let mixed = h ^ (b as u64);
    let n = (mixed as nat * FNV_PRIME as nat) % 0x1_0000_0000_0000_0000nat;
    assert(n < 0x1_0000_0000_0000_0000nat);
    lemma_fnv_push(s, b, h, mixed, n as u64);
}

/// The value of a hexadecimal digit in lower case.
pub open spec fn hex_value(c: char) -> nat {
    if '0' <= c <= '9' {
        (c as u32 - 48) as nat
    } else {
        (c as u32 - 87) as nat
    }
}

/// The number that hexadecimal digits stand for.
pub open spec fn hex_number(s: Seq<char>) -> nat
    decreases s.len(),
{
    if s.len() == 0 {
        0
    } else {
        hex_number(s.drop_last()) * 16 + hex_value(s.last())
    }
}

/// The digits of a fingerprint are sixteen, and read as a number they are the state.
pub proof fn a_fingerprint_reads_as_its_state(b: Seq<u8>)
    ensures
        fnv_text(b).len() == 16,
        hex_number(fnv_text(b)) == fnv_state(b),
        forall|i: int|
            0 <= i < 16 ==> '0' <= (#[trigger] fnv_text(b)[i]) <= '9' || 'a' <= fnv_text(b)[i] <= 'f',
{
    let n = fnv_state(b) as nat;
    lemma_hex_reads(n, 16);
    reveal_with_fuel(pow16, 17);
    assert(pow16(16) == 18_446_744_073_709_551_616nat);
    vstd::arithmetic::div_mod::lemma_small_mod(n, pow16(16));
}

proof fn lemma_hex_reads(n: nat, width: nat)
    ensures
        hex(n, width).len() == width,
        pow16(width) > 0,
        hex_number(hex(n, width)) == n % pow16(width),
        forall|i: int|
            0 <= i < width ==> '0' <= (#[trigger] hex(n, width)[i]) <= '9' || 'a' <= hex(n, width)[i]
                <= 'f',
    decreases width,
{
    if width > 0 {
        let w = (width - 1) as nat;
        lemma_hex_reads(n / 16, w);
        let p = pow16(w);
        let s = hex(n, width);
        assert(s.drop_last() =~= hex(n / 16, w));
        assert(s.last() == hex_char(n % 16));
        assert(hex_value(hex_char(n % 16)) == n % 16);
        vstd::arithmetic::div_mod::lemma_mod_breakdown(n as int, 16, p as int);
        assert(n % (16 * p) == ((n / 16) % p) * 16 + n % 16) by (nonlinear_arith)
            requires
                n % (16 * p) == 16 * ((n / 16) % p) + n % 16,
        ;
    }
}

} // verus!
