//! Little-endian integer encoding, stated once for every width.
use vstd::prelude::*;

verus! {

/// 256 to the power `n`.
pub open spec fn pow256(n: nat) -> nat
    decreases n,
{
    if n == 0 {
        1
    } else {
        256 * pow256((n - 1) as nat)
    }
}

/// The `n` low bytes of `x`, least significant first.
pub open spec fn le_bytes(x: nat, n: nat) -> Seq<u8>
    decreases n,
{
    if n == 0 {
        Seq::empty()
    } else {
        seq![(x % 256) as u8] + le_bytes(x / 256, (n - 1) as nat)
    }
}

/// The number that a little-endian byte string denotes.
pub open spec fn le_value(s: Seq<u8>) -> nat
    decreases s.len(),
{
    if s.len() == 0 {
        0
    } else {
        s[0] as nat + 256 * le_value(s.drop_first())
    }
}

pub proof fn lemma_pow256_pos(n: nat)
    ensures
        pow256(n) >= 1,
    decreases n,
{
    if n > 0 {
        lemma_pow256_pos((n - 1) as nat);
    }
}

/// Encoding then decoding gives the number back, on `n` bytes exactly.
pub proof fn lemma_le_round_trip(x: nat, n: nat)
    requires
        x < pow256(n),
    ensures
        le_bytes(x, n).len() == n,
        le_value(le_bytes(x, n)) == x,
    decreases n,
{
    if n > 0 {
        let m = (n - 1) as nat;
        assert(x / 256 < pow256(m)) by (nonlinear_arith)
            requires
                x < 256 * pow256(m),
        ;
        lemma_le_round_trip(x / 256, m);
        let s = le_bytes(x, n);
        assert(s.drop_first() =~= le_bytes(x / 256, m));
        assert(x == x % 256 + 256 * (x / 256)) by (nonlinear_arith);
    }
}

/// A byte string of length `n` denotes a number below `256^n`.
pub proof fn lemma_le_value_bound(s: Seq<u8>)
    ensures
        le_value(s) < pow256(s.len()),
    decreases s.len(),
{
    if s.len() > 0 {
        let t = s.drop_first();
        lemma_le_value_bound(t);
        let a = s[0] as nat;
        let b = le_value(t);
        let p = pow256(t.len());
        assert(a + 256 * b < 256 * p) by (nonlinear_arith)
            requires
                a < 256,
                b < p,
        ;
    }
}

/// Decoding then encoding gives the byte string back.
pub proof fn lemma_le_bytes_of_value(s: Seq<u8>)
    ensures
        le_bytes(le_value(s), s.len()) =~= s,
    decreases s.len(),
{
    if s.len() > 0 {
        let t = s.drop_first();
        lemma_le_bytes_of_value(t);
        let v = le_value(s);
        let a = s[0] as nat;
        let b = le_value(t);
        assert(v % 256 == a && v / 256 == b) by (nonlinear_arith)
            requires
                v == a + 256 * b,
                a < 256,
        ;
        let r = le_bytes(v, s.len());
        assert(r.drop_first() =~= t);
        assert(r[0] == s[0]);
        assert(r =~= seq![r[0]] + r.drop_first());
        assert(s =~= seq![s[0]] + t);
    }
}

pub proof fn lemma_pow256_values()
    ensures
        pow256(4) == 0x1_0000_0000,
        pow256(8) == 0x1_0000_0000_0000_0000,
        pow256(16) == 0x1_0000_0000_0000_0000_0000_0000_0000_0000,
{
    reveal_with_fuel(pow256, 17);
}

/// Appends the `n` low bytes of `x`, least significant first.
pub fn push_le(out: &mut Vec<u8>, x: u128, n: usize)
    requires
        n <= 16,
        x < pow256(n as nat),
    ensures
        final(out)@ == old(out)@ + le_bytes(x as nat, n as nat),
{
    let ghost start = out@;
    let mut v: u128 = x;
    let mut i: usize = 0;
    assert(pow256(0) == 1);
    while i < n
        invariant
            i <= n,
            out@ == start + le_bytes(x as nat, i as nat),
            v as nat == x as nat / pow256(i as nat),
        decreases n - i,
    {
        proof {
            lemma_le_bytes_step(x as nat, i as nat);
            lemma_div_pow_step(x as nat, i as nat);
        }
        out.push((v % 256) as u8);
        v = v / 256;
        i = i + 1;
    }
}

proof fn lemma_div_pow_step(x: nat, i: nat)
    ensures
        x / pow256(i) / 256 == x / pow256(i + 1),
{
    lemma_pow256_pos(i);
    assert(pow256(i + 1) == 256 * pow256(i));
    vstd::arithmetic::div_mod::lemma_div_denominator(x as int, pow256(i) as int, 256);
    assert(pow256(i) * 256 == 256 * pow256(i)) by (nonlinear_arith);
}

/// Taking one more byte of `x` appends byte `i`.
proof fn lemma_le_bytes_step(x: nat, i: nat)
    ensures
        le_bytes(x, i + 1) =~= le_bytes(x, i) + seq![((x / pow256(i)) % 256) as u8],
    decreases i,
{
    if i == 0 {
        assert(pow256(0) == 1);
        assert(le_bytes(x, 1) =~= seq![(x % 256) as u8] + le_bytes(x / 256, 0));
    } else {
        lemma_le_bytes_step(x / 256, (i - 1) as nat);
        assert(le_bytes(x, i) =~= seq![(x % 256) as u8] + le_bytes(x / 256, (i - 1) as nat));
        lemma_pow256_pos((i - 1) as nat);
        vstd::arithmetic::div_mod::lemma_div_denominator(x as int, 256, pow256((i - 1) as nat) as int);
        assert(256 * pow256((i - 1) as nat) == pow256(i));
        assert(x / 256 / pow256((i - 1) as nat) == x / pow256(i));
        assert(le_bytes(x, i + 1) =~= seq![(x % 256) as u8] + le_bytes(x / 256, i));
    }
}

/// Reads the number that the `n` bytes at `pos` denote, little-endian.
pub fn read_le(b: &Vec<u8>, pos: usize, n: usize) -> (r: u128)
    requires
        n <= 16,
        pos + n <= b@.len(),
    ensures
        r as nat == le_value(b@.subrange(pos as int, pos + n)),
{
    let len = b.len();
    let mut v: u128 = 0;
    let mut i: usize = n;
    proof {
        assert(b@.subrange(pos + n, pos + n) =~= Seq::<u8>::empty());
    }
    while i > 0
        invariant
            i <= n,
            n <= 16,
            pos + n <= b@.len(),
            len == b@.len(),
            v as nat == le_value(b@.subrange(pos + i, pos + n)),
        decreases i,
    {
        let ghost t = b@.subrange(pos + i, pos + n);
        let ghost s = b@.subrange(pos + i - 1, pos + n);
        proof {
            assert(s.drop_first() =~= t);
            lemma_le_value_bound(t);
            lemma_pow_mono((n - i) as nat, 15);
            lemma_pow256_values();
            assert(pow256(16) == 256 * pow256(15));
            let p = pow256(15);
            let vv = v as nat;
            let c = b@[pos + i - 1] as nat;
            assert(c + 256 * vv < pow256(16)) by (nonlinear_arith)
                requires
                    vv < p,
                    c < 256,
                    pow256(16) == 256 * p,
            ;
        }
        let k: usize = pos + i - 1;
        v = (b[k] as u128) + 256 * v;
        i = i - 1;
    }
    v
}

proof fn lemma_pow_mono(a: nat, b: nat)
    requires
        a <= b,
    ensures
        pow256(a) <= pow256(b),
    decreases b,
{
    if a < b {
        lemma_pow_mono(a, (b - 1) as nat);
        lemma_pow256_pos((b - 1) as nat);
    }
}

} // verus!
