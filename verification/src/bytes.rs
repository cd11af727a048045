//! Fixed-width integers as byte strings, in both byte orders.

use vstd::prelude::*;

verus! {

/// The number of values that `n` bytes can take.
pub open spec fn pow256(n: nat) -> nat
    decreases n,
{
    if n == 0 {
        1
    } else {
        256 * pow256((n - 1) as nat)
    }
}

/// The `n` low bytes of `x`, most significant first.
pub open spec fn be_bytes(x: nat, n: nat) -> Seq<u8>
    decreases n,
{
    if n == 0 {
        Seq::empty()
    } else {
        be_bytes(x / 256, (n - 1) as nat).push((x % 256) as u8)
    }
}

/// The number that `s` writes, most significant byte first.
pub open spec fn be_value(s: Seq<u8>) -> nat
    decreases s.len(),
{
    if s.len() == 0 {
        0
    } else {
        be_value(s.drop_last()) * 256 + s.last() as nat
    }
}

/// The `n` low bytes of `x`, least significant first.
pub open spec fn le_bytes(x: nat, n: nat) -> Seq<u8>
    decreases n,
{
    if n == 0 {
        Seq::empty()
    } else {
        seq![(x % 256) as u8] + le_bytes(x / 256, (n - 1) as nat)
    }
}

/// The number that `s` writes, least significant byte first.
pub open spec fn le_value(s: Seq<u8>) -> nat
    decreases s.len(),
{
    if s.len() == 0 {
        0
    } else {
        s[0] as nat + 256 * le_value(s.drop_first())
    }
}

/// Whether byte string `a` comes before `b` in dictionary order.
pub open spec fn lex_before(a: Seq<u8>, b: Seq<u8>) -> bool
    decreases a.len(),
{
    if b.len() == 0 {
        false
    } else if a.len() == 0 {
        true
    } else {
        a[0] < b[0] || (a[0] == b[0] && lex_before(a.drop_first(), b.drop_first()))
    }
}

pub proof fn lemma_be_bytes_len(x: nat, n: nat)
    ensures
        be_bytes(x, n).len() == n,
    decreases n,
{
    if n > 0 {
        lemma_be_bytes_len(x / 256, (n - 1) as nat);
    }
}

pub proof fn lemma_le_bytes_len(x: nat, n: nat)
    ensures
        le_bytes(x, n).len() == n,
    decreases n,
{
    if n > 0 {
        lemma_le_bytes_len(x / 256, (n - 1) as nat);
    }
}

/// Writing a number that fits in `n` bytes and reading it gives the number.
pub proof fn lemma_be_round_trip(x: nat, n: nat)
    requires
        x < pow256(n),
    ensures
        be_value(be_bytes(x, n)) == x,
    decreases n,
{
    if n > 0 {
        lemma_be_round_trip(x / 256, (n - 1) as nat);
        assert(be_bytes(x, n).drop_last() =~= be_bytes(x / 256, (n - 1) as nat));
    }
}

/// Writing a number that fits in `n` bytes and reading it gives the number.
pub proof fn lemma_le_round_trip(x: nat, n: nat)
    requires
        x < pow256(n),
    ensures
        le_value(le_bytes(x, n)) == x,
    decreases n,
{
    if n > 0 {
        lemma_le_round_trip(x / 256, (n - 1) as nat);
        assert(le_bytes(x, n).drop_first() =~= le_bytes(x / 256, (n - 1) as nat));
    }
}

/// Reading bytes and writing the number again gives the bytes.
pub proof fn lemma_be_inverse(s: Seq<u8>)
    ensures
        be_bytes(be_value(s), s.len()) =~= s,
    decreases s.len(),
{
    if s.len() > 0 {
        lemma_be_inverse(s.drop_last());
        assert(be_value(s) / 256 == be_value(s.drop_last()));
        assert(be_value(s) % 256 == s.last());
    }
}

/// Reading bytes and writing the number again gives the bytes.
pub proof fn lemma_le_inverse(s: Seq<u8>)
    ensures
        le_bytes(le_value(s), s.len()) =~= s,
    decreases s.len(),
{
    if s.len() > 0 {
        lemma_le_inverse(s.drop_first());
        assert(le_value(s) / 256 == le_value(s.drop_first()));
        assert(le_value(s) % 256 == s[0]);
    }
}

pub proof fn lemma_be_value_bound(s: Seq<u8>)
    ensures
        be_value(s) < pow256(s.len()),
    decreases s.len(),
{
    if s.len() > 0 {
        lemma_be_value_bound(s.drop_last());
    }
}

pub proof fn lemma_le_value_bound(s: Seq<u8>)
    ensures
        le_value(s) < pow256(s.len()),
    decreases s.len(),
{
    if s.len() > 0 {
        lemma_le_value_bound(s.drop_first());
    }
}

pub proof fn lemma_pow256()
    ensures
        pow256(2) == 0x1_0000,
        pow256(4) == 0x1_0000_0000,
        pow256(8) == 0x1_0000_0000_0000_0000,
{
    reveal_with_fuel(pow256, 9);
}

/// Reading a concatenation, most significant byte first.
pub proof fn lemma_be_value_append(a: Seq<u8>, b: Seq<u8>)
    ensures
        be_value(a + b) == be_value(a) * pow256(b.len()) + be_value(b),
    decreases b.len(),
{
    let x = be_value(a);
    if b.len() == 0 {
        assert(a + b =~= a);
        assert(x * 1 == x);
    } else {
        lemma_be_value_append(a, b.drop_last());
        assert((a + b).drop_last() =~= a + b.drop_last());
        assert((a + b).last() == b.last());
        let w = pow256((b.len() - 1) as nat);
        let v = be_value(b.drop_last());
        assert((x * w + v) * 256 == x * (256 * w) + v * 256) by (nonlinear_arith);
    }
}

/// The leading byte weighs `256^(n-1)`.
proof fn lemma_be_value_head(s: Seq<u8>)
    requires
        s.len() > 0,
    ensures
        be_value(s) == s[0] as nat * pow256((s.len() - 1) as nat) + be_value(s.drop_first()),
{
    let lead = seq![s[0]];
    assert(s =~= lead + s.drop_first());
    lemma_be_value_append(lead, s.drop_first());
    assert(lead.drop_last() =~= Seq::<u8>::empty());
    assert(be_value(lead.drop_last()) == 0);
}

/// Dictionary order on equally long byte strings is the order of the numbers
/// that they write, most significant byte first.
pub proof fn lemma_lex_is_be_order(a: Seq<u8>, b: Seq<u8>)
    requires
        a.len() == b.len(),
    ensures
        lex_before(a, b) <==> be_value(a) < be_value(b),
    decreases a.len(),
{
    if a.len() > 0 {
        lemma_be_value_head(a);
        lemma_be_value_head(b);
        lemma_be_value_bound(a.drop_first());
        lemma_be_value_bound(b.drop_first());
        lemma_lex_is_be_order(a.drop_first(), b.drop_first());
        let weight = pow256((a.len() - 1) as nat) as int;
        let (x, y) = (a[0] as int, b[0] as int);
        let (u, v) = (be_value(a.drop_first()) as int, be_value(b.drop_first()) as int);
        assert(x < y ==> x * weight + u < y * weight + v) by (nonlinear_arith)
            requires
                0 <= u < weight,
                0 <= v < weight,
        ;
        assert(y < x ==> y * weight + v < x * weight + u) by (nonlinear_arith)
            requires
                0 <= u < weight,
                0 <= v < weight,
        ;
    }
}

/// Eight bytes of `x`, most significant first.
pub fn u64_be(x: u64) -> (out: Vec<u8>)
    ensures
        out@ == be_bytes(x as nat, 8),
{
    let mut out: Vec<u8> = vec![0u8; 8];
    let mut rest: u64 = x;
    let mut at: usize = 8;
    while at > 0
        invariant
            at <= 8,
            out@.len() == 8,
            be_bytes(x as nat, 8) =~= be_bytes(rest as nat, at as nat) + out@.subrange(at as int, 8),
        decreases at,
    {
        let ghost before = out@;
        at = at - 1;
        out.set(at, (rest % 256) as u8);
        assert(be_bytes(rest as nat, (at + 1) as nat) =~= be_bytes(rest as nat / 256, at as nat).push(
            (rest % 256) as u8,
        ));
        assert(out@.subrange(at as int, 8) =~= seq![(rest % 256) as u8] + before.subrange(at + 1, 8));
        rest = rest / 256;
    }
    assert(be_bytes(rest as nat, 0) =~= Seq::<u8>::empty());
    assert(out@.subrange(0, 8) =~= out@);
    out
}

/// Two bytes of `x`, most significant first.
pub fn u16_be(x: u16) -> (out: Vec<u8>)
    ensures
        out@ == be_bytes(x as nat, 2),
{
    let mut out: Vec<u8> = Vec::new();
    out.push((x / 256) as u8);
    out.push((x % 256) as u8);
    proof {
        reveal_with_fuel(be_bytes, 3);
        assert(out@ =~= be_bytes(x as nat, 2));
    }
    out
}

/// Four bytes of `x`, least significant first.
pub fn u32_le(x: u32) -> (out: Vec<u8>)
    ensures
        out@ == le_bytes(x as nat, 4),
{
    let mut out: Vec<u8> = Vec::new();
    let mut rest: u32 = x;
    let mut done: usize = 0;
    assert(out@ + le_bytes(x as nat, 4) =~= le_bytes(x as nat, 4));
    while done < 4
        invariant
            done <= 4,
            le_bytes(x as nat, 4) =~= out@ + le_bytes(rest as nat, (4 - done) as nat),
        decreases 4 - done,
    {
        let ghost before = out@;
        out.push((rest % 256) as u8);
        assert(le_bytes(rest as nat, (4 - done) as nat) =~= seq![(rest % 256) as u8] + le_bytes(
            rest as nat / 256,
            (4 - done - 1) as nat,
        ));
        rest = rest / 256;
        done = done + 1;
    }
    assert(le_bytes(rest as nat, 0) =~= Seq::<u8>::empty());
    out
}

/// The number that the four bytes of `buf` from `at` on write, least
/// significant first.
pub fn u32_from_le(buf: &[u8], at: usize) -> (x: u32)
    requires
        at + 4 <= buf@.len(),
    ensures
        x as nat == le_value(buf@.subrange(at as int, at + 4)),
{
    let (b0, b1, b2, b3): (u32, u32, u32, u32) = (
        buf[at] as u32,
        buf[at + 1] as u32,
        buf[at + 2] as u32,
        buf[at + 3] as u32,
    );
    proof {
        let s = buf@.subrange(at as int, at + 4);
        reveal_with_fuel(le_value, 5);
        assert(s.drop_first().drop_first().drop_first().drop_first() =~= Seq::<u8>::empty());
    }
    b0 + 256 * b1 + 65536 * b2 + 16777216 * b3
}

/// The number that the eight bytes of `buf` from `at` on write, most
/// significant first.
pub fn u64_from_be(buf: &[u8], at: usize) -> (x: u64)
    requires
        at + 8 <= buf@.len(),
    ensures
        x as nat == be_value(buf@.subrange(at as int, at + 8)),
{
    let mut x: u64 = 0;
    let mut done: usize = 0;
    assert(buf@.subrange(at as int, at as int) =~= Seq::<u8>::empty());
    while done < 8
        invariant
            done <= 8,
            at + 8 <= buf.len(),
            x as nat == be_value(buf@.subrange(at as int, at + done)),
        decreases 8 - done,
    {
        proof {
            let next = buf@.subrange(at as int, at + done + 1);
            assert(next.drop_last() =~= buf@.subrange(at as int, at + done));
            lemma_be_value_bound(next);
            reveal_with_fuel(pow256, 9);
            assert(pow256((done + 1) as nat) <= 0x1_0000_0000_0000_0000);
        }
        x = x * 256 + buf[at + done] as u64;
        done = done + 1;
    }
    x
}

} // verus!
