//! Fixed-width byte layouts of integers.

use vstd::prelude::*;

verus! {

/// The `width` low bytes of `n`, least significant first.
pub open spec fn le_bytes(n: nat, width: nat) -> Seq<u8>
    decreases width,
{
    if width == 0 {
        Seq::empty()
    } else {
        seq![(n % 256) as u8] + le_bytes(n / 256, (width - 1) as nat)
    }
}

/// The `width` low bytes of `n`, most significant first.
pub open spec fn be_bytes(n: nat, width: nat) -> Seq<u8>
    decreases width,
{
    if width == 0 {
        Seq::empty()
    } else {
        be_bytes(n / 256, (width - 1) as nat).push((n % 256) as u8)
    }
}

/// The number of values that `width` bytes can hold.
pub open spec fn byte_range(width: nat) -> nat
    decreases width,
{
    if width == 0 {
        1
    } else {
        256 * byte_range((width - 1) as nat)
    }
}

pub proof fn layout_lengths(n: nat, width: nat)
    ensures
        le_bytes(n, width).len() == width,
        be_bytes(n, width).len() == width,
    decreases width,
{
    if width > 0 {
        layout_lengths(n / 256, (width - 1) as nat);
    }
}

/// Four and eight bytes hold every `u32` and `u64`.
pub proof fn byte_ranges()
    ensures
        byte_range(2) == 0x1_0000,
        byte_range(4) == 0x1_0000_0000,
        byte_range(8) == 0x1_0000_0000_0000_0000,
{
    reveal_with_fuel(byte_range, 9);
}

/// Numbers that fit are told apart by their little-endian bytes.
pub proof fn le_bytes_injective(a: nat, b: nat, width: nat)
    requires
        le_bytes(a, width) == le_bytes(b, width),
        a < byte_range(width),
        b < byte_range(width),
    ensures
        a == b,
    decreases width,
{
    if width > 0 {
        let w = (width - 1) as nat;
        let x = le_bytes(a, width);
        let y = le_bytes(b, width);
        assert(x[0] == (a % 256) as u8 && y[0] == (b % 256) as u8);
        assert(x.drop_first() =~= le_bytes(a / 256, w));
        assert(y.drop_first() =~= le_bytes(b / 256, w));
        assert(a / 256 < byte_range(w) && b / 256 < byte_range(w)) by (nonlinear_arith)
            requires
                a < 256 * byte_range(w),
                b < 256 * byte_range(w),
        ;
        le_bytes_injective(a / 256, b / 256, w);
    }
}

/// Numbers that fit are told apart by their big-endian bytes.
pub proof fn be_bytes_injective(a: nat, b: nat, width: nat)
    requires
        be_bytes(a, width) == be_bytes(b, width),
        a < byte_range(width),
        b < byte_range(width),
    ensures
        a == b,
    decreases width,
{
    if width > 0 {
        let w = (width - 1) as nat;
        let x = be_bytes(a, width);
        let y = be_bytes(b, width);
        layout_lengths(a / 256, w);
        layout_lengths(b / 256, w);
        assert(x.last() == (a % 256) as u8 && y.last() == (b % 256) as u8);
        assert(x.drop_last() =~= be_bytes(a / 256, w));
        assert(y.drop_last() =~= be_bytes(b / 256, w));
        assert(a / 256 < byte_range(w) && b / 256 < byte_range(w)) by (nonlinear_arith)
            requires
                a < 256 * byte_range(w),
                b < 256 * byte_range(w),
        ;
        be_bytes_injective(a / 256, b / 256, w);
    }
}

/// Two equal concatenations whose first parts have one length have equal parts.
pub proof fn equal_split(a: Seq<u8>, r: Seq<u8>, b: Seq<u8>, s: Seq<u8>)
    requires
        a.len() == b.len(),
        a + r == b + s,
    ensures
        a == b,
        r == s,
{
    assert(a =~= (a + r).take(a.len() as int));
    assert(b =~= (b + s).take(b.len() as int));
    assert(r =~= (a + r).skip(a.len() as int));
    assert(s =~= (b + s).skip(b.len() as int));
}

/// Appends the eight little-endian bytes of `n`.
pub fn put_u64_le(out: &mut Vec<u8>, n: u64)
    ensures
        final(out)@ == old(out)@ + le_bytes(n as nat, 8),
{
    let ghost start = out@;
    put_le(out, n, 8);
}

/// Appends the four little-endian bytes of `n`.
pub fn put_u32_le(out: &mut Vec<u8>, n: u32)
    ensures
        final(out)@ == old(out)@ + le_bytes(n as nat, 4),
{
    put_le(out, n as u64, 4);
}

fn put_le(out: &mut Vec<u8>, n: u64, width: usize)
    ensures
        final(out)@ == old(out)@ + le_bytes(n as nat, width as nat),
    decreases width,
{
    let ghost start = out@;
    if width > 0 {
        out.push((n % 256) as u8);
        put_le(out, n / 256, width - 1);
        assert(out@ =~= start + le_bytes(n as nat, width as nat));
    } else {
        assert(out@ =~= start + le_bytes(n as nat, 0));
    }
}

/// The unsigned number whose two low bytes are those of `n` in two's complement.
pub open spec fn twos_complement_16(n: i16) -> nat {
    if n < 0 {
        (n + 0x1_0000) as nat
    } else {
        n as nat
    }
}

/// Appends the two little-endian bytes of `n`.
pub fn put_i16_le(out: &mut Vec<u8>, n: i16)
    ensures
        final(out)@ == old(out)@ + le_bytes(twos_complement_16(n), 2),
{
    let wide: u64 = if n < 0 {
        (n as i32 + 0x1_0000) as u64
    } else {
        n as u64
    };
    put_le(out, wide, 2);
}

/// Appends the four big-endian bytes of `n`.
pub fn put_u32_be(out: &mut Vec<u8>, n: u32)
    ensures
        final(out)@ == old(out)@ + be_bytes(n as nat, 4),
{
    let ghost start = out@;
    let a: u8 = (n / 0x100_0000) as u8;
    let b: u8 = (n / 0x1_0000 % 0x100) as u8;
    let c: u8 = (n / 0x100 % 0x100) as u8;
    let d: u8 = (n % 0x100) as u8;
    out.push(a);
    out.push(b);
    out.push(c);
    out.push(d);
    proof {
        be_4(n);
        assert(out@ =~= start + be_bytes(n as nat, 4));
    }
}

/// The four big-endian bytes of `n`, one by one.
pub proof fn be_4(n: u32)
    ensures
        be_bytes(n as nat, 4) == seq![
            (n / 0x100_0000) as u8,
            (n / 0x1_0000 % 0x100) as u8,
            (n / 0x100 % 0x100) as u8,
            (n % 0x100) as u8,
        ],
{
    reveal_with_fuel(be_bytes, 5);
    let m = n as nat;
    assert(m / 256 / 256 == m / 0x1_0000);
    assert(m / 256 / 256 / 256 == m / 0x100_0000);
    assert(be_bytes(m, 4) =~= seq![
        (m / 0x100_0000 % 256) as u8,
        (m / 0x1_0000 % 256) as u8,
        (m / 0x100 % 256) as u8,
        (m % 256) as u8,
    ]);
}

/// The number whose four big-endian bytes are these.
pub open spec fn be_value_4(b: Seq<u8>) -> nat {
    (b[0] * 0x100_0000 + b[1] * 0x1_0000 + b[2] * 0x100 + b[3]) as nat
}

/// Reading four big-endian bytes gives back the number that was written.
pub proof fn be_4_reads_back(n: u32)
    ensures
        be_value_4(be_bytes(n as nat, 4)) == n,
{
    be_4(n);
}

/// The number that four bytes in this layout are worth, lowest byte first, is the one that was laid out.
pub proof fn what_four_bytes_are_worth(n: u32)
    ensures
        le_bytes(n as nat, 4).len() == 4,
        n == le_bytes(n as nat, 4)[0] + le_bytes(n as nat, 4)[1] * 0x100 + le_bytes(n as nat, 4)[2] * 0x1_0000 + le_bytes(n as nat, 4)[3]
            * 0x100_0000,
{
    reveal_with_fuel(le_bytes, 5);
    layout_lengths(n as nat, 4);
}

/// What bytes are worth, lowest byte first: each byte counts two hundred and fifty-six times what the one before it does.
pub open spec fn worth(b: Seq<u8>) -> nat
    decreases b.len(),
{
    if b.len() == 0 {
        0
    } else {
        b[0] as nat + 256 * worth(b.drop_first())
    }
}

/// The number that bytes in this layout are worth is the one that was laid out, where they are enough for it.
pub proof fn what_bytes_are_worth(n: nat, width: nat)
    requires
        n < byte_range(width),
    ensures
        worth(le_bytes(n, width)) == n,
        worth(be_bytes(n, width).reverse()) == n,
    decreases width,
{
    layout_lengths(n, width);
    if width > 0 {
        let w = (width - 1) as nat;
        assert(n / 256 < byte_range(w));
        what_bytes_are_worth(n / 256, w);
        layout_lengths(n / 256, w);
        assert(le_bytes(n, width).drop_first() =~= le_bytes(n / 256, w));
        assert(be_bytes(n, width).reverse().drop_first() =~= be_bytes(n / 256, w).reverse());
    }
}

/// A signed number is laid out as what it is worth modulo two to the sixteenth.
pub proof fn what_a_signed_number_is_laid_out_as(n: i16)
    ensures
        twos_complement_16(n) < 0x1_0000,
        (twos_complement_16(n) - n) % 0x1_0000 == 0,
{
}

} // verus!
