//! Flags packed into bytes, eight to a byte, the first in the lowest bit.

use vstd::prelude::*;

verus! {

/// Whether bit `i` of `b` is set.
pub open spec fn bit(b: u8, i: int) -> bool {
    b & (1u8 << (i as u8)) != 0
}

/// What flag `i` adds to its byte.
pub open spec fn flag(bits: Seq<bool>, i: int, weight: u8) -> u8 {
    if 0 <= i < bits.len() && bits[i] {
        weight
    } else {
        0
    }
}

/// The byte that holds flags `at` to `at + 7`.
pub open spec fn packed_byte(bits: Seq<bool>, at: int) -> u8 {
    flag(bits, at, 1) | flag(bits, at + 1, 2) | flag(bits, at + 2, 4) | flag(bits, at + 3, 8)
        | flag(bits, at + 4, 16) | flag(bits, at + 5, 32) | flag(bits, at + 6, 64) | flag(
        bits,
        at + 7,
        128,
    )
}

/// How many bytes hold `n` flags.
pub open spec fn packed_len(n: int) -> int {
    (n + 7) / 8
}

/// The bytes that hold the flags.
pub open spec fn packed(bits: Seq<bool>) -> Seq<u8> {
    Seq::new(packed_len(bits.len() as int) as nat, |j: int| packed_byte(bits, 8 * j))
}

/// The first `n` flags in `bytes`. Flags behind the last byte are not set.
pub open spec fn unpacked(bytes: Seq<u8>, n: nat) -> Seq<bool> {
    Seq::new(n, |i: int| i / 8 < bytes.len() && bit(bytes[i / 8], i % 8))
}

/// Unpacking gives back what was packed, whatever follows the packed bytes.
pub proof fn law_unpack_pack(bits: Seq<bool>, more: Seq<u8>)
    ensures
        unpacked(packed(bits) + more, bits.len()) == bits,
{
    let all = packed(bits) + more;
    assert forall|i: int| 0 <= i < bits.len() implies #[trigger] unpacked(
        all,
        bits.len(),
    )[i] == bits[i] by {
        let at = 8 * (i / 8);
        let m = (i % 8) as u8;
        assert(at + m == i);
        assert(all[i / 8] == packed_byte(bits, at));
        lemma_packed_bit(bits, at, m);
    }
    assert(unpacked(all, bits.len()) =~= bits);
}

proof fn lemma_packed_bit(bits: Seq<bool>, at: int, m: u8)
    requires
        0 <= at,
        m < 8,
    ensures
        bit(packed_byte(bits, at), m as int) <==> at + m < bits.len() && bits[at + m],
{
    let a = flag(bits, at, 1);
    let b = flag(bits, at + 1, 2);
    let c = flag(bits, at + 2, 4);
    let d = flag(bits, at + 3, 8);
    let e = flag(bits, at + 4, 16);
    let f = flag(bits, at + 5, 32);
    let g = flag(bits, at + 6, 64);
    let h = flag(bits, at + 7, 128);
    let all = a | b | c | d | e | f | g | h;
    assert((all & (1u8 << m) != 0) <==> (m == 0 && a != 0 || m == 1 && b != 0 || m == 2 && c != 0
        || m == 3 && d != 0 || m == 4 && e != 0 || m == 5 && f != 0 || m == 6 && g != 0 || m == 7
        && h != 0)) by (bit_vector)
        requires
            m < 8,
            all == a | b | c | d | e | f | g | h,
            a == 0 || a == 1,
            b == 0 || b == 2,
            c == 0 || c == 4,
            d == 0 || d == 8,
            e == 0 || e == 16,
            f == 0 || f == 32,
            g == 0 || g == 64,
            h == 0 || h == 128,
    ;
}

/// One more flag changes its own byte only.
proof fn lemma_packed_step(bits: Seq<bool>, i: int, j: int, m: u8)
    requires
        0 <= i < bits.len(),
        m == i % 8,
        0 <= j,
    ensures
        packed_byte(bits.take(i + 1), 8 * j) == if bits[i] && j == i / 8 {
            packed_byte(bits.take(i), 8 * j) | (1u8 << m)
        } else {
            packed_byte(bits.take(i), 8 * j)
        },
{
    let at = 8 * j;
    let x = bits.take(i);
    let y = bits.take(i + 1);
    let a = flag(x, at, 1);
    let b = flag(x, at + 1, 2);
    let c = flag(x, at + 2, 4);
    let d = flag(x, at + 3, 8);
    let e = flag(x, at + 4, 16);
    let f = flag(x, at + 5, 32);
    let g = flag(x, at + 6, 64);
    let h = flag(x, at + 7, 128);
    if j == i / 8 && bits[i] {
        assert(at + m == i);
        assert((a | b | c | d | e | f | g | h) | (1u8 << m) == (if m == 0 {
            1
        } else {
            a
        }) | (if m == 1 {
            2
        } else {
            b
        }) | (if m == 2 {
            4
        } else {
            c
        }) | (if m == 3 {
            8
        } else {
            d
        }) | (if m == 4 {
            16
        } else {
            e
        }) | (if m == 5 {
            32
        } else {
            f
        }) | (if m == 6 {
            64
        } else {
            g
        }) | (if m == 7 {
            128
        } else {
            h
        })) by (bit_vector)
            requires
                m < 8,
                a == 0 || a == 1,
                b == 0 || b == 2,
                c == 0 || c == 4,
                d == 0 || d == 8,
                e == 0 || e == 16,
                f == 0 || f == 32,
                g == 0 || g == 64,
                h == 0 || h == 128,
        ;
    } else {
        assert(forall|p: int, w: u8| at <= p < at + 8 ==> #[trigger] flag(y, p, w) == flag(x, p, w));
    }
}

/// Packs the flags.
pub fn pack_bits(bits: &[bool]) -> (out: Vec<u8>)
    ensures
        out@ == packed(bits@),
{
    let n: usize = bits.len();
    let whole: usize = n / 8;
    let count: usize = if n % 8 == 0 {
        whole
    } else {
        whole + 1
    };
    let mut out: Vec<u8> = vec![0u8;count];
    let mut i: usize = 0;
    assert forall|j: int| 0 <= j < count implies #[trigger] out@[j] == packed_byte(
        bits@.take(0),
        8 * j,
    ) by {
        assert(0u8 | 0u8 | 0u8 | 0u8 | 0u8 | 0u8 | 0u8 | 0u8 == 0u8) by (bit_vector);
    }
    while i < n
        invariant
            n == bits@.len(),
            i <= n,
            out@.len() == packed_len(n as int),
            forall|j: int|
                0 <= j < out@.len() ==> #[trigger] out@[j] == packed_byte(bits@.take(i as int), 8 * j),
        decreases n - i,
    {
        let ghost before = out@;
        let m: u8 = (i % 8) as u8;
        if bits[i] {
            let b: u8 = out[i / 8];
            out[i / 8] = b | (1u8 << m);
        }
        assert forall|j: int| 0 <= j < out@.len() implies #[trigger] out@[j] == packed_byte(
            bits@.take(i + 1),
            8 * j,
        ) by {
            lemma_packed_step(bits@, i as int, j, m);
            assert(before[j] == packed_byte(bits@.take(i as int), 8 * j));
        }
        i += 1;
    }
    assert(bits@.take(n as int) =~= bits@);
    assert(out@ =~= packed(bits@));
    out
}

/// Unpacks the first `n` flags.
pub fn unpack_bits(bytes: &[u8], n: usize) -> (out: Vec<bool>)
    ensures
        out@ == unpacked(bytes@, n as nat),
{
    let mut out: Vec<bool> = Vec::new();
    let mut i: usize = 0;
    while i < n
        invariant
            i <= n,
            out@ == unpacked(bytes@, n as nat).take(i as int),
        decreases n - i,
    {
        let m: u8 = (i % 8) as u8;
        let set: bool = i / 8 < bytes.len() && bytes[i / 8] & (1u8 << m) != 0;
        out.push(set);
        i += 1;
        assert(out@ =~= unpacked(bytes@, n as nat).take(i as int));
    }
    assert(unpacked(bytes@, n as nat).take(n as int) =~= unpacked(bytes@, n as nat));
    out
}

/// Flag `i` is bit `i % 8` of byte `i / 8`, counted from the least significant bit; as many bytes
/// are taken as are needed, and bits behind the last flag are zero.
pub proof fn law_packed_bits(bits: Seq<bool>, i: int)
    requires
        0 <= i,
        i / 8 < packed(bits).len(),
    ensures
        8 * packed(bits).len() >= bits.len(),
        8 * packed(bits).len() < bits.len() + 8,
        (packed(bits)[i / 8] & (1u8 << ((i % 8) as u8)) != 0) <==> i < bits.len() && bits[i],
{
    let at = 8 * (i / 8);
    let m = (i % 8) as u8;
    assert(at + m == i);
    lemma_packed_bit(bits, at, m);
}

/// Flags take as many bytes as are needed.
pub proof fn law_packed_len(n: int)
    requires
        0 <= n,
    ensures
        n <= 8 * packed_len(n) < n + 8,
{
}

/// The flags that bytes hold are their bits, from the least significant one of the first byte on.
pub proof fn law_unpacked_bits(bytes: Seq<u8>, n: nat, i: int)
    requires
        0 <= i < n,
    ensures
        unpacked(bytes, n).len() == n,
        unpacked(bytes, n)[i] <==> i / 8 < bytes.len() && bytes[i / 8] & (1u8 << ((i % 8) as u8))
            != 0,
{
}

} // verus!
