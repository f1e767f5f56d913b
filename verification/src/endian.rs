//! Byte order and the fixed-width integer encodings shared by the codecs.

use vstd::prelude::*;

verus! {

/// Byte order of a multi-byte field.
#[derive(Clone, Copy, Debug, PartialEq, Eq, Structural)]
pub enum Endian {
    Big,
    Little,
}

/// The `n` low-order bytes of `x`, least significant byte first.
pub open spec fn le_bytes(x: nat, n: nat) -> Seq<u8>
    decreases n,
{
    if n == 0 {
        Seq::empty()
    } else {
        seq![(x % 256) as u8] + le_bytes(x / 256, (n - 1) as nat)
    }
}

/// The `n` low-order bytes of `x`, most significant byte first.
pub open spec fn be_bytes(x: nat, n: nat) -> Seq<u8>
    decreases n,
{
    if n == 0 {
        Seq::empty()
    } else {
        be_bytes(x / 256, (n - 1) as nat) + seq![(x % 256) as u8]
    }
}

/// The `n` low-order bytes of `x` in the given byte order.
pub open spec fn int_bytes(x: nat, n: nat, endian: Endian) -> Seq<u8> {
    match endian {
        Endian::Big => be_bytes(x, n),
        Endian::Little => le_bytes(x, n),
    }
}

/// The number that `b` holds, least significant byte first.
pub open spec fn le_value(b: Seq<u8>) -> nat
    decreases b.len(),
{
    if b.len() == 0 {
        0
    } else {
        b[0] as nat + 256 * le_value(b.drop_first())
    }
}

/// The number that `b` holds, most significant byte first.
pub open spec fn be_value(b: Seq<u8>) -> nat
    decreases b.len(),
{
    if b.len() == 0 {
        0
    } else {
        256 * be_value(b.drop_last()) + b.last() as nat
    }
}

/// The number that `b` holds in the given byte order.
pub open spec fn int_value(b: Seq<u8>, endian: Endian) -> nat {
    match endian {
        Endian::Big => be_value(b),
        Endian::Little => le_value(b),
    }
}

/// `n` zero bytes.
pub open spec fn zeros(n: nat) -> Seq<u8> {
    Seq::new(n, |i: int| 0u8)
}

/// `256^n`.
pub open spec fn pow256(n: nat) -> nat
    decreases n,
{
    if n == 0 {
        1
    } else {
        256 * pow256((n - 1) as nat)
    }
}

/// The first powers of 256.
pub proof fn lemma_pow256_values()
    ensures
        pow256(0) == 1,
        pow256(1) == 0x100,
        pow256(2) == 0x1_0000,
        pow256(3) == 0x100_0000,
        pow256(4) == 0x1_0000_0000,
{
    reveal_with_fuel(pow256, 5);
}

/// A number in `n` bytes takes `n` bytes.
pub proof fn lemma_int_bytes_len(x: nat, n: nat, endian: Endian)
    ensures
        int_bytes(x, n, endian).len() == n,
    decreases n,
{
    if n > 0 {
        lemma_int_bytes_len(x / 256, (n - 1) as nat, Endian::Big);
        lemma_int_bytes_len(x / 256, (n - 1) as nat, Endian::Little);
    }
}

/// A value below `256^n` is recovered from its `n` bytes.
pub proof fn lemma_int_value_of_bytes(x: nat, n: nat, endian: Endian)
    requires
        x < pow256(n),
    ensures
        int_value(int_bytes(x, n, endian), endian) == x,
    decreases n,
{
    if n > 0 {
        let rest: nat = (n - 1) as nat;
        assert(x / 256 < pow256(rest)) by (nonlinear_arith)
            requires
                x < 256 * pow256(rest),
        ;
        lemma_int_value_of_bytes(x / 256, rest, endian);
        lemma_int_bytes_len(x / 256, rest, endian);
        match endian {
            Endian::Big => {
                let b = be_bytes(x, n);
                assert(b.drop_last() =~= be_bytes(x / 256, rest));
                assert(b.last() == (x % 256) as u8);
            },
            Endian::Little => {
                let b = le_bytes(x, n);
                assert(b.drop_first() =~= le_bytes(x / 256, rest));
                assert(b[0] == (x % 256) as u8);
            },
        }
    }
}

/// The bytes of a number are recovered from the number.
pub proof fn lemma_int_bytes_of_value(b: Seq<u8>, endian: Endian)
    ensures
        int_value(b, endian) < pow256(b.len()),
        int_bytes(int_value(b, endian), b.len(), endian) == b,
    decreases b.len(),
{
    if b.len() > 0 {
        match endian {
            Endian::Big => {
                let head = b.drop_last();
                lemma_int_bytes_of_value(head, endian);
                let v = be_value(b);
                assert(v / 256 == be_value(head));
                assert(v % 256 == b.last() as nat);
                assert(be_bytes(v, b.len()) =~= b);
            },
            Endian::Little => {
                let tail = b.drop_first();
                lemma_int_bytes_of_value(tail, endian);
                let v = le_value(b);
                assert(v / 256 == le_value(tail));
                assert(v % 256 == b[0] as nat);
                assert(le_bytes(v, b.len()) =~= b);
            },
        }
    } else {
        assert(int_bytes(0, 0, endian) =~= b);
    }
}

/// The number in the `n` low-order bytes of `x` is `x` modulo `256^n`.
pub proof fn lemma_int_value_low_bytes(x: nat, n: nat, endian: Endian)
    ensures
        int_value(int_bytes(x, n, endian), endian) == x % pow256(n),
    decreases n,
{
    if n > 0 {
        let rest: nat = (n - 1) as nat;
        lemma_int_value_low_bytes(x / 256, rest, endian);
        lemma_int_bytes_len(x / 256, rest, endian);
        lemma_pow256_positive(rest);
        let p = pow256(rest);
        assert(x % 256 + 256 * ((x / 256) % p) == x % (256 * p)) by (nonlinear_arith)
            requires
                p > 0,
        {
            let q = x / 256;
            let r = x % 256;
            assert(x == 256 * q + r);
            assert(q == p * (q / p) + q % p);
            assert(x == (256 * p) * (q / p) + (256 * (q % p) + r));
            assert(0 <= 256 * (q % p) + r < 256 * p);
            vstd::arithmetic::div_mod::lemma_fundamental_div_mod_converse(
                x as int,
                (256 * p) as int,
                (q / p) as int,
                (256 * (q % p) + r) as int,
            );
        }
        match endian {
            Endian::Big => {
                let b = be_bytes(x, n);
                assert(b.drop_last() =~= be_bytes(x / 256, rest));
                assert(b.last() == (x % 256) as u8);
            },
            Endian::Little => {
                let b = le_bytes(x, n);
                assert(b.drop_first() =~= le_bytes(x / 256, rest));
                assert(b[0] == (x % 256) as u8);
            },
        }
    } else {
        assert(int_bytes(x, 0, endian) =~= Seq::<u8>::empty());
    }
}

/// Every power of 256 is positive.
pub proof fn lemma_pow256_positive(n: nat)
    ensures
        pow256(n) > 0,
    decreases n,
{
    if n > 0 {
        lemma_pow256_positive((n - 1) as nat);
    }
}

/// The `n` bytes of `bytes` that start at `pos`, read as a number.
pub open spec fn uint_at(bytes: Seq<u8>, pos: int, n: nat, endian: Endian) -> nat {
    int_value(bytes.subrange(pos, pos + n), endian)
}

/// The bytes of `bytes` from `pos` on start with `piece`.
pub open spec fn starts_at(bytes: Seq<u8>, pos: nat, piece: Seq<u8>) -> bool {
    pos + piece.len() <= bytes.len() && bytes.subrange(pos as int, (pos + piece.len()) as int)
        == piece
}

/// Where the input starts with two pieces in a row, it starts with the
/// first, and behind it with the second.
pub proof fn lemma_starts_at_split(bytes: Seq<u8>, pos: nat, first: Seq<u8>, second: Seq<u8>)
    requires
        starts_at(bytes, pos, first + second),
    ensures
        starts_at(bytes, pos, first),
        starts_at(bytes, pos + first.len(), second),
{
    let whole = bytes.subrange(pos as int, (pos + (first + second).len()) as int);
    assert(bytes.subrange(pos as int, (pos + first.len()) as int) =~= whole.subrange(
        0,
        first.len() as int,
    ));
    assert(whole.subrange(0, first.len() as int) =~= first);
    assert(bytes.subrange((pos + first.len()) as int, (pos + first.len() + second.len()) as int)
        =~= whole.subrange(first.len() as int, whole.len() as int));
    assert(whole.subrange(first.len() as int, whole.len() as int) =~= second);
}

/// What starts at a place inside a piece of the input starts at that place
/// of the input.
pub proof fn lemma_starts_at_within(
    bytes: Seq<u8>,
    pos: nat,
    piece: Seq<u8>,
    at: nat,
    part: Seq<u8>,
)
    requires
        starts_at(bytes, pos, piece),
        starts_at(piece, at, part),
    ensures
        starts_at(bytes, pos + at, part),
{
    let whole = bytes.subrange(pos as int, (pos + piece.len()) as int);
    assert(bytes.subrange((pos + at) as int, (pos + at + part.len()) as int) =~= whole.subrange(
        at as int,
        (at + part.len()) as int,
    ));
}

/// What starts at a place of the first of two pieces starts there in both
/// pieces in a row.
pub proof fn lemma_starts_at_prefix(first: Seq<u8>, second: Seq<u8>, at: nat, part: Seq<u8>)
    requires
        starts_at(first, at, part),
    ensures
        starts_at(first + second, at, part),
{
    assert((first + second).subrange(at as int, (at + part.len()) as int) =~= first.subrange(
        at as int,
        (at + part.len()) as int,
    ));
}

/// The second of two pieces in a row starts behind the first.
pub proof fn lemma_starts_at_suffix(first: Seq<u8>, second: Seq<u8>)
    ensures
        starts_at(first + second, first.len(), second),
        starts_at(first + second, 0, first),
{
    assert((first + second).subrange(
        first.len() as int,
        (first.len() + second.len()) as int,
    ) =~= second);
    assert((first + second).subrange(0, first.len() as int) =~= first);
}

/// Appends the `n` low-order bytes of `x` in the given byte order.
pub fn push_uint(out: &mut Vec<u8>, x: u32, n: usize, endian: Endian)
    requires
        n <= 4,
    ensures
        final(out)@ == old(out)@ + int_bytes(x as nat, n as nat, endian),
{
    let b0: u8 = (x % 256) as u8;
    let b1: u8 = ((x / 0x100) % 256) as u8;
    let b2: u8 = ((x / 0x1_0000) % 256) as u8;
    let b3: u8 = ((x / 0x100_0000) % 256) as u8;
    proof {
        reveal_with_fuel(le_bytes, 5);
        reveal_with_fuel(be_bytes, 5);
        let v: nat = x as nat;
        assert(v / 256 / 256 == v / 0x1_0000);
        assert(v / 256 / 256 / 256 == v / 0x100_0000);
    }
    match endian {
        Endian::Little => {
            if n >= 1 {
                out.push(b0);
            }
            if n >= 2 {
                out.push(b1);
            }
            if n >= 3 {
                out.push(b2);
            }
            if n >= 4 {
                out.push(b3);
            }
            assert(out@ =~= old(out)@ + le_bytes(x as nat, n as nat));
        },
        Endian::Big => {
            if n >= 4 {
                out.push(b3);
            }
            if n >= 3 {
                out.push(b2);
            }
            if n >= 2 {
                out.push(b1);
            }
            if n >= 1 {
                out.push(b0);
            }
            assert(out@ =~= old(out)@ + be_bytes(x as nat, n as nat));
        },
    }
}

/// Reads the `n` bytes at `pos` as a number in the given byte order.
pub fn read_uint(bytes: &[u8], pos: usize, n: usize, endian: Endian) -> (x: u32)
    requires
        n <= 4,
        pos + n <= bytes.len(),
    ensures
        x == uint_at(bytes@, pos as int, n as nat, endian),
{
    let mut acc: u32 = 0;
    let mut i: usize = 0;
    proof {
        lemma_pow256_values();
    }
    match endian {
        Endian::Big => {
            while i < n
                invariant
                    i <= n <= 4,
                    pos + n <= bytes.len(),
                    acc == be_value(bytes@.subrange(pos as int, pos + i)),
                    acc < pow256(i as nat),
                decreases n - i,
            {
                proof {
                    lemma_pow256_values();
                    reveal_with_fuel(pow256, 5);
                    let s = bytes@.subrange(pos as int, pos + i + 1);
                    assert(s.drop_last() =~= bytes@.subrange(pos as int, pos + i));
                    assert(s.last() == bytes@[pos + i]);
                }
                acc = acc * 256 + bytes[pos + i] as u32;
                i = i + 1;
            }
        },
        Endian::Little => {
            while i < n
                invariant
                    i <= n <= 4,
                    pos + n <= bytes.len(),
                    acc == le_value(bytes@.subrange(pos + n - i, pos + n)),
                    acc < pow256(i as nat),
                decreases n - i,
            {
                proof {
                    lemma_pow256_values();
                    reveal_with_fuel(pow256, 5);
                    let s = bytes@.subrange(pos + n - i - 1, pos + n);
                    assert(s.drop_first() =~= bytes@.subrange(pos + n - i, pos + n));
                    assert(s[0] == bytes@[pos + n - i - 1]);
                }
                acc = acc * 256 + bytes[pos + n - i - 1] as u32;
                i = i + 1;
            }
        },
    }
    acc
}

} // verus!
