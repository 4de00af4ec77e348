//! The constants of the decibels, exponentials and angles are what they stand for.
use crate::decibels::{
    coeff_of, exp2_digits, exp2_of, lemma_exponent, lemma_two_roots, level_db_of, linear_of,
    log2_digits, log2_of, mantissa, two_root, LOG2_E, OCTAVES_PER_DB, POWER_FLOOR,
};
use crate::fixed::{cut, negated, prod, quot, sum, whole, PrcFmt, ONE};
use crate::trig::{angle_of, cos_of, series_sum, series_term, sin_of};
use vstd::arithmetic::power2::{
    lemma2_to64, lemma2_to64_rest, lemma_pow2_adds, lemma_pow2_unfold, pow2,
};
use vstd::prelude::*;

verus! {

/// One digit of an exponential.
proof fn lemma_exp2_next(y: int, rest: int, i: int, next: int, left: int)
    requires
        0 <= i < 48,
        rest >= 0x8000_0000_0000 ==> next == y * two_root((i + 1) as nat) / 0x4000_0000_0000_0000
            && left == (rest - 0x8000_0000_0000) * 2,
        rest < 0x8000_0000_0000 ==> next == y && left == rest * 2,
    ensures
        exp2_digits(y, rest, i) == exp2_digits(next, left, i + 1),
{
}

/// One digit of a logarithm.
proof fn lemma_log2_next(m: int, n: nat, next: int, digit: int)
    requires
        n > 0,
        ({
            let square = m * m / 0x4000_0000_0000_0000;
            ||| square >= 0x8000_0000_0000_0000 && next == square / 2 && digit == pow2(
                (n - 1) as nat,
            )
            ||| square < 0x8000_0000_0000_0000 && next == square && digit == 0
        }),
    ensures
        log2_digits(m, n) == digit + log2_digits(next, (n - 1) as nat),
{
}

/// The digits of the power of two that is ten.
proof fn lemma_tenfold()
    ensures
        exp2_digits(0x4000_0000_0000_0000, 0x5269e12f346e, 0) == 0x4ffffffffffff64c,
{
    lemma_two_roots();
    lemma_exp2_next(0x4000000000000000, 0x5269e12f346e, 0, 0x4000000000000000, 0xa4d3c25e68dc);
    lemma_exp2_next(0x4000000000000000, 0xa4d3c25e68dc, 1, 0x4c1bf828c6dc54b7, 0x49a784bcd1b8);
    lemma_exp2_next(0x4c1bf828c6dc54b7, 0x49a784bcd1b8, 2, 0x4c1bf828c6dc54b7, 0x934f0979a370);
    lemma_exp2_next(0x4c1bf828c6dc54b7, 0x934f0979a370, 3, 0x4f7a993048d088d5, 0x269e12f346e0);
    lemma_exp2_next(0x4f7a993048d088d5, 0x269e12f346e0, 4, 0x4f7a993048d088d5, 0x4d3c25e68dc0);
    lemma_exp2_next(0x4f7a993048d088d5, 0x4d3c25e68dc0, 5, 0x4f7a993048d088d5, 0x9a784bcd1b80);
    lemma_exp2_next(0x4f7a993048d088d5, 0x9a784bcd1b80, 6, 0x4fe91412b2006e7f, 0x34f0979a3700);
    lemma_exp2_next(0x4fe91412b2006e7f, 0x34f0979a3700, 7, 0x4fe91412b2006e7f, 0x69e12f346e00);
    lemma_exp2_next(0x4fe91412b2006e7f, 0x69e12f346e00, 8, 0x4fe91412b2006e7f, 0xd3c25e68dc00);
    lemma_exp2_next(0x4fe91412b2006e7f, 0xd3c25e68dc00, 9, 0x4ff6ee36f2db4704, 0xa784bcd1b800);
    lemma_exp2_next(0x4ff6ee36f2db4704, 0xa784bcd1b800, 10, 0x4ffddc2f908cbc19, 0x4f0979a37000);
    lemma_exp2_next(0x4ffddc2f908cbc19, 0x4f0979a37000, 11, 0x4ffddc2f908cbc19, 0x9e12f346e000);
    lemma_exp2_next(0x4ffddc2f908cbc19, 0x9e12f346e000, 12, 0x4fff97c5bc9bda1b, 0x3c25e68dc000);
    lemma_exp2_next(0x4fff97c5bc9bda1b, 0x3c25e68dc000, 13, 0x4fff97c5bc9bda1b, 0x784bcd1b8000);
    lemma_exp2_next(0x4fff97c5bc9bda1b, 0x784bcd1b8000, 14, 0x4fff97c5bc9bda1b, 0xf0979a370000);
    lemma_exp2_next(0x4fff97c5bc9bda1b, 0xf0979a370000, 15, 0x4fffcf392f125184, 0xe12f346e0000);
    lemma_exp2_next(0x4fffcf392f125184, 0xe12f346e0000, 16, 0x4fffeaf2f6b763d4, 0xc25e68dc0000);
    lemma_exp2_next(0x4fffeaf2f6b763d4, 0xc25e68dc0000, 17, 0x4ffff8cfde246417, 0x84bcd1b80000);
    lemma_exp2_next(0x4ffff8cfde246417, 0x84bcd1b80000, 18, 0x4fffffbe52c1822d, 0x979a3700000);
    lemma_exp2_next(0x4fffffbe52c1822d, 0x979a3700000, 19, 0x4fffffbe52c1822d, 0x12f346e00000);
    lemma_exp2_next(0x4fffffbe52c1822d, 0x12f346e00000, 20, 0x4fffffbe52c1822d, 0x25e68dc00000);
    lemma_exp2_next(0x4fffffbe52c1822d, 0x25e68dc00000, 21, 0x4fffffbe52c1822d, 0x4bcd1b800000);
    lemma_exp2_next(0x4fffffbe52c1822d, 0x4bcd1b800000, 22, 0x4fffffbe52c1822d, 0x979a37000000);
    lemma_exp2_next(0x4fffffbe52c1822d, 0x979a37000000, 23, 0x4ffffff5c668e54f, 0x2f346e000000);
    lemma_exp2_next(0x4ffffff5c668e54f, 0x2f346e000000, 24, 0x4ffffff5c668e54f, 0x5e68dc000000);
    lemma_exp2_next(0x4ffffff5c668e54f, 0x5e68dc000000, 25, 0x4ffffff5c668e54f, 0xbcd1b8000000);
    lemma_exp2_next(0x4ffffff5c668e54f, 0xbcd1b8000000, 26, 0x4ffffffcb4ddd467, 0x79a370000000);
    lemma_exp2_next(0x4ffffffcb4ddd467, 0x79a370000000, 27, 0x4ffffffcb4ddd467, 0xf346e0000000);
    lemma_exp2_next(0x4ffffffcb4ddd467, 0xf346e0000000, 28, 0x4ffffffe707b1044, 0xe68dc0000000);
    lemma_exp2_next(0x4ffffffe707b1044, 0xe68dc0000000, 29, 0x4fffffff4e49ae35, 0xcd1b80000000);
    lemma_exp2_next(0x4fffffff4e49ae35, 0xcd1b80000000, 30, 0x4fffffffbd30fd2d, 0x9a3700000000);
    lemma_exp2_next(0x4fffffffbd30fd2d, 0x9a3700000000, 31, 0x4ffffffff4a4a4a9, 0x346e00000000);
    lemma_exp2_next(0x4ffffffff4a4a4a9, 0x346e00000000, 32, 0x4ffffffff4a4a4a9, 0x68dc00000000);
    lemma_exp2_next(0x4ffffffff4a4a4a9, 0x68dc00000000, 33, 0x4ffffffff4a4a4a9, 0xd1b800000000);
    lemma_exp2_next(0x4ffffffff4a4a4a9, 0xd1b800000000, 34, 0x4ffffffffb931996, 0xa37000000000);
    lemma_exp2_next(0x4ffffffffb931996, 0xa37000000000, 35, 0x4fffffffff0a540b, 0x46e000000000);
    lemma_exp2_next(0x4fffffffff0a540b, 0x46e000000000, 36, 0x4fffffffff0a540b, 0x8dc000000000);
    lemma_exp2_next(0x4fffffffff0a540b, 0x8dc000000000, 37, 0x4fffffffffe822a6, 0x1b8000000000);
    lemma_exp2_next(0x4fffffffffe822a6, 0x1b8000000000, 38, 0x4fffffffffe822a6, 0x370000000000);
    lemma_exp2_next(0x4fffffffffe822a6, 0x370000000000, 39, 0x4fffffffffe822a6, 0x6e0000000000);
    lemma_exp2_next(0x4fffffffffe822a6, 0x6e0000000000, 40, 0x4fffffffffe822a6, 0xdc0000000000);
    lemma_exp2_next(0x4fffffffffe822a6, 0xdc0000000000, 41, 0x4ffffffffff5ff8d, 0xb80000000000);
    lemma_exp2_next(0x4ffffffffff5ff8d, 0xb80000000000, 42, 0x4ffffffffffcedff, 0x700000000000);
    lemma_exp2_next(0x4ffffffffffcedff, 0x700000000000, 43, 0x4ffffffffffcedff, 0xe00000000000);
    lemma_exp2_next(0x4ffffffffffcedff, 0xe00000000000, 44, 0x4ffffffffffea99a, 0xc00000000000);
    lemma_exp2_next(0x4ffffffffffea99a, 0xc00000000000, 45, 0x4fffffffffff8767, 0x800000000000);
    lemma_exp2_next(0x4fffffffffff8767, 0x800000000000, 46, 0x4ffffffffffff64c, 0x0);
    lemma_exp2_next(0x4ffffffffffff64c, 0x0, 47, 0x4ffffffffffff64c, 0x0);
}

/// 20 dB are a factor of ten.
pub proof fn law_twenty_decibels_are_tenfold()
    ensures
        -0x200000000 <= linear_of(whole(20)) - 10 * ONE <= 0x200000000,
{
    reveal(exp2_of);
    lemma2_to64();
    let t = prod(whole(20), OCTAVES_PER_DB);
    assert(t == 0x35269e12f346e2bf924a8);
    assert(t as int / ONE as int == 3);
    assert((t as int % ONE as int) / 0x1_0000_0000 == 0x5269e12f346e);
    lemma_tenfold();
    assert(pow2(21) == 0x20_0000);
    assert(0x4ffffffffffff64c * 0x20_0000 == 0x9fffffffffffec9800000);
}

/// The digits of the power of two that is one over e.
proof fn lemma_one_over_e()
    ensures
        exp2_digits(0x4000_0000_0000_0000, 0x8eab89ad47d0, 0) == 0x5e2d58d8b3bcd720,
{
    lemma_two_roots();
    lemma_exp2_next(0x4000000000000000, 0x8eab89ad47d0, 0, 0x5a827999fcef3242, 0x1d57135a8fa0);
    lemma_exp2_next(0x5a827999fcef3242, 0x1d57135a8fa0, 1, 0x5a827999fcef3242, 0x3aae26b51f40);
    lemma_exp2_next(0x5a827999fcef3242, 0x3aae26b51f40, 2, 0x5a827999fcef3242, 0x755c4d6a3e80);
    lemma_exp2_next(0x5a827999fcef3242, 0x755c4d6a3e80, 3, 0x5a827999fcef3242, 0xeab89ad47d00);
    lemma_exp2_next(0x5a827999fcef3242, 0xeab89ad47d00, 4, 0x5c7dd7a3b17dcf73, 0xd57135a8fa00);
    lemma_exp2_next(0x5c7dd7a3b17dcf73, 0xd57135a8fa00, 5, 0x5d7fad59099f22fb, 0xaae26b51f400);
    lemma_exp2_next(0x5d7fad59099f22fb, 0xaae26b51f400, 6, 0x5e01a53f7974fd82, 0x55c4d6a3e800);
    lemma_exp2_next(0x5e01a53f7974fd82, 0x55c4d6a3e800, 7, 0x5e01a53f7974fd82, 0xab89ad47d000);
    lemma_exp2_next(0x5e01a53f7974fd82, 0xab89ad47d000, 8, 0x5e223f69d279750a, 0x57135a8fa000);
    lemma_exp2_next(0x5e223f69d279750a, 0x57135a8fa000, 9, 0x5e223f69d279750a, 0xae26b51f4000);
    lemma_exp2_next(0x5e223f69d279750a, 0xae26b51f4000, 10, 0x5e2a67b8865082f6, 0x5c4d6a3e8000);
    lemma_exp2_next(0x5e2a67b8865082f6, 0x5c4d6a3e8000, 11, 0x5e2a67b8865082f6, 0xb89ad47d0000);
    lemma_exp2_next(0x5e2a67b8865082f6, 0xb89ad47d0000, 12, 0x5e2c71e87968b1bc, 0x7135a8fa0000);
    lemma_exp2_next(0x5e2c71e87968b1bc, 0x7135a8fa0000, 13, 0x5e2c71e87968b1bc, 0xe26b51f40000);
    lemma_exp2_next(0x5e2c71e87968b1bc, 0xe26b51f40000, 14, 0x5e2cf4763aa20a4b, 0xc4d6a3e80000);
    lemma_exp2_next(0x5e2cf4763aa20a4b, 0xc4d6a3e80000, 15, 0x5e2d35bd5f1d7b64, 0x89ad47d00000);
    lemma_exp2_next(0x5e2d35bd5f1d7b64, 0x89ad47d00000, 16, 0x5e2d56610252f2dd, 0x135a8fa00000);
    lemma_exp2_next(0x5e2d56610252f2dd, 0x135a8fa00000, 17, 0x5e2d56610252f2dd, 0x26b51f400000);
    lemma_exp2_next(0x5e2d56610252f2dd, 0x26b51f400000, 18, 0x5e2d56610252f2dd, 0x4d6a3e800000);
    lemma_exp2_next(0x5e2d56610252f2dd, 0x4d6a3e800000, 19, 0x5e2d56610252f2dd, 0x9ad47d000000);
    lemma_exp2_next(0x5e2d56610252f2dd, 0x9ad47d000000, 20, 0x5e2d586b3ce67103, 0x35a8fa000000);
    lemma_exp2_next(0x5e2d586b3ce67103, 0x35a8fa000000, 21, 0x5e2d586b3ce67103, 0x6b51f4000000);
    lemma_exp2_next(0x5e2d586b3ce67103, 0x6b51f4000000, 22, 0x5e2d586b3ce67103, 0xd6a3e8000000);
    lemma_exp2_next(0x5e2d586b3ce67103, 0xd6a3e8000000, 23, 0x5e2d58ac8439ac64, 0xad47d0000000);
    lemma_exp2_next(0x5e2d58ac8439ac64, 0xad47d0000000, 24, 0x5e2d58cd27e35b0c, 0x5a8fa0000000);
    lemma_exp2_next(0x5e2d58cd27e35b0c, 0x5a8fa0000000, 25, 0x5e2d58cd27e35b0c, 0xb51f40000000);
    lemma_exp2_next(0x5e2d58cd27e35b0c, 0xb51f40000000, 26, 0x5e2d58d550cdc87a, 0x6a3e80000000);
    lemma_exp2_next(0x5e2d58d550cdc87a, 0x6a3e80000000, 27, 0x5e2d58d550cdc87a, 0xd47d00000000);
    lemma_exp2_next(0x5e2d58d550cdc87a, 0xd47d00000000, 28, 0x5e2d58d75b0863f1, 0xa8fa00000000);
    lemma_exp2_next(0x5e2d58d75b0863f1, 0xa8fa00000000, 29, 0x5e2d58d86025b1b0, 0x51f400000000);
    lemma_exp2_next(0x5e2d58d86025b1b0, 0x51f400000000, 30, 0x5e2d58d86025b1b0, 0xa3e800000000);
    lemma_exp2_next(0x5e2d58d86025b1b0, 0xa3e800000000, 31, 0x5e2d58d8a16d051f, 0x47d000000000);
    lemma_exp2_next(0x5e2d58d8a16d051f, 0x47d000000000, 32, 0x5e2d58d8a16d051f, 0x8fa000000000);
    lemma_exp2_next(0x5e2d58d8a16d051f, 0x8fa000000000, 33, 0x5e2d58d8b1bed9f8, 0x1f4000000000);
    lemma_exp2_next(0x5e2d58d8b1bed9f8, 0x1f4000000000, 34, 0x5e2d58d8b1bed9f8, 0x3e8000000000);
    lemma_exp2_next(0x5e2d58d8b1bed9f8, 0x3e8000000000, 35, 0x5e2d58d8b1bed9f8, 0x7d0000000000);
    lemma_exp2_next(0x5e2d58d8b1bed9f8, 0x7d0000000000, 36, 0x5e2d58d8b1bed9f8, 0xfa0000000000);
    lemma_exp2_next(0x5e2d58d8b1bed9f8, 0xfa0000000000, 37, 0x5e2d58d8b2c3f742, 0xf40000000000);
    lemma_exp2_next(0x5e2d58d8b2c3f742, 0xf40000000000, 38, 0x5e2d58d8b34685e5, 0xe80000000000);
    lemma_exp2_next(0x5e2d58d8b34685e5, 0xe80000000000, 39, 0x5e2d58d8b387cd35, 0xd00000000000);
    lemma_exp2_next(0x5e2d58d8b387cd35, 0xd00000000000, 40, 0x5e2d58d8b3a870db, 0xa00000000000);
    lemma_exp2_next(0x5e2d58d8b3a870db, 0xa00000000000, 41, 0x5e2d58d8b3b8c2ad, 0x400000000000);
    lemma_exp2_next(0x5e2d58d8b3b8c2ad, 0x400000000000, 42, 0x5e2d58d8b3b8c2ad, 0x800000000000);
    lemma_exp2_next(0x5e2d58d8b3b8c2ad, 0x800000000000, 43, 0x5e2d58d8b3bcd720, 0x0);
    lemma_exp2_next(0x5e2d58d8b3bcd720, 0x0, 44, 0x5e2d58d8b3bcd720, 0x0);
    lemma_exp2_next(0x5e2d58d8b3bcd720, 0x0, 45, 0x5e2d58d8b3bcd720, 0x0);
    lemma_exp2_next(0x5e2d58d8b3bcd720, 0x0, 46, 0x5e2d58d8b3bcd720, 0x0);
    lemma_exp2_next(0x5e2d58d8b3bcd720, 0x0, 47, 0x5e2d58d8b3bcd720, 0x0);
}

/// Term `k` of the series 1 - 1 + 1/2! - 1/3! + ...
pub open spec fn alternating_term(k: nat) -> int
    decreases k,
{
    if k == 0 {
        ONE as int
    } else {
        -cut(alternating_term((k - 1) as nat), k as int)
    }
}

/// The sum of its first `n` terms: one over e.
pub open spec fn alternating_sum(n: nat) -> int
    decreases n,
{
    if n == 0 {
        0
    } else {
        alternating_sum((n - 1) as nat) + alternating_term((n - 1) as nat)
    }
}

proof fn lemma_alternating_next(n: nat, partial: int, term: int)
    requires
        alternating_sum(n) == partial,
        alternating_term(n) == term,
    ensures
        alternating_sum(n + 1) == partial + term,
        alternating_term(n + 1) == -cut(term, n as int + 1),
{
}

proof fn lemma_alternating_sum()
    ensures
        alternating_sum(26) == 0x5e2d58d8b3bcdf1abadc,
{
    assert(alternating_sum(0) == 0 && alternating_term(0) == ONE);
    lemma_alternating_next(0, 0x0, 0x100000000000000000000);
    lemma_alternating_next(1, 0x100000000000000000000, -0x100000000000000000000);
    lemma_alternating_next(2, 0x0, 0x80000000000000000000);
    lemma_alternating_next(3, 0x80000000000000000000, -0x2aaaaaaaaaaaaaaaaaaa);
    lemma_alternating_next(4, 0x55555555555555555556, 0xaaaaaaaaaaaaaaaaaaa);
    lemma_alternating_next(5, 0x60000000000000000000, -0x2222222222222222222);
    lemma_alternating_next(6, 0x5dddddddddddddddddde, 0x5b05b05b05b05b05b0);
    lemma_alternating_next(7, 0x5e38e38e38e38e38e38e, -0xd00d00d00d00d00d0);
    lemma_alternating_next(8, 0x5e2be2be2be2be2be2be, 0x1a01a01a01a01a01a);
    lemma_alternating_next(9, 0x5e2d82d82d82d82d82d8, -0x2e3bc74aad8e671f);
    lemma_alternating_next(10, 0x5e2d549c66382a9f1bb9, 0x49f93edde27d71c);
    lemma_alternating_next(11, 0x5e2d593bfa2608c6f2d5, -0x6b99159fd5138e);
    lemma_alternating_next(12, 0x5e2d58d0611068f1df47, 0x8f76c77fc6c4b);
    lemma_alternating_next(13, 0x5e2d58d9587ce0ee4b92, -0xb092309d4368);
    lemma_alternating_next(14, 0x5e2d58d8a7eab051082a, 0xc9cba54603e);
    lemma_alternating_next(15, 0x5e2d58d8b4876aa56868, -0xd73f9f399d);
    lemma_alternating_next(16, 0x5e2d58d8b3b02b062ecb, 0xd73f9f399);
    lemma_alternating_next(17, 0x5e2d58d8b3bd9f002264, -0xca963b81);
    lemma_alternating_next(18, 0x5e2d58d8b3bcd469e6e3, 0xb413c31);
    lemma_alternating_next(19, 0x5e2d58d8b3bcdfab2314, -0x97a4da);
    lemma_alternating_next(20, 0x5e2d58d8b3bcdf137e3a, 0x7950a);
    lemma_alternating_next(21, 0x5e2d58d8b3bcdf1b1344, -0x5c6e);
    lemma_alternating_next(22, 0x5e2d58d8b3bcdf1ab6d6, 0x433);
    lemma_alternating_next(23, 0x5e2d58d8b3bcdf1abb09, -0x2e);
    lemma_alternating_next(24, 0x5e2d58d8b3bcdf1abadb, 0x1);
    lemma_alternating_next(25, 0x5e2d58d8b3bcdf1abadc, 0x0);
}

/// After one time constant, one over e of the past is left.
pub proof fn law_time_constant_leaves_one_over_e()
    ensures
        -0x8000000 <= coeff_of(ONE, ONE) - alternating_sum(26) <= 0x8000000,
{
    reveal(exp2_of);
    reveal(quot);
    lemma2_to64();
    lemma_alternating_sum();
    let t = prod(quot(quot(negated(ONE), ONE), ONE), LOG2_E);
    assert(quot(negated(ONE), ONE) == -ONE);
    let q = quot(quot(negated(ONE), ONE), ONE);
    assert(q == -ONE);
    assert(q * LOG2_E == -(0x171547652b82fe1777d10 * ONE)) by (nonlinear_arith)
        requires
            q == -ONE,
            LOG2_E == 0x171547652b82fe1777d10,
    ;
    assert(t == -0x171547652b82fe1777d10);
    assert(t as int / ONE as int == -2);
    assert((t as int % ONE as int) / 0x1_0000_0000 == 0x8eab89ad47d0);
    lemma_one_over_e();
    assert(pow2(16) == 0x10000);
    assert(0x5e2d58d8b3bcd720 * 0x10000 == 0x5e2d58d8b3bcd7200000);
}

/// The digits of the logarithm of a hundred.
proof fn lemma_hundred()
    ensures
        log2_digits(0x6400000000000000, 48) == 0xa4d3c25e68dc,
{
    lemma2_to64();
    lemma2_to64_rest();
    lemma_log2_next(0x6400000000000000, 48, 0x4e20000000000000, 0x800000000000);
    lemma_log2_next(0x4e20000000000000, 47, 0x5f5e100000000000, 0x0);
    lemma_log2_next(0x5f5e100000000000, 46, 0x470de4df82000000, 0x200000000000);
    lemma_log2_next(0x470de4df82000000, 45, 0x4ee2d6d415b85ace, 0x0);
    lemma_log2_next(0x4ee2d6d415b85ace, 44, 0x613c0fa4ffe7d368, 0x0);
    lemma_log2_next(0x613c0fa4ffe7d368, 43, 0x49dd23e4c074c66b, 0x40000000000);
    lemma_log2_next(0x49dd23e4c074c66b, 42, 0x553f75fdcefcef3b, 0x0);
    lemma_log2_next(0x553f75fdcefcef3b, 41, 0x718cd057530748c3, 0x0);
    lemma_log2_next(0x718cd057530748c3, 40, 0x64bb3ac340ba85d2, 0x8000000000);
    lemma_log2_next(0x64bb3ac340ba85d2, 39, 0x4f459daee29eae97, 0x4000000000);
    lemma_log2_next(0x4f459daee29eae97, 38, 0x6230290145104aeb, 0x0);
    lemma_log2_next(0x6230290145104aeb, 37, 0x4b51d0e8bfd78f31, 0x1000000000);
    lemma_log2_next(0x4b51d0e8bfd78f31, 36, 0x58a42a38f8b2fea7, 0x0);
    lemma_log2_next(0x58a42a38f8b2fea7, 35, 0x7ac519352bc1cac6, 0x0);
    lemma_log2_next(0x7ac519352bc1cac6, 34, 0x75c0e78cf80af63b, 0x200000000);
    lemma_log2_next(0x75c0e78cf80af63b, 33, 0x6c53ca05ff3b958e, 0x100000000);
    lemma_log2_next(0x6c53ca05ff3b958e, 32, 0x5bad9bc35d567b81, 0x80000000);
    lemma_log2_next(0x5bad9bc35d567b81, 31, 0x41a9c4f1925b959d, 0x40000000);
    lemma_log2_next(0x41a9c4f1925b959d, 30, 0x435e9a612b222bd9, 0x0);
    lemma_log2_next(0x435e9a612b222bd9, 29, 0x46ea9f126422734a, 0x0);
    lemma_log2_next(0x46ea9f126422734a, 28, 0x4e949814fce6fef1, 0x0);
    lemma_log2_next(0x4e949814fce6fef1, 27, 0x607b8bb3f2e871f1, 0x0);
    lemma_log2_next(0x607b8bb3f2e871f1, 26, 0x48b9c8cd02ad5230, 0x2000000);
    lemma_log2_next(0x48b9c8cd02ad5230, 25, 0x52a41f1c9d41545f, 0x0);
    lemma_log2_next(0x52a41f1c9d41545f, 24, 0x6ab63498d4bd1c26, 0x0);
    lemma_log2_next(0x6ab63498d4bd1c26, 23, 0x58f6ca7ac89313bb, 0x400000);
    lemma_log2_next(0x58f6ca7ac89313bb, 22, 0x7baa6478b8125e99, 0x0);
    lemma_log2_next(0x7baa6478b8125e99, 21, 0x777a5beb31495010, 0x100000);
    lemma_log2_next(0x777a5beb31495010, 20, 0x6f85f7e0c9fc5ed9, 0x80000);
    lemma_log2_next(0x6f85f7e0c9fc5ed9, 19, 0x612ae620dd7c8b43, 0x40000);
    lemma_log2_next(0x612ae620dd7c8b43, 18, 0x49c3132a73004134, 0x20000);
    lemma_log2_next(0x49c3132a73004134, 17, 0x55035651a6c2aebb, 0x0);
    lemma_log2_next(0x55035651a6c2aebb, 16, 0x70ecdd756f089ab8, 0x0);
    lemma_log2_next(0x70ecdd756f089ab8, 15, 0x63a039dfa2806da3, 0x4000);
    lemma_log2_next(0x63a039dfa2806da3, 14, 0x4d8aa216b89f9e1d, 0x2000);
    lemma_log2_next(0x4d8aa216b89f9e1d, 13, 0x5df2c25348bf5388, 0x0);
    lemma_log2_next(0x5df2c25348bf5388, 12, 0x44f48ec8f7a5c389, 0x800);
    lemma_log2_next(0x44f48ec8f7a5c389, 11, 0x4a4b55ed092ed175, 0x0);
    lemma_log2_next(0x4a4b55ed092ed175, 10, 0x563e8f61fc26d865, 0x0);
    lemma_log2_next(0x563e8f61fc26d865, 9, 0x74385e7e64bb65a4, 0x0);
    lemma_log2_next(0x74385e7e64bb65a4, 8, 0x698644180aedecf4, 0x80);
    lemma_log2_next(0x698644180aedecf4, 7, 0x56fed48e287ecb09, 0x40);
    lemma_log2_next(0x56fed48e287ecb09, 6, 0x7640d1e7f725381f, 0x0);
    lemma_log2_next(0x7640d1e7f725381f, 5, 0x6d3fa3d6efdcec26, 0x10);
    lemma_log2_next(0x6d3fa3d6efdcec26, 4, 0x5d3e82ae29cf337b, 0x8);
    lemma_log2_next(0x5d3e82ae29cf337b, 3, 0x43ecf46c32e4496f, 0x4);
    lemma_log2_next(0x43ecf46c32e4496f, 2, 0x48178d10cdff0856, 0x0);
    lemma_log2_next(0x48178d10cdff0856, 1, 0x513506106a7ff224, 0x0);
}

/// A hundred times the power is 20 dB more.
pub proof fn law_hundredfold_power_is_twenty_decibels()
    ensures
        -0x200000000 <= level_db_of(whole(100)) - 20 * ONE <= 0x200000000,
{
    reveal(log2_of);
    lemma2_to64();
    lemma2_to64_rest();
    lemma_hundred();
    let x = sum(whole(100), POWER_FLOOR);
    assert(x == 0x6400000000000000002f39);
    lemma_pow2_adds(64, 22);
    lemma_pow2_unfold(87);
    lemma_exponent(x as int, 86);
    assert(pow2(40) == 0x10000000000);
    assert(mantissa(x as int) == 0x6400000000000000);
    assert(log2_of(x) == 0x6a4d3c25e68dc00000000);
}

/// A quarter of one.
pub const QUARTER: PrcFmt = 0x4000_0000_0000_0000_0000;

/// The angle of a quarter turn.
const ANGLE: PrcFmt = 0x1921fb54442d18469898c;

/// Its square.
const SQUARE: PrcFmt = 0x277a79937c8bbcb495b87;

/// One term of a power series.
proof fn lemma_term_next(
    first: PrcFmt,
    offset: int,
    n: nat,
    a: int,
    b: int,
    partial: int,
    term: int,
    product: int,
    next: int,
)
    requires
        series_sum(first, SQUARE, offset, n) == partial,
        series_term(first, SQUARE, offset, n) == term,
        -8 * ONE <= partial <= 8 * ONE,
        -8 * ONE <= term <= 8 * ONE,
        0 <= offset,
        n < 32,
        product == cut(term * SQUARE, ONE as int),
        -64 * ONE <= product <= 64 * ONE,
        a == 2 * n + 1 + offset,
        b == 2 * n + 2 + offset,
        0 < a * b <= 0x1_0000,
        next == -cut(product, a * b),
    ensures
        series_sum(first, SQUARE, offset, n + 1) == partial + term,
        series_term(first, SQUARE, offset, n + 1) == next,
{
    reveal(quot);
    let k = n + 1;
    let d = a * b;
    assert((2 * k - 1 + offset) * (2 * k + offset) == d);
    lemma_cut_scaled(product, d);
    lemma_cut_small(product, d);
}

/// A common factor cancels.
pub proof fn lemma_cut_scaled(n: int, d: int)
    requires
        d > 0,
    ensures
        cut(n * ONE, d * ONE) == cut(n, d),
{
    let one = ONE as int;
    if n >= 0 {
        vstd::arithmetic::div_mod::lemma_div_multiples_vanish_quotient(one, n, d);
        vstd::arithmetic::mul::lemma_mul_is_commutative(one, n);
        vstd::arithmetic::mul::lemma_mul_is_commutative(one, d);
    } else {
        vstd::arithmetic::div_mod::lemma_div_multiples_vanish_quotient(one, -n, d);
        vstd::arithmetic::mul::lemma_mul_is_commutative(one, -n);
        vstd::arithmetic::mul::lemma_mul_is_commutative(one, d);
        assert(-(n * one) == (-n) * one) by (nonlinear_arith);
    }
}

/// Division by a whole number does not leave the range.
proof fn lemma_cut_small(n: int, d: int)
    requires
        d > 0,
        -0x4000_0000_0000_0000_0000_0000_0000_0000 <= n
            <= 0x4000_0000_0000_0000_0000_0000_0000_0000,
    ensures
        -0x4000_0000_0000_0000_0000_0000_0000_0000 <= cut(n, d)
            <= 0x4000_0000_0000_0000_0000_0000_0000_0000,
{
    let size = if n >= 0 {
        n
    } else {
        -n
    };
    vstd::arithmetic::div_mod::lemma_div_is_ordered_by_denominator(size, 1, d);
    vstd::arithmetic::div_mod::lemma_div_pos_is_pos(size, d);
}

/// The terms of the sine of a quarter turn.
proof fn lemma_sine_of_quarter()
    ensures
        series_sum(ANGLE, SQUARE, 1, 32) == 0x100000000000000000000,
{
    assert(series_sum(ANGLE, SQUARE, 1, 0) == 0);
    assert(series_term(ANGLE, SQUARE, 1, 0) == ANGLE);
    lemma_term_next(
        ANGLE,
        1,
        0,
        2,
        3,
        0x0,
        0x1921fb54442d18469898c,
        0x3e0336b2713af83c032a4,
        -0xa55de7312df295f55dc6,
    );
    lemma_term_next(
        ANGLE,
        1,
        1,
        4,
        5,
        0x1921fb54442d18469898c,
        -0xa55de7312df295f55dc6,
        -0x19806b8153159a46d9dfd,
        0x1466bc6775aae1d247e6,
    );
    lemma_term_next(
        ANGLE,
        1,
        2,
        6,
        7,
        0xecc1ce1314deee742bc6,
        0x1466bc6775aae1d247e6,
        0x3256959dc3317f13cb8f,
        -0x132d2cce62bd85be65e,
    );
    lemma_term_next(
        ANGLE,
        1,
        3,
        8,
        9,
        0x101288a7a8a89d04673ac,
        -0x132d2cce62bd85be65e,
        -0x2f50e7631d88e3e0512,
        0xa83c1a43f73c0dc83,
    );
    lemma_term_next(
        ANGLE,
        1,
        4,
        10,
        11,
        0xfff5b7ada45df7ea8d4e,
        0xa83c1a43f73c0dc83,
        0x19f1a48a33d41ef869,
        -0x3c60e9fbd10e3ec4,
    );
    lemma_term_next(
        ANGLE,
        1,
        5,
        12,
        13,
        0x100003b6f489d6bab69d1,
        -0x3c60e9fbd10e3ec4,
        -0x94fa681767914395,
        0xf47a1a680c6b19,
    );
    lemma_term_next(
        ANGLE,
        1,
        6,
        14,
        15,
        0xffffff0e5ea19a9d2b0d,
        0xf47a1a680c6b19,
        0x25b39050ff032ac,
        -0x2df5b73e2aae8,
    );
    lemma_term_next(
        ANGLE,
        1,
        7,
        16,
        17,
        0x100000002d8bc02a99626,
        -0x2df5b73e2aae8,
        -0x7166bd76a31a2,
        0x6abb0cabe4c,
    );
    lemma_term_next(
        ANGLE,
        1,
        8,
        18,
        19,
        0xfffffffff9608ec6eb3e,
        0x6abb0cabe4c,
        0x10758ec22016,
        -0xc5202108f,
    );
    lemma_term_next(
        ANGLE,
        1,
        9,
        20,
        21,
        0x100000000000c3f91a98a,
        -0xc5202108f,
        -0x1e6633f5db,
        0x12877020,
    );
    lemma_term_next(
        ANGLE,
        1,
        10,
        22,
        23,
        0xffffffffffffed8f98fb,
        0x12877020,
        0x2db7f6d0,
        -0x17215f,
    );
    lemma_term_next(ANGLE, 1, 11, 24, 25, 0x10000000000000017091b, -0x17215f, -0x391265, 0x1859);
    lemma_term_next(ANGLE, 1, 12, 26, 27, 0xffffffffffffffffe7bc, 0x1859, 0x3c13, -0x15);
    lemma_term_next(ANGLE, 1, 13, 28, 29, 0x100000000000000000015, -0x15, -0x33, 0x0);
    lemma_term_next(ANGLE, 1, 14, 30, 31, 0x100000000000000000000, 0x0, 0x0, 0x0);
    lemma_term_next(ANGLE, 1, 15, 32, 33, 0x100000000000000000000, 0x0, 0x0, 0x0);
    lemma_term_next(ANGLE, 1, 16, 34, 35, 0x100000000000000000000, 0x0, 0x0, 0x0);
    lemma_term_next(ANGLE, 1, 17, 36, 37, 0x100000000000000000000, 0x0, 0x0, 0x0);
    lemma_term_next(ANGLE, 1, 18, 38, 39, 0x100000000000000000000, 0x0, 0x0, 0x0);
    lemma_term_next(ANGLE, 1, 19, 40, 41, 0x100000000000000000000, 0x0, 0x0, 0x0);
    lemma_term_next(ANGLE, 1, 20, 42, 43, 0x100000000000000000000, 0x0, 0x0, 0x0);
    lemma_term_next(ANGLE, 1, 21, 44, 45, 0x100000000000000000000, 0x0, 0x0, 0x0);
    lemma_term_next(ANGLE, 1, 22, 46, 47, 0x100000000000000000000, 0x0, 0x0, 0x0);
    lemma_term_next(ANGLE, 1, 23, 48, 49, 0x100000000000000000000, 0x0, 0x0, 0x0);
    lemma_term_next(ANGLE, 1, 24, 50, 51, 0x100000000000000000000, 0x0, 0x0, 0x0);
    lemma_term_next(ANGLE, 1, 25, 52, 53, 0x100000000000000000000, 0x0, 0x0, 0x0);
    lemma_term_next(ANGLE, 1, 26, 54, 55, 0x100000000000000000000, 0x0, 0x0, 0x0);
    lemma_term_next(ANGLE, 1, 27, 56, 57, 0x100000000000000000000, 0x0, 0x0, 0x0);
    lemma_term_next(ANGLE, 1, 28, 58, 59, 0x100000000000000000000, 0x0, 0x0, 0x0);
    lemma_term_next(ANGLE, 1, 29, 60, 61, 0x100000000000000000000, 0x0, 0x0, 0x0);
    lemma_term_next(ANGLE, 1, 30, 62, 63, 0x100000000000000000000, 0x0, 0x0, 0x0);
    lemma_term_next(ANGLE, 1, 31, 64, 65, 0x100000000000000000000, 0x0, 0x0, 0x0);
}

/// The terms of the cosine of a quarter turn.
proof fn lemma_cosine_of_quarter()
    ensures
        series_sum(ONE, SQUARE, 0, 32) == -0x1,
{
    assert(series_sum(ONE, SQUARE, 0, 0) == 0);
    assert(series_term(ONE, SQUARE, 0, 0) == ONE);
    lemma_term_next(
        ONE,
        0,
        0,
        1,
        2,
        0x0,
        0x100000000000000000000,
        0x277a79937c8bbcb495b87,
        -0x13bd3cc9be45de5a4adc3,
    );
    lemma_term_next(
        ONE,
        0,
        1,
        3,
        4,
        0x100000000000000000000,
        -0x13bd3cc9be45de5a4adc3,
        -0x30b45d1852104b19f98fd,
        0x40f07c206d6b0ecd4cbf,
    );
    lemma_term_next(
        ONE,
        0,
        2,
        5,
        6,
        -0x3bd3cc9be45de5a4adc3,
        0x40f07c206d6b0ecd4cbf,
        0xa03b45b2c79fd2e47d55,
        -0x5574f1f8f2ffe7f153e,
    );
    lemma_term_next(
        ONE,
        0,
        3,
        7,
        8,
        0x51caf84890d29289efc,
        -0x5574f1f8f2ffe7f153e,
        -0xd2db32dbfc1b1caec23,
        0x3c3ea0d1237575e8c9,
    );
    lemma_term_next(
        ONE,
        0,
        4,
        9,
        10,
        -0x3a9f9b0622d5567642,
        0x3c3ea0d1237575e8c9,
        0x94a5cf4cf5a3519a4d,
        -0x1a6d1f2a204a8ba9a,
    );
    lemma_term_next(
        ONE,
        0,
        5,
        11,
        12,
        0x19f05cb00a01f7287,
        -0x1a6d1f2a204a8ba9a,
        -0x413444d123dd51447,
        0x7e74e28dd8f30a3,
    );
    lemma_term_next(
        ONE,
        0,
        6,
        13,
        14,
        -0x7cc27a164894813,
        0x7e74e28dd8f30a3,
        0x13804e45ad5f31c9,
        -0x1b6e24f44b128f,
    );
    lemma_term_next(
        ONE,
        0,
        7,
        15,
        16,
        0x1b26877905e890,
        -0x1b6e24f44b128f,
        -0x43ae725b0ea9d5,
        0x48318b0bcb5f,
    );
    lemma_term_next(
        ONE,
        0,
        8,
        17,
        18,
        -0x479d7b4529ff,
        0x48318b0bcb5f,
        0xb22161411e53,
        -0x95062c8d7c,
    );
    lemma_term_next(ONE, 0, 9, 19, 20, 0x940fc6a160, -0x95062c8d7c, -0x16fb3c808f6, 0xf7b71846);
    lemma_term_next(ONE, 0, 10, 21, 22, -0xf665ec1c, 0xf7b71846, 0x263367987, -0x152ae41);
    lemma_term_next(ONE, 0, 11, 23, 24, 0x1512c2a, -0x152ae41, -0x343a93c, 0x1838d);
    lemma_term_next(ONE, 0, 12, 25, 26, -0x18217, 0x1838d, 0x3bc3e, -0x178);
    lemma_term_next(ONE, 0, 13, 27, 28, 0x176, -0x178, -0x39f, 0x1);
    lemma_term_next(ONE, 0, 14, 29, 30, -0x2, 0x1, 0x2, 0x0);
    lemma_term_next(ONE, 0, 15, 31, 32, -0x1, 0x0, 0x0, 0x0);
    lemma_term_next(ONE, 0, 16, 33, 34, -0x1, 0x0, 0x0, 0x0);
    lemma_term_next(ONE, 0, 17, 35, 36, -0x1, 0x0, 0x0, 0x0);
    lemma_term_next(ONE, 0, 18, 37, 38, -0x1, 0x0, 0x0, 0x0);
    lemma_term_next(ONE, 0, 19, 39, 40, -0x1, 0x0, 0x0, 0x0);
    lemma_term_next(ONE, 0, 20, 41, 42, -0x1, 0x0, 0x0, 0x0);
    lemma_term_next(ONE, 0, 21, 43, 44, -0x1, 0x0, 0x0, 0x0);
    lemma_term_next(ONE, 0, 22, 45, 46, -0x1, 0x0, 0x0, 0x0);
    lemma_term_next(ONE, 0, 23, 47, 48, -0x1, 0x0, 0x0, 0x0);
    lemma_term_next(ONE, 0, 24, 49, 50, -0x1, 0x0, 0x0, 0x0);
    lemma_term_next(ONE, 0, 25, 51, 52, -0x1, 0x0, 0x0, 0x0);
    lemma_term_next(ONE, 0, 26, 53, 54, -0x1, 0x0, 0x0, 0x0);
    lemma_term_next(ONE, 0, 27, 55, 56, -0x1, 0x0, 0x0, 0x0);
    lemma_term_next(ONE, 0, 28, 57, 58, -0x1, 0x0, 0x0, 0x0);
    lemma_term_next(ONE, 0, 29, 59, 60, -0x1, 0x0, 0x0, 0x0);
    lemma_term_next(ONE, 0, 30, 61, 62, -0x1, 0x0, 0x0, 0x0);
    lemma_term_next(ONE, 0, 31, 63, 64, -0x1, 0x0, 0x0, 0x0);
}

/// A quarter turn has a sine of one and a cosine of zero.
pub proof fn law_quarter_turn()
    ensures
        -2 <= sin_of(QUARTER) - ONE <= 2,
        -2 <= cos_of(QUARTER) <= 2,
{
    reveal(sin_of);
    reveal(cos_of);
    let x = angle_of(QUARTER);
    assert(x == ANGLE);
    assert(prod(x, x) == SQUARE);
    lemma_sine_of_quarter();
    lemma_cosine_of_quarter();
}

} // verus!
