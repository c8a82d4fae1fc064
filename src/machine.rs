use vstd::arithmetic::power2::{lemma2_to64, lemma_pow2_strictly_increases, pow2};
use vstd::bits::{lemma_u64_shl_is_mul, lemma_u64_shr_is_div};
use vstd::prelude::*;

use crate::ring::{is_masked, push_spec, rotate_right_spec, Ring, MASK, RING_LEN};

verus! {

/// One instruction of a program.
#[derive(PartialEq, Eq, Structural, Clone, Copy, Debug)]
pub enum Token {
    /// A literal, parsed from a run of hexadecimal digits.
    Number(i32),
    /// A one-letter opcode.
    Opcode(char),
}

/// `2^31`: masking with `MASK` keeps a value modulo this.
pub open spec fn modulus() -> int {
    0x8000_0000
}

/// The opcode alphabet: `a` to `u`, and the reserved letters `G` to `Z`.
pub open spec fn is_opcode(c: char) -> bool {
    ('a' <= c && c <= 'u') || ('G' <= c && c <= 'Z')
}

/// A token the machine can run: any opcode character (those without an
/// operation are no-ops), or a masked literal.
pub open spec fn token_ok(t: Token) -> bool {
    match t {
        Token::Number(v) => is_masked(v),
        Token::Opcode(c) => true,
    }
}

/// Ring index of position `d` counted backward from the back, `d` taken
/// modulo 256: position 0 is the back, position 1 the register under it.
/// PUT stores at position `a` (its operand), PICK reads position `a + 1`
/// (so `PICK 0` reads the register just under its operand).
pub open spec fn from_back(d: int) -> int {
    255 - d % 256
}

/// A binary operator: pop `a`, then `b`, and push the result.
pub open spec fn is_binary(c: char) -> bool {
    c == 'd' || c == 'e' || c == 'f' || c == 'g' || c == 'h' || c == 'j' || c == 'k'
        || c == 'l' || c == 'm' || c == 'n' || c == 's' || c == 't' || c == 'u'
}

/// The result of binary operator `c` on `b` (next) and `a` (top).
pub open spec fn binary_result(c: char, b: i32, a: i32) -> i32 {
    if c == 'd' {
        ((b * a) % modulus()) as i32
    } else if c == 'e' {
        if a == 0 { 0 } else { (b as int / a as int) as i32 }
    } else if c == 'f' {
        ((b + a) % modulus()) as i32
    } else if c == 'g' {
        ((b - a) % modulus()) as i32
    } else if c == 'h' {
        if a == 0 { 0 } else { (b as int % a as int) as i32 }
    } else if c == 'j' {
        if a < 32 { ((b * pow2(a as nat)) % modulus()) as i32 } else { 0 }
    } else if c == 'k' {
        if a < 32 { (b as int / pow2(a as nat) as int) as i32 } else { 0 }
    } else if c == 'l' {
        (b & a) & MASK
    } else if c == 'm' {
        (b | a) & MASK
    } else if c == 'n' {
        (b ^ a) & MASK
    } else if c == 's' {
        if b < a { MASK } else { 0 }
    } else if c == 't' {
        if b > a { MASK } else { 0 }
    } else {
        if b == a { MASK } else { 0 }
    }
}

/// A binary operator consumes the top two values and leaves `r` on top:
/// `[.., b, a]` becomes `[b, .., r]`, the second operand wrapping to the front.
pub open spec fn consume_two(s: Seq<i32>, r: i32) -> Seq<i32> {
    seq![s[254]] + s.subrange(0, 254) + seq![r]
}

/// The ring after executing token `tok` at time `t`.
pub open spec fn step(s: Seq<i32>, tok: Token, t: i32) -> Seq<i32> {
    match tok {
        Token::Number(v) => push_spec(s, v),
        Token::Opcode(c) => {
            let a = s[255];
            let b = s[254];
            if c == 'a' {
                push_spec(s, t & MASK)
            } else if c == 'b' {
                rotate_right_spec(s.update(from_back(a as int), b))
            } else if c == 'c' {
                rotate_right_spec(s)
            } else if is_binary(c) {
                consume_two(s, binary_result(c, b, a))
            } else if c == 'o' {
                s.update(255, !a & MASK)
            } else if c == 'p' {
                push_spec(s, a)
            } else if c == 'q' {
                s.update(255, s[from_back(a + 1)])
            } else if c == 'r' {
                s.update(255, b).update(254, a)
            } else {
                s
            }
        },
    }
}

/// The ring after executing `prog` in order at time `t`.
pub open spec fn run(s: Seq<i32>, prog: Seq<Token>, t: i32) -> Seq<i32>
    decreases prog.len(),
{
    if prog.len() == 0 {
        s
    } else {
        step(run(s, prog.drop_last(), t), prog.last(), t)
    }
}

proof fn lemma_binary_masked(c: char, b: i32, a: i32)
    requires
        is_binary(c),
        is_masked(b),
        is_masked(a),
    ensures
        is_masked(binary_result(c, b, a)),
        binary_result(c, b, a) as int == binary_result(c, b, a),
{
    if c == 'l' {
        assert((b & a) & 0x7FFF_FFFFi32 >= 0) by (bit_vector);
    } else if c == 'm' {
        assert((b | a) & 0x7FFF_FFFFi32 >= 0) by (bit_vector);
    } else if c == 'n' {
        assert((b ^ a) & 0x7FFF_FFFFi32 >= 0) by (bit_vector);
    } else if c == 'k' && a < 32 {
        vstd::arithmetic::power2::lemma_pow2_pos(a as nat);
        vstd::arithmetic::div_mod::lemma_div_is_ordered_by_denominator(b as int, 1, pow2(a as nat) as int);
    } else if c == 'e' && a != 0 {
        vstd::arithmetic::div_mod::lemma_div_is_ordered_by_denominator(b as int, 1, a as int);
    } else if c == 'h' && a != 0 {
        vstd::arithmetic::div_mod::lemma_mod_pos_bound(b as int, a as int);
    }
}

/// Executes one token on the ring at time `t`.
pub fn exec_token(ring: &mut Ring, tok: Token, t: i32)
    requires
        old(ring).wf(),
        token_ok(tok),
    ensures
        final(ring).wf(),
        final(ring)@ == step(old(ring)@, tok, t),
{
    proof { ring.lemma_view(); }
    match tok {
        Token::Number(v) => ring.push(v),
        Token::Opcode(c) => {
            let a = ring.back();
            let b = ring.get(RING_LEN - 2);
            if c == 'a' {
                let v = t & MASK;
                assert(t & 0x7FFF_FFFFi32 >= 0) by (bit_vector);
                ring.push(v);
            } else if c == 'b' {
                let k = back_index(a as i64);
                ring.set(k, b);
                ring.rotate_right();
            } else if c == 'c' {
                ring.rotate_right();
            } else if is_binary_exec(c) {
                let r = binary_exec(c, b, a);
                ring.set(RING_LEN - 1, b);
                ring.rotate_right();
                ring.set(RING_LEN - 1, r);
                assert(ring@ =~= consume_two(old(ring)@, r));
            } else if c == 'o' {
                let v = !a & MASK;
                assert(!a & 0x7FFF_FFFFi32 >= 0) by (bit_vector);
                ring.set(RING_LEN - 1, v);
            } else if c == 'p' {
                ring.push(a);
            } else if c == 'q' {
                let k = back_index(a as i64 + 1);
                let v = ring.get(k);
                ring.set(RING_LEN - 1, v);
            } else if c == 'r' {
                ring.set(RING_LEN - 1, b);
                ring.set(RING_LEN - 2, a);
            }
        },
    }
}

fn back_index(d: i64) -> (i: usize)
    ensures
        i as int == from_back(d as int),
        i < RING_LEN,
{
    let m = d % 256;
    let r = if m < 0 { m + 256 } else { m };
    (255 - r) as usize
}

fn is_binary_exec(c: char) -> (b: bool)
    ensures
        b == is_binary(c),
{
    c == 'd' || c == 'e' || c == 'f' || c == 'g' || c == 'h' || c == 'j' || c == 'k'
        || c == 'l' || c == 'm' || c == 'n' || c == 's' || c == 't' || c == 'u'
}

/// Reduces a value that fits in 64 bits modulo `2^31`.
fn wrap(x: i64) -> (r: i32)
    ensures
        r as int == x as int % modulus(),
        is_masked(r),
{
    let m = x % 0x8000_0000i64;
    let v = if m < 0 { m + 0x8000_0000i64 } else { m };
    v as i32
}

fn binary_exec(c: char, b: i32, a: i32) -> (r: i32)
    requires
        is_binary(c),
        is_masked(b),
        is_masked(a),
    ensures
        r == binary_result(c, b, a),
        is_masked(r),
{
    proof { lemma_binary_masked(c, b, a); }
    if c == 'd' {
        assert(0 <= b as int * a as int <= 0x7FFF_FFFF * 0x7FFF_FFFF) by (nonlinear_arith)
            requires is_masked(b), is_masked(a), b <= 0x7FFF_FFFF, a <= 0x7FFF_FFFF;
        wrap(b as i64 * a as i64)
    } else if c == 'e' {
        if a == 0 { 0 } else { b / a }
    } else if c == 'f' {
        wrap(b as i64 + a as i64)
    } else if c == 'g' {
        wrap(b as i64 - a as i64)
    } else if c == 'h' {
        if a == 0 { 0 } else { b % a }
    } else if c == 'j' {
        if a < 32 {
            let x = b as u64;
            let n = a as u64;
            proof {
                lemma2_to64();
                lemma_pow2_strictly_increases(n as nat, 32);
                assert(x * pow2(n as nat) <= u64::MAX) by (nonlinear_arith)
                    requires x < 0x8000_0000, pow2(n as nat) < 0x1_0000_0000;
                lemma_u64_shl_is_mul(x, n);
                assert(x * pow2(n as nat) < 0x8000_0000 * 0x1_0000_0000) by (nonlinear_arith)
                    requires x < 0x8000_0000, pow2(n as nat) < 0x1_0000_0000;
            }
            let r = wrap((x << n) as i64);
            assert(r == binary_result(c, b, a));
            r
        } else {
            0
        }
    } else if c == 'k' {
        if a < 32 {
            let x = b as u64;
            let n = a as u64;
            proof {
                lemma_u64_shr_is_div(x, n);
                vstd::arithmetic::power2::lemma_pow2_pos(n as nat);
                vstd::arithmetic::div_mod::lemma_div_is_ordered_by_denominator(x as int, 1, pow2(n as nat) as int);
            }
            let r = (x >> n) as i32;
            assert(r == binary_result(c, b, a));
            r
        } else {
            0
        }
    } else if c == 'l' {
        (b & a) & MASK
    } else if c == 'm' {
        (b | a) & MASK
    } else if c == 'n' {
        (b ^ a) & MASK
    } else if c == 's' {
        if b < a { MASK } else { 0 }
    } else if c == 't' {
        if b > a { MASK } else { 0 }
    } else {
        if b == a { MASK } else { 0 }
    }
}

} // verus!
