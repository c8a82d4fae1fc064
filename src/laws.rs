use vstd::arithmetic::div_mod::lemma_mod_mod;
use vstd::prelude::*;

use crate::lexxon::Lexxon;
use crate::machine::{modulus, run, step, Token};
use crate::ring::{push_spec, MASK};

verus! {

/// A tick depends on nothing but the program, the ring before it and the
/// time: two sessions that agree on those end with the same ring and emit
/// the same value.
pub proof fn lemma_tick_deterministic(a: Lexxon, b: Lexxon, t: i32)
    requires
        a.tokens@ == b.tokens@,
        a.stack@ == b.stack@,
    ensures
        run(a.stack@, a.tokens@, t) == run(b.stack@, b.tokens@, t),
        run(a.stack@, a.tokens@, t).last() == run(b.stack@, b.tokens@, t).last(),
{
}

/// Every token keeps the ring at exactly 256 registers.
pub proof fn lemma_step_keeps_length(s: Seq<i32>, tok: Token, t: i32)
    requires
        s.len() == 256,
    ensures
        step(s, tok, t).len() == 256,
{
}

/// Any program, run from a ring of 256 registers, leaves 256 registers.
pub proof fn lemma_run_keeps_length(s: Seq<i32>, prog: Seq<Token>, t: i32)
    requires
        s.len() == 256,
    ensures
        run(s, prog, t).len() == 256,
    decreases prog.len(),
{
    if prog.len() > 0 {
        lemma_run_keeps_length(s, prog.drop_last(), t);
        lemma_step_keeps_length(run(s, prog.drop_last(), t), prog.last(), t);
    }
}

proof fn lemma_run_three(s: Seq<i32>, x: Token, y: Token, z: Token, t: i32)
    ensures
        run(s, seq![x, y, z], t) == step(step(step(s, x, t), y, t), z, t),
{
    let p = seq![x, y, z];
    assert(p.drop_last() =~= seq![x, y]);
    assert(seq![x, y].drop_last() =~= seq![x]);
    assert(seq![x].drop_last() =~= Seq::<Token>::empty());
    assert(p.drop_last().drop_last() =~= seq![x]);
    assert(p.drop_last().drop_last().drop_last() =~= Seq::<Token>::empty());
    assert(run(s, Seq::<Token>::empty(), t) == s);
    assert(seq![x].last() == x);
    assert(seq![x, y].last() == y);
    assert(p.last() == z);
    assert(run(s, seq![x], t) == step(s, x, t));
    assert(run(s, seq![x, y], t) == step(step(s, x, t), y, t));
}

/// Pushing the time then the literal 0 and dividing emits 0, whatever the
/// time and the ring: division by zero yields 0.
pub proof fn lemma_divide_by_zero_emits_zero(s: Seq<i32>, t: i32)
    requires
        s.len() == 256,
    ensures
        run(s, seq![Token::Opcode('a'), Token::Number(0), Token::Opcode('e')], t).last() == 0,
{
    lemma_run_three(s, Token::Opcode('a'), Token::Number(0), Token::Opcode('e'), t);
}

/// Pushing the time then the literal 2 and adding emits `(t + 2) mod 256`
/// as its low byte: the mask keeps the sum modulo `2^31`, a multiple of 256.
pub proof fn lemma_add_two_byte(s: Seq<i32>, t: i32)
    requires
        s.len() == 256,
    ensures
        run(s, seq![Token::Opcode('a'), Token::Number(2), Token::Opcode('f')], t).last() % 256 == (
        t + 2) % 256,
{
    lemma_run_three(s, Token::Opcode('a'), Token::Number(2), Token::Opcode('f'), t);
    let m = t & MASK;
    lemma_masked_time(t);
    let s1 = push_spec(s, m);
    let s2 = push_spec(s1, 2);
    assert(s2[254] == m && s2[255] == 2);
    lemma_mod_mod(m + 2, 256, 0x80_0000);
    assert((m + 2) % modulus() % 256 == (m + 2) % 256);
    assert((m + 2) % 256 == (t + 2) % 256) by {
        vstd::arithmetic::div_mod::lemma_add_mod_noop(m as int, 2, 256);
        vstd::arithmetic::div_mod::lemma_add_mod_noop(t as int, 2, 256);
    }
}

/// Pushing the time alone emits the low byte of the time.
pub proof fn lemma_time_byte(s: Seq<i32>, t: i32)
    requires
        s.len() == 256,
    ensures
        run(s, seq![Token::Opcode('a')], t).last() % 256 == t % 256,
{
    let p = seq![Token::Opcode('a')];
    assert(p.drop_last() =~= Seq::<Token>::empty());
    assert(run(s, Seq::<Token>::empty(), t) == s);
    assert(p.last() == Token::Opcode('a'));
    lemma_masked_time(t);
}

proof fn lemma_masked_time(t: i32)
    ensures
        0 <= t & MASK,
        (t & MASK) as int % 256 == t as int % 256,
        (t & MASK) < modulus() - 2 ==> ((t & MASK) + 2) % modulus() == (t & MASK) + 2,
{
    assert(0 <= t & 0x7FFF_FFFFi32) by (bit_vector);
    assert((t & 0x7FFF_FFFFi32) & 0xFFi32 == t & 0xFFi32) by (bit_vector);
    assert(t >= 0 ==> t & 0x7FFF_FFFFi32 == t) by (bit_vector);
    assert(t < 0 ==> (t & 0x7FFF_FFFFi32) as int == t as int + 0x8000_0000) by (bit_vector);
}

} // verus!
