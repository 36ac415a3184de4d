//! The mathematical model of the generator: two tables of 1024 words, a
//! position in the 2048-step cycle, the step that produces one keystream
//! word, and the expansion of a key and an IV into the first tables.

use crate::word::{add32, le_word, rotr, spec_f1, spec_f2};
use vstd::prelude::*;

verus! {

/// Working memory of the generator.
#[verifier::ext_equal]
pub struct Tables {
    pub p: Seq<u32>,
    pub q: Seq<u32>,
    pub index: nat,
}

impl Tables {
    /// Both tables hold 1024 words and the position lies inside the cycle.
    pub open spec fn wf(self) -> bool {
        &&& self.p.len() == 1024
        &&& self.q.len() == 1024
        &&& self.index < 2048
    }
}

/// `i` reduced into the index range of a table; defined for negative `i` too.
pub open spec fn slot(i: int) -> int {
    i % 1024
}

/// The feedback function: mixes two words of the active table with one
/// word of the other table, which the two select together.
pub open spec fn spec_g(feeder: Seq<u32>, x: u32, y: u32) -> u32 {
    add32(rotr(x, 10) ^ rotr(y, 23), feeder[((x ^ y) & 0x3ff) as int])
}

/// The output filter: each byte of `x` selects one word from a quarter of
/// the other table.
pub open spec fn spec_h(feeder: Seq<u32>, x: u32) -> u32 {
    add32(
        add32(
            add32(feeder[(x & 0xff) as int], feeder[256 + ((x >> 8) & 0xff)]),
            feeder[512 + ((x >> 16) & 0xff)],
        ),
        feeder[768 + ((x >> 24) & 0xff)],
    )
}

/// The new value of entry `slot(i)` of the active table.
pub open spec fn feedback(active: Seq<u32>, feeder: Seq<u32>, i: int) -> u32 {
    add32(
        add32(active[slot(i)], active[slot(i - 10)]),
        spec_g(feeder, active[slot(i - 3)], active[slot(i + 1)]),
    )
}

/// The tables after one generator step.
pub open spec fn step(t: Tables) -> Tables {
    let i = t.index as int;
    let next = ((t.index + 1) % 2048) as nat;
    if t.index < 1024 {
        Tables { p: t.p.update(slot(i), feedback(t.p, t.q, i)), q: t.q, index: next }
    } else {
        Tables { p: t.p, q: t.q.update(slot(i), feedback(t.q, t.p, i)), index: next }
    }
}

/// The keystream word that the step from `t` produces.
pub open spec fn output(t: Tables) -> u32 {
    let i = t.index as int;
    let s = step(t);
    if t.index < 1024 {
        spec_h(s.q, s.p[slot(i - 12)]) ^ s.p[slot(i)]
    } else {
        spec_h(s.p, s.q[slot(i - 12)]) ^ s.q[slot(i)]
    }
}

/// The tables after `n` generator steps.
pub open spec fn run(t: Tables, n: nat) -> Tables
    decreases n,
{
    if n == 0 {
        t
    } else {
        step(run(t, (n - 1) as nat))
    }
}

/// Keystream word number `n`, counted from the position of `t`.
pub open spec fn word_at(t: Tables, n: nat) -> u32 {
    output(run(t, n))
}

/// Word `i` of the 2560-word expansion of a key and an IV.
pub open spec fn expand(key: Seq<u8>, iv: Seq<u8>, i: nat) -> u32
    decreases i,
{
    if i < 8 {
        le_word(key, 4 * (i as int))
    } else if i < 16 {
        le_word(iv, 4 * (i - 8))
    } else {
        add32(
            add32(
                add32(
                    add32(spec_f2(expand(key, iv, (i - 2) as nat)), expand(key, iv, (i - 7) as nat)),
                    spec_f1(expand(key, iv, (i - 15) as nat)),
                ),
                expand(key, iv, (i - 16) as nat),
            ),
            i as u32,
        )
    }
}

/// The tables as loaded from the expansion, before the warm-up.
pub open spec fn loaded(key: Seq<u8>, iv: Seq<u8>) -> Tables {
    Tables {
        p: Seq::new(1024, |k: int| expand(key, iv, (512 + k) as nat)),
        q: Seq::new(1024, |k: int| expand(key, iv, (1536 + k) as nat)),
        index: 0,
    }
}

/// The tables of a fresh cipher: loaded, run through 4096 discarded steps,
/// and set back to the start of the cycle.
pub open spec fn initial(key: Seq<u8>, iv: Seq<u8>) -> Tables {
    let warm = run(loaded(key, iv), 4096);
    Tables { p: warm.p, q: warm.q, index: 0 }
}

/// A step keeps the tables well formed.
pub proof fn lemma_step_wf(t: Tables)
    requires
        t.wf(),
    ensures
        step(t).wf(),
{
}

/// Any number of steps keeps the tables well formed.
pub proof fn lemma_run_wf(t: Tables, n: nat)
    requires
        t.wf(),
    ensures
        run(t, n).wf(),
    decreases n,
{
    if n > 0 {
        lemma_run_wf(t, (n - 1) as nat);
        lemma_step_wf(run(t, (n - 1) as nat));
    }
}

/// Running `a` steps and then `b` more is running `a + b` steps.
pub proof fn lemma_run_run(t: Tables, a: nat, b: nat)
    ensures
        run(run(t, a), b) == run(t, a + b),
    decreases b,
{
    if b > 0 {
        lemma_run_run(t, a, (b - 1) as nat);
        assert(run(t, a + b) == step(run(t, (a + b - 1) as nat)));
    }
}

} // verus!
