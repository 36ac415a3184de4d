//! The cipher state and the operations on it.

use crate::stream::{
    advance, applied, fresh, lemma_advance_part, lemma_advance_within, lemma_advance_words,
    lemma_applied_all, lemma_applied_next, lemma_applied_none, lemma_byte_in_word,
    lemma_byte_pending, blank, right_anchored, xor_stream, Stream,
};
use crate::tables::{expand, loaded, output, run, slot, spec_g, spec_h, step, word_at, Tables};
use crate::wipe::{wipe_bytes, wipe_count, wipe_words};
use crate::word::{f1, f2, from_le_bytes, le_bytes, rotate_right, to_le_bytes};
use vstd::prelude::*;

verus! {

/// An HC-256 cipher state: the two tables, the position in the cycle, and
/// up to three generated bytes that no caller has consumed yet, held at the
/// end of `r`.
pub struct BufHc256 {
    p: [u32; 1024],
    q: [u32; 1024],
    i: usize,
    r: [u8; 3],
    c: usize,
}

impl View for BufHc256 {
    type V = Stream;

    /// The keystream position that the state stands for.
    closed spec fn view(&self) -> Stream {
        Stream { tables: self.tables(), pending: self.r@.skip(3 - self.c) }
    }
}

impl BufHc256 {
    /// The position is inside the cycle, at most three bytes are pending,
    /// and every byte of `r` in front of the pending ones is zero.
    #[verifier::type_invariant]
    closed spec fn inv(self) -> bool {
        &&& self.i < 2048
        &&& self.c <= 3
        &&& forall|k: int| 0 <= k < 3 - self.c ==> self.r@[k] == 0
    }

    /// The pending buffer as it lies in memory.
    pub closed spec fn carry(&self) -> Seq<u8> {
        self.r@
    }

    /// What the type invariant means for the view: the stream is well
    /// formed, and the buffer holds the pending bytes at its end and zero
    /// in front of them.
    proof fn lemma_inv(&self)
        requires
            self.inv(),
        ensures
            self@.wf(),
            self.carry() == right_anchored(self@.pending),
    {
        assert(self.carry() =~= right_anchored(self@.pending));
    }

    /// The generator's tables and position.
    pub closed spec fn tables(&self) -> Tables {
        Tables { p: self.p@, q: self.q@, index: self.i as nat }
    }

    /// A cipher at the start of the keystream of `k` and `iv`.
    pub fn new(k: &[u8; 32], iv: &[u8; 32]) -> (cipher: Self)
        ensures
            cipher@ == fresh(k@, iv@),
            cipher@.wf(),
            cipher.carry() == right_anchored(cipher@.pending),
    {
        let mut cipher = BufHc256 { p: [0; 1024], q: [0; 1024], i: 0, r: [0; 3], c: 0 };
        cipher.set_cipher_tables(k, iv);
        proof {
            use_type_invariant(&cipher);
            cipher.lemma_inv();
        }
        cipher
    }

    /// Expands `k` and `iv` into the scratch `w`, copies the two tables out
    /// of it and erases it: `w` is zero again when the call returns.
    fn load_tables(&mut self, w: &mut [u32; 2560], k: &[u8; 32], iv: &[u8; 32])
        ensures
            final(self).p@ == loaded(k@, iv@).p,
            final(self).q@ == loaded(k@, iv@).q,
            final(self).i == old(self).i,
            final(self).r == old(self).r,
            final(self).c == old(self).c,
            forall|m: int| 0 <= m < 2560 ==> final(w)@[m] == 0,
    {
        proof {
            use_type_invariant(&*self);
        }
        let mut n: usize = 0;
        while n < 8
            invariant
                n <= 8,
                forall|m: int| 0 <= m < n ==> w@[m] == expand(k@, iv@, m as nat),
                forall|m: int| 8 <= m < 8 + n ==> w@[m] == expand(k@, iv@, m as nat),
            decreases 8 - n,
        {
            w[n] = from_le_bytes(k, 4 * n);
            w[n + 8] = from_le_bytes(iv, 4 * n);
            n += 1;
        }
        let mut n: usize = 16;
        while n < 2560
            invariant
                16 <= n <= 2560,
                forall|m: int| 0 <= m < n ==> w@[m] == expand(k@, iv@, m as nat),
            decreases 2560 - n,
        {
            w[n] = f2(w[n - 2]).wrapping_add(w[n - 7]).wrapping_add(f1(w[n - 15])).wrapping_add(
                w[n - 16],
            ).wrapping_add(n as u32);
            n += 1;
        }
        let mut n: usize = 0;
        while n < 1024
            invariant
                n <= 1024,
                self.inv(),
                self.i == old(self).i,
                self.r == old(self).r,
                self.c == old(self).c,
                forall|m: int| 0 <= m < 2560 ==> w@[m] == expand(k@, iv@, m as nat),
                forall|m: int| 0 <= m < n ==> self.p@[m] == w@[512 + m],
                forall|m: int| 0 <= m < n ==> self.q@[m] == w@[1536 + m],
            decreases 1024 - n,
        {
            self.p[n] = w[512 + n];
            self.q[n] = w[1536 + n];
            n += 1;
        }
        assert(self.p@ =~= loaded(k@, iv@).p);
        assert(self.q@ =~= loaded(k@, iv@).q);
        wipe_words(w);
    }

    /// Loads the tables from the expansion of `k` and `iv`, discards the
    /// warm-up words and drops whatever was pending. The expansion is
    /// erased before the warm-up starts.
    fn set_cipher_tables(&mut self, k: &[u8; 32], iv: &[u8; 32])
        ensures
            final(self)@ == fresh(k@, iv@),
            final(self).c == 0,
    {
        let mut w: [u32; 2560] = [0; 2560];
        self.load_tables(&mut w, k, iv);
        assert(forall|m: int| 0 <= m < 2560 ==> w@[m] == 0);
        proof {
            use_type_invariant(&*self);
        }
        wipe_bytes(&mut self.r);
        self.c = 0;
        self.i = 0;
        assert(self.tables() =~~= loaded(k@, iv@));
        let mut n: usize = 0;
        while n < 4096
            invariant
                n <= 4096,
                self.inv(),
                self.c == 0,
                self.tables() == run(loaded(k@, iv@), n as nat),
            decreases 4096 - n,
        {
            self.gen_word();
            n += 1;
        }
        wipe_count(&mut self.i);
        assert(self@ =~~= fresh(k@, iv@));
    }

    /// Puts the cipher at byte `offset` of the keystream of `k` and `iv`,
    /// without handing out the bytes in front of it.
    pub fn set_state(&mut self, k: &[u8; 32], iv: &[u8; 32], offset: usize)
        ensures
            final(self)@ == advance(fresh(k@, iv@), offset as nat),
            final(self)@.wf(),
            final(self).carry() == right_anchored(final(self)@.pending),
    {
        self.set_cipher_tables(k, iv);
        proof {
            use_type_invariant(&*self);
        }
        let ghost t0 = self.tables();
        let full: usize = offset / 4;
        let mut n: usize = 0;
        while n < full
            invariant
                n <= full,
                self.inv(),
                self.c == 0,
                self.tables() == run(t0, n as nat),
            decreases full - n,
        {
            self.gen_word();
            n += 1;
        }
        let rem: usize = offset % 4;
        if rem > 0 {
            let word: [u8; 4] = to_le_bytes(self.gen_word());
            let ghost w = word_at(t0, full as nat);
            if rem == 3 {
                self.c = 1;
                self.r = [0, 0, word[3]];
                assert(self@.pending =~= le_bytes(w).skip(3));
            } else if rem == 2 {
                self.c = 2;
                self.r = [0, word[2], word[3]];
                assert(self@.pending =~= le_bytes(w).skip(2));
            } else {
                self.c = 3;
                self.r = [word[1], word[2], word[3]];
                assert(self@.pending =~= le_bytes(w).skip(1));
            }
            proof {
                lemma_advance_part(fresh(k@, iv@), full as nat, rem as nat);
            }
        } else {
            proof {
                lemma_advance_words(fresh(k@, iv@), full as nat);
            }
        }
        proof {
            self.lemma_inv();
        }
    }

    /// Combines `dest` in place with the next `dest.len()` keystream bytes
    /// by exclusive-or, and moves the cipher past them.
    pub fn apply_stream(&mut self, dest: &mut [u8])
        ensures
            final(dest)@ == xor_stream(old(self)@, old(dest)@),
            final(self)@ == advance(old(self)@, old(dest)@.len()),
            final(self)@.wf(),
            final(self).carry() == right_anchored(final(self)@.pending),
    {
        proof {
            use_type_invariant(&*self);
        }
        let ghost s0 = self@;
        let ghost d0 = dest@;
        let ghost t0 = self.tables();
        let ghost r0 = self.r@;
        let mut dlen: usize = dest.len();
        let c0: usize = self.c;
        let mut pad_i: usize = 0;
        proof {
            lemma_applied_none(s0, d0);
        }
        if self.c >= dlen {
            let mut i: usize = 3 - self.c;
            while pad_i < dlen
                invariant
                    self.inv(),
                    self.c == c0,
                    self.tables() == t0,
                    dlen <= c0 <= 3,
                    pad_i <= dlen,
                    i == 3 - c0 + pad_i,
                    dest@.len() == d0.len() == dlen,
                    s0.pending == r0.skip(3 - c0),
                    r0.len() == 3,
                    forall|k: int| i <= k < 3 ==> self.r@[k] == r0[k],
                    forall|k: int| 0 <= k < i ==> self.r@[k] == 0,
                    applied(s0, d0, dest@, pad_i as int),
                decreases dlen - pad_i,
            {
                proof {
                    lemma_byte_pending(s0, pad_i as nat);
                    lemma_applied_next(s0, d0, dest@, pad_i as int, self.r@[i as int]);
                }
                dest[pad_i] ^= self.r[i];
                self.r[i] = 0;
                pad_i += 1;
                i += 1;
            }
            self.c -= dlen;
            proof {
                lemma_applied_all(s0, d0, dest@);
                lemma_advance_within(s0, dlen as nat);
                assert(self@.pending =~= s0.pending.skip(dlen as int));
                self.lemma_inv();
            }
            return ;
        } else {
            let mut i: usize = 3 - self.c;
            while i < 3
                invariant
                    self.inv(),
                    self.c == c0,
                    self.tables() == t0,
                    c0 < dlen,
                    c0 <= 3,
                    i <= 3,
                    i == 3 - c0 + pad_i,
                    dest@.len() == d0.len() == dlen,
                    s0.pending == r0.skip(3 - c0),
                    r0.len() == 3,
                    forall|k: int| i <= k < 3 ==> self.r@[k] == r0[k],
                    forall|k: int| 0 <= k < i ==> self.r@[k] == 0,
                    applied(s0, d0, dest@, pad_i as int),
                decreases 3 - i,
            {
                proof {
                    lemma_byte_pending(s0, pad_i as nat);
                    lemma_applied_next(s0, d0, dest@, pad_i as int, self.r@[i as int]);
                }
                dest[pad_i] ^= self.r[i];
                self.r[i] = 0;
                pad_i += 1;
                i += 1;
            }
            self.c = 0;
        }
        dlen -= pad_i;
        let mut ifull: usize = dlen / 4;
        let mut pad: usize = dlen % 4;
        let mut i: usize = 0;
        while i < ifull
            invariant
                self.inv(),
                self.c == 0,
                i <= ifull,
                dest@.len() == d0.len() <= usize::MAX,
                pad_i == s0.pending.len(),
                ifull * 4 + pad + pad_i == d0.len(),
                pad < 4,
                self.tables() == run(t0, i as nat),
                t0 == s0.tables,
                forall|k: int| 0 <= k < 3 ==> self.r@[k] == 0,
                applied(s0, d0, dest@, pad_i + 4 * i),
            decreases ifull - i,
        {
            let mut word: [u8; 4] = to_le_bytes(self.gen_word());
            let o: usize = (i * 4) + pad_i;
            proof {
                lemma_byte_in_word(s0, i as nat, 0);
                lemma_byte_in_word(s0, i as nat, 1);
                lemma_byte_in_word(s0, i as nat, 2);
                lemma_byte_in_word(s0, i as nat, 3);
                lemma_applied_next(s0, d0, dest@, o as int, word@[0]);
            }
            dest[o] ^= word[0];
            proof {
                lemma_applied_next(s0, d0, dest@, o + 1, word@[1]);
            }
            dest[o + 1] ^= word[1];
            proof {
                lemma_applied_next(s0, d0, dest@, o + 2, word@[2]);
            }
            dest[o + 2] ^= word[2];
            proof {
                lemma_applied_next(s0, d0, dest@, o + 3, word@[3]);
            }
            dest[o + 3] ^= word[3];
            wipe_bytes(&mut word);
            assert(forall|m: int| 0 <= m < 4 ==> word@[m] == 0);
            i += 1;
        }
        if pad != 0 {
            let mut word: [u8; 4] = to_le_bytes(self.gen_word());
            let o: usize = (ifull * 4) + pad_i;
            let ghost w = word_at(t0, ifull as nat);
            proof {
                lemma_byte_in_word(s0, ifull as nat, 0);
                lemma_byte_in_word(s0, ifull as nat, 1);
                lemma_byte_in_word(s0, ifull as nat, 2);
                lemma_applied_next(s0, d0, dest@, o as int, word@[0]);
            }
            if pad == 3 {
                dest[o] ^= word[0];
                proof {
                    lemma_applied_next(s0, d0, dest@, o + 1, word@[1]);
                }
                dest[o + 1] ^= word[1];
                proof {
                    lemma_applied_next(s0, d0, dest@, o + 2, word@[2]);
                }
                dest[o + 2] ^= word[2];
                self.c = 1;
                self.r = [0, 0, word[3]];
                assert(self@.pending =~= le_bytes(w).skip(3));
                proof {
                    lemma_advance_part(s0, ifull as nat, 3);
                }
            } else if pad == 2 {
                dest[o] ^= word[0];
                proof {
                    lemma_applied_next(s0, d0, dest@, o + 1, word@[1]);
                }
                dest[o + 1] ^= word[1];
                self.c = 2;
                self.r = [0, word[2], word[3]];
                assert(self@.pending =~= le_bytes(w).skip(2));
                proof {
                    lemma_advance_part(s0, ifull as nat, 2);
                }
            } else {
                dest[o] ^= word[0];
                self.c = 3;
                self.r = [word[1], word[2], word[3]];
                assert(self@.pending =~= le_bytes(w).skip(1));
                proof {
                    lemma_advance_part(s0, ifull as nat, 1);
                }
            }
            wipe_bytes(&mut word);
            assert(forall|m: int| 0 <= m < 4 ==> word@[m] == 0);
        } else {
            wipe_bytes(&mut self.r);
            assert(self@.pending =~= Seq::<u8>::empty());
            proof {
                lemma_advance_words(s0, ifull as nat);
            }
        }
        proof {
            lemma_applied_all(s0, d0, dest@);
            self.lemma_inv();
        }
        wipe_count(&mut dlen);
        wipe_count(&mut ifull);
        wipe_count(&mut pad);
        assert(dlen == 0 && ifull == 0 && pad == 0);
    }

    /// Overwrites the tables, the position and the pending bytes with zero.
    pub fn zeroize(&mut self)
        ensures
            final(self)@ == blank(),
            final(self).carry() == right_anchored(final(self)@.pending),
        opens_invariants none
        no_unwind
    {
        proof {
            use_type_invariant(&*self);
        }
        wipe_words(&mut self.p);
        wipe_words(&mut self.q);
        wipe_bytes(&mut self.r);
        wipe_count(&mut self.i);
        wipe_count(&mut self.c);
        proof {
            assert(self@ =~~= blank());
            self.lemma_inv();
        }
    }

    /// Tells whether every word, byte and counter of the state is zero.
    pub fn is_zeroized(&self) -> (wiped: bool)
        ensures
            wiped == (self@ == blank()),
    {
        proof {
            use_type_invariant(self);
        }
        if self.i != 0 || self.c != 0 {
            assert(self@.tables.index != 0 || self@.pending.len() != 0);
            return false;
        }
        let mut n: usize = 0;
        while n < 1024
            invariant
                n <= 1024,
                self.i == 0,
                self.c == 0,
                forall|m: int| 0 <= m < n ==> self.p@[m] == 0 && self.q@[m] == 0,
            decreases 1024 - n,
        {
            if self.p[n] != 0 || self.q[n] != 0 {
                assert(self@.tables.p[n as int] != 0 || self@.tables.q[n as int] != 0);
                return false;
            }
            n += 1;
        }
        assert(self@ =~~= blank());
        self.r[0] == 0 && self.r[1] == 0 && self.r[2] == 0
    }

    /// The table slots that the next step reads and writes: the current
    /// one, then those 3, 10 and 12 places back and the one ahead.
    fn offsets(&self) -> (o: (usize, usize, usize, usize, usize))
        ensures
            o.0 == slot(self.i as int),
            o.1 == slot(self.i - 3),
            o.2 == slot(self.i - 10),
            o.3 == slot(self.i - 12),
            o.4 == slot(self.i + 1),
    {
        proof {
            use_type_invariant(self);
        }
        let i: usize = self.i;
        let a: usize = i.wrapping_sub(3);
        let b: usize = i.wrapping_sub(10);
        let c: usize = i.wrapping_sub(12);
        let d: usize = i.wrapping_add(1);
        assert(i & 1023 == i % 1024) by (bit_vector);
        assert(a & 1023 == a % 1024) by (bit_vector);
        assert(b & 1023 == b % 1024) by (bit_vector);
        assert(c & 1023 == c % 1024) by (bit_vector);
        assert(d & 1023 == d % 1024) by (bit_vector);
        (i & 1023, a & 1023, b & 1023, c & 1023, d & 1023)
    }

    /// The feedback function for a step on `p`; it draws on `q`.
    fn g1(&self, x: u32, y: u32) -> (r: u32)
        ensures
            r == spec_g(self.q@, x, y),
    {
        let at: usize = (x ^ y) as usize & 1023;
        assert(((x ^ y) as usize & 1023) == ((x ^ y) & 0x3ff) as usize && ((x ^ y) & 0x3ff) < 1024)
            by (bit_vector);
        (rotate_right(x, 10) ^ rotate_right(y, 23)).wrapping_add(self.q[at])
    }

    /// The feedback function for a step on `q`; it draws on `p`.
    fn g2(&self, x: u32, y: u32) -> (r: u32)
        ensures
            r == spec_g(self.p@, x, y),
    {
        let at: usize = (x ^ y) as usize & 1023;
        assert(((x ^ y) as usize & 1023) == ((x ^ y) & 0x3ff) as usize && ((x ^ y) & 0x3ff) < 1024)
            by (bit_vector);
        (rotate_right(x, 10) ^ rotate_right(y, 23)).wrapping_add(self.p[at])
    }

    /// The output filter for a step on `p`; it draws on `q`.
    fn h1(&self, x: u32) -> (r: u32)
        ensures
            r == spec_h(self.q@, x),
    {
        assert((x & 0xff) < 256 && ((x >> 8) & 0xff) < 256 && ((x >> 16) & 0xff) < 256 && ((x
            >> 24) & 0xff) < 256) by (bit_vector);
        self.q[(x & 0xff) as usize].wrapping_add(
            self.q[256 + ((x >> 8) & 0xff) as usize],
        ).wrapping_add(self.q[512 + ((x >> 16) & 0xff) as usize]).wrapping_add(
            self.q[768 + ((x >> 24) & 0xff) as usize],
        )
    }

    /// The output filter for a step on `q`; it draws on `p`.
    fn h2(&self, x: u32) -> (r: u32)
        ensures
            r == spec_h(self.p@, x),
    {
        assert((x & 0xff) < 256 && ((x >> 8) & 0xff) < 256 && ((x >> 16) & 0xff) < 256 && ((x
            >> 24) & 0xff) < 256) by (bit_vector);
        self.p[(x & 0xff) as usize].wrapping_add(
            self.p[256 + ((x >> 8) & 0xff) as usize],
        ).wrapping_add(self.p[512 + ((x >> 16) & 0xff) as usize]).wrapping_add(
            self.p[768 + ((x >> 24) & 0xff) as usize],
        )
    }

    /// Produces the next keystream word and moves the generator one step.
    fn gen_word(&mut self) -> (w: u32)
        ensures
            w == output(old(self).tables()),
            final(self).tables() == step(old(self).tables()),
            final(self).r == old(self).r,
            final(self).c == old(self).c,
    {
        proof {
            use_type_invariant(&*self);
        }
        let i: usize = self.i;
        let (j, j3, j10, j12, j1023) = self.offsets();
        let next: usize = (self.i + 1) & (2048 - 1);
        assert((i + 1) as usize & 2047 == (i + 1) as usize % 2048) by (bit_vector);
        self.i = next;
        if i < 1024 {
            let fb: u32 = self.p[j].wrapping_add(self.p[j10]).wrapping_add(
                self.g1(self.p[j3], self.p[j1023]),
            );
            self.p[j] = fb;
            self.h1(self.p[j12]) ^ self.p[j]
        } else {
            let fb: u32 = self.q[j].wrapping_add(self.q[j10]).wrapping_add(
                self.g2(self.q[j3], self.q[j1023]),
            );
            self.q[j] = fb;
            self.h2(self.q[j12]) ^ self.q[j]
        }
    }
}

impl Drop for BufHc256 {
    /// Erases the state before its memory is released: every table word,
    /// the position, the pending count and the pending buffer are zero.
    fn drop(&mut self)
        ensures
            final(self)@ == blank(),
            final(self).carry() == right_anchored(final(self)@.pending),
        opens_invariants none
        no_unwind
    {
        self.zeroize();
    }
}

} // verus!
