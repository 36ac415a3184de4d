//! The mathematical model of a cipher state as a caller sees it: the
//! keystream bytes that lie ahead of it.

use crate::tables::{initial, lemma_run_run, run, word_at, Tables};
use crate::word::{le_byte, le_bytes};
use vstd::prelude::*;

verus! {

/// A position in a keystream: the generator's tables, and in front of them
/// the bytes of the last generated word that no caller has consumed yet, in
/// the order in which they will be delivered.
#[verifier::ext_equal]
pub struct Stream {
    pub tables: Tables,
    pub pending: Seq<u8>,
}

impl Stream {
    /// The tables are well formed and at most three bytes are pending.
    pub open spec fn wf(self) -> bool {
        &&& self.tables.wf()
        &&& self.pending.len() <= 3
    }
}

/// The stream of an erased cipher: every table word zero, the position at
/// the start of the cycle, nothing pending.
pub open spec fn blank() -> Stream {
    Stream {
        tables: Tables {
            p: Seq::new(1024, |k: int| 0u32),
            q: Seq::new(1024, |k: int| 0u32),
            index: 0,
        },
        pending: Seq::empty(),
    }
}

/// The three-byte buffer that holds `pending` at its end and zero in front.
pub open spec fn right_anchored(pending: Seq<u8>) -> Seq<u8> {
    Seq::new(3, |k: int| if k < 3 - pending.len() { 0u8 } else { pending[k - (3 - pending.len())] })
}

/// The stream of a cipher that was just made from a key and an IV.
pub open spec fn fresh(key: Seq<u8>, iv: Seq<u8>) -> Stream {
    Stream { tables: initial(key, iv), pending: Seq::empty() }
}

/// Keystream byte number `k`, counted from the position of `s`.
#[verifier::opaque]
pub open spec fn byte_at(s: Stream, k: nat) -> u8 {
    if k < s.pending.len() {
        s.pending[k as int]
    } else {
        let m = k - s.pending.len();
        le_byte(word_at(s.tables, (m / 4) as nat), m % 4)
    }
}

/// The stream after `n` of its bytes were consumed.
#[verifier::opaque]
pub open spec fn advance(s: Stream, n: nat) -> Stream {
    if n <= s.pending.len() {
        Stream { tables: s.tables, pending: s.pending.skip(n as int) }
    } else {
        let m = (n - s.pending.len()) as nat;
        if m % 4 == 0 {
            Stream { tables: run(s.tables, m / 4), pending: Seq::empty() }
        } else {
            Stream {
                tables: run(s.tables, m / 4 + 1),
                pending: le_bytes(word_at(s.tables, m / 4)).skip((m % 4) as int),
            }
        }
    }
}

/// `data` combined by exclusive-or with the keystream that starts at `s`.
pub open spec fn xor_stream(s: Stream, data: Seq<u8>) -> Seq<u8> {
    Seq::new(data.len(), |k: int| data[k] ^ byte_at(s, k as nat))
}

/// `d` is `d0` with its first `upto` bytes combined with the keystream
/// that starts at `s`, and the rest untouched.
#[verifier::opaque]
pub(crate) closed spec fn applied(s: Stream, d0: Seq<u8>, d: Seq<u8>, upto: int) -> bool {
    &&& d.len() == d0.len()
    &&& 0 <= upto <= d.len()
    &&& forall|k: int| 0 <= k < upto ==> d[k] == d0[k] ^ byte_at(s, k as nat)
    &&& forall|k: int| upto <= k < d.len() ==> d[k] == d0[k]
}

/// Before anything was combined, the buffer is the input.
pub(crate) proof fn lemma_applied_none(s: Stream, d0: Seq<u8>)
    ensures
        applied(s, d0, d0, 0),
{
    reveal(applied);
}

/// Combining the next byte with its keystream byte extends the part done.
pub(crate) proof fn lemma_applied_next(s: Stream, d0: Seq<u8>, d: Seq<u8>, upto: int, key_byte: u8)
    requires
        applied(s, d0, d, upto),
        upto < d0.len(),
        key_byte == byte_at(s, upto as nat),
    ensures
        applied(s, d0, d.update(upto, d[upto] ^ key_byte), upto + 1),
{
    reveal(applied);
}

/// When every byte was combined, the buffer is the output.
pub(crate) proof fn lemma_applied_all(s: Stream, d0: Seq<u8>, d: Seq<u8>)
    requires
        applied(s, d0, d, d0.len() as int),
    ensures
        d == xor_stream(s, d0),
{
    reveal(applied);
    assert(d =~= xor_stream(s, d0));
}

/// Past the pending bytes, byte `b` of generated word `w` is keystream
/// byte number `pending.len() + 4 * w + b`.
pub proof fn lemma_byte_in_word(s: Stream, w: nat, b: nat)
    requires
        b < 4,
    ensures
        byte_at(s, s.pending.len() + 4 * w + b) == le_byte(word_at(s.tables, w), b as int),
{
    reveal(byte_at);
    let m = 4 * w + b;
    assert(m / 4 == w && m % 4 == b);
}

/// The first keystream bytes are the pending ones.
pub proof fn lemma_byte_pending(s: Stream, k: nat)
    requires
        k < s.pending.len(),
    ensures
        byte_at(s, k) == s.pending[k as int],
{
    reveal(byte_at);
}

/// Consuming no more than is pending leaves the tables alone.
pub proof fn lemma_advance_within(s: Stream, n: nat)
    requires
        n <= s.pending.len(),
    ensures
        advance(s, n) == (Stream { tables: s.tables, pending: s.pending.skip(n as int) }),
{
    reveal(advance);
}

/// Consuming the pending bytes and `full` whole words after them leaves
/// nothing pending.
pub proof fn lemma_advance_words(s: Stream, full: nat)
    ensures
        advance(s, s.pending.len() + 4 * full) == (Stream {
            tables: run(s.tables, full),
            pending: Seq::empty(),
        }),
{
    reveal(advance);
    let m = 4 * full;
    assert(m / 4 == full && m % 4 == 0);
    if full == 0 {
        assert(s.pending.skip(s.pending.len() as int) =~= Seq::<u8>::empty());
    }
}

/// Consuming the pending bytes, `full` whole words and `part` bytes of the
/// next word leaves the rest of that word pending.
pub proof fn lemma_advance_part(s: Stream, full: nat, part: nat)
    requires
        0 < part < 4,
    ensures
        advance(s, s.pending.len() + 4 * full + part) == (Stream {
            tables: run(s.tables, full + 1),
            pending: le_bytes(word_at(s.tables, full)).skip(part as int),
        }),
{
    reveal(advance);
    let m = 4 * full + part;
    assert(m / 4 == full && m % 4 == part);
}

/// Consuming `n` bytes moves every later byte `n` places forward: byte `k`
/// of the advanced stream is byte `n + k` of the stream it came from.
pub proof fn lemma_byte_at_advance(s: Stream, n: nat, k: nat)
    ensures
        byte_at(advance(s, n), k) == byte_at(s, n + k),
{
    reveal(byte_at);
    reveal(advance);
    let c = s.pending.len();
    if n > c {
        let m = (n - c) as nat;
        let full = m / 4;
        let part = m % 4;
        if part == 0 {
            let j = (k / 4) as nat;
            lemma_run_run(s.tables, full, j);
            assert((m + k) / 4 == full + j && (m + k) % 4 == k % 4);
        } else if k < 4 - part {
            assert((m + k) / 4 == full && (m + k) % 4 == part + k);
        } else {
            let e = (k - (4 - part)) as nat;
            let j = e / 4;
            lemma_run_run(s.tables, full + 1, j);
            assert((m + k) / 4 == full + 1 + j && (m + k) % 4 == e % 4);
        }
    }
}

/// Consuming `a` bytes and then `b` more is consuming `a + b` bytes.
pub proof fn lemma_advance_advance(s: Stream, a: nat, b: nat)
    ensures
        advance(advance(s, a), b) == advance(s, a + b),
{
    reveal(advance);
    let c = s.pending.len();
    let s1 = advance(s, a);
    if a <= c {
        if a + b <= c {
            assert(s.pending.skip(a as int).skip(b as int) =~= s.pending.skip((a + b) as int));
        }
    } else {
        let m = (a - c) as nat;
        let full = m / 4;
        let part = m % 4;
        if part == 0 {
            if b > 0 {
                lemma_run_run(s.tables, full, b / 4);
                lemma_run_run(s.tables, full, b / 4 + 1);
                assert((m + b) / 4 == full + b / 4 && (m + b) % 4 == b % 4);
            }
        } else {
            let w = le_bytes(word_at(s.tables, full));
            if b <= 4 - part {
                assert((m + b) / 4 == if part + b == 4 {
                    full + 1
                } else {
                    full
                });
                assert((m + b) % 4 == (part + b) % 4);
                assert(w.skip(part as int).skip(b as int) =~= w.skip((part + b) as int));
            } else {
                let e = (b - (4 - part)) as nat;
                lemma_run_run(s.tables, full + 1, e / 4);
                lemma_run_run(s.tables, full + 1, e / 4 + 1);
                assert((m + b) / 4 == full + 1 + e / 4 && (m + b) % 4 == e % 4);
            }
        }
    }
    assert(advance(s1, b) =~~= advance(s, a + b));
}

/// A buffer of `n` zero bytes.
pub open spec fn zeros(n: nat) -> Seq<u8> {
    Seq::new(n, |k: int| 0u8)
}

/// The first `n` keystream bytes of a key and an IV.
pub open spec fn keystream(key: Seq<u8>, iv: Seq<u8>, n: nat) -> Seq<u8> {
    Seq::new(n, |k: int| byte_at(fresh(key, iv), k as nat))
}

/// All the chunks, one after the other.
pub open spec fn concat(chunks: Seq<Seq<u8>>) -> Seq<u8>
    decreases chunks.len(),
{
    if chunks.len() == 0 {
        Seq::empty()
    } else {
        chunks[0] + concat(chunks.drop_first())
    }
}

/// The outputs of applying the stream to each chunk in turn, one call per
/// chunk on the same cipher, joined in the order of the calls.
pub open spec fn xor_chunks(s: Stream, chunks: Seq<Seq<u8>>) -> Seq<u8>
    decreases chunks.len(),
{
    if chunks.len() == 0 {
        Seq::empty()
    } else {
        xor_stream(s, chunks[0]) + xor_chunks(advance(s, chunks[0].len()), chunks.drop_first())
    }
}

/// The stream that is left when every chunk was applied in turn.
pub open spec fn advance_chunks(s: Stream, chunks: Seq<Seq<u8>>) -> Stream
    decreases chunks.len(),
{
    if chunks.len() == 0 {
        s
    } else {
        advance_chunks(advance(s, chunks[0].len()), chunks.drop_first())
    }
}

/// Applying the stream to zero bytes hands out the keystream itself.
pub proof fn lemma_zeros_give_keystream(key: Seq<u8>, iv: Seq<u8>, n: nat)
    ensures
        xor_stream(fresh(key, iv), zeros(n)) == keystream(key, iv, n),
{
    assert forall|k: int| 0 <= k < n implies 0u8 ^ #[trigger] byte_at(fresh(key, iv), k as nat)
        == byte_at(fresh(key, iv), k as nat) by {
        let b = byte_at(fresh(key, iv), k as nat);
        assert(0u8 ^ b == b) by (bit_vector);
    }
    assert(xor_stream(fresh(key, iv), zeros(n)) =~= keystream(key, iv, n));
}

/// The output depends on nothing but the key, the IV and the input: two
/// ciphers made from the same key and IV turn the same input into the same
/// output and are left at the same position.
pub proof fn lemma_deterministic(
    key: Seq<u8>,
    iv: Seq<u8>,
    data: Seq<u8>,
    first: Stream,
    second: Stream,
)
    requires
        first == fresh(key, iv),
        second == fresh(key, iv),
    ensures
        xor_stream(first, data) == xor_stream(second, data),
        advance(first, data.len()) == advance(second, data.len()),
{
}

/// Applying the stream twice from the same position gives the input back.
pub proof fn lemma_involution(s: Stream, data: Seq<u8>)
    ensures
        xor_stream(s, xor_stream(s, data)) == data,
{
    assert forall|k: int| 0 <= k < data.len() implies (data[k] ^ byte_at(s, k as nat)) ^ byte_at(
        s,
        k as nat,
    ) == #[trigger] data[k] by {
        let d = data[k];
        let b = byte_at(s, k as nat);
        assert((d ^ b) ^ b == d) by (bit_vector);
    }
    assert(xor_stream(s, xor_stream(s, data)) =~= data);
}

/// One call on `head + tail` gives what a call on `head` followed by a
/// call on `tail` gives, and leaves the cipher at the same position.
pub proof fn lemma_split(s: Stream, head: Seq<u8>, tail: Seq<u8>)
    ensures
        xor_stream(s, head + tail) == xor_stream(s, head) + xor_stream(
            advance(s, head.len()),
            tail,
        ),
        advance(s, (head + tail).len()) == advance(advance(s, head.len()), tail.len()),
{
    let whole = xor_stream(s, head + tail);
    let parts = xor_stream(s, head) + xor_stream(advance(s, head.len()), tail);
    assert forall|k: int| 0 <= k < whole.len() implies whole[k] == parts[k] by {
        if k >= head.len() {
            lemma_byte_at_advance(s, head.len(), (k - head.len()) as nat);
        }
    }
    assert(whole =~= parts);
    lemma_advance_advance(s, head.len(), tail.len());
}

/// However a buffer is cut into consecutive chunks, one call per chunk
/// gives, joined, what one call on the whole buffer gives, and leaves the
/// cipher at the same position.
pub proof fn lemma_call_splitting(s: Stream, chunks: Seq<Seq<u8>>)
    ensures
        xor_chunks(s, chunks) == xor_stream(s, concat(chunks)),
        advance_chunks(s, chunks) == advance(s, concat(chunks).len()),
    decreases chunks.len(),
{
    if chunks.len() == 0 {
        assert(xor_stream(s, concat(chunks)) =~= Seq::<u8>::empty());
        lemma_advance_within(s, 0);
        assert(advance(s, 0) =~~= s);
    } else {
        let head = chunks[0];
        let rest = chunks.drop_first();
        lemma_call_splitting(advance(s, head.len()), rest);
        lemma_split(s, head, concat(rest));
    }
}

/// Cutting a buffer of zero bytes into chunks and applying the stream of a
/// fresh cipher to each in turn hands out the keystream, as one call does.
pub proof fn lemma_call_splitting_zeros(key: Seq<u8>, iv: Seq<u8>, chunks: Seq<Seq<u8>>)
    requires
        concat(chunks) == zeros(concat(chunks).len()),
    ensures
        xor_chunks(fresh(key, iv), chunks) == keystream(key, iv, concat(chunks).len()),
{
    lemma_call_splitting(fresh(key, iv), chunks);
    lemma_zeros_give_keystream(key, iv, concat(chunks).len());
}

/// A cipher set to byte `n` turns `m` zero bytes into bytes `n .. n + m`
/// of what a fresh cipher turns `n + m` zero bytes into.
pub proof fn lemma_seek(key: Seq<u8>, iv: Seq<u8>, n: nat, m: nat)
    ensures
        xor_stream(advance(fresh(key, iv), n), zeros(m)) == xor_stream(
            fresh(key, iv),
            zeros(n + m),
        ).subrange(n as int, (n + m) as int),
{
    let s = fresh(key, iv);
    let sought = xor_stream(advance(s, n), zeros(m));
    let whole = xor_stream(s, zeros(n + m));
    assert forall|k: int| 0 <= k < m implies sought[k] == whole[n + k] by {
        lemma_byte_at_advance(s, n, k as nat);
    }
    assert(sought =~= whole.subrange(n as int, (n + m) as int));
}

/// The same for any input: a cipher set to byte `n` treats `data` as a
/// fresh cipher treats it behind `n` bytes of other input.
pub proof fn lemma_seek_any(key: Seq<u8>, iv: Seq<u8>, front: Seq<u8>, data: Seq<u8>)
    ensures
        xor_stream(advance(fresh(key, iv), front.len()), data) == xor_stream(
            fresh(key, iv),
            front + data,
        ).subrange(front.len() as int, (front.len() + data.len()) as int),
{
    let s = fresh(key, iv);
    lemma_split(s, front, data);
    assert((xor_stream(s, front) + xor_stream(advance(s, front.len()), data)).subrange(
        front.len() as int,
        (front.len() + data.len()) as int,
    ) =~= xor_stream(advance(s, front.len()), data));
}

} // verus!
