//! The streaming counter: bytes arrive in chunks, and a scalar whose encoding
//! straddles two chunks is counted once, when its last byte arrives.
use crate::utf8::{
    lemma_ascii_count, lemma_split_at_prefix, lemma_truncated_scalar, lemma_well_formed_count, lemma_undecided_final, lemma_valid_prefix_bounds, scalar_count,
    undecided_len, valid_prefix_len, validate_utf8,
};
use vstd::prelude::*;
use vstd::utf8::{encode_utf8, encode_utf8_decode_utf8, encode_utf8_valid_utf8};

verus! {

/// The counter as a value: the running total, the undecided bytes carried to
/// the next chunk, and whether the count is already final.
pub struct CounterState {
    pub total: nat,
    pub carry: Seq<u8>,
    pub halted: bool,
}

/// The state in which every count starts.
pub open spec fn initial_state() -> CounterState {
    CounterState { total: 0, carry: Seq::empty(), halted: false }
}

/// One chunk read: the carried bytes and the chunk are checked together; the
/// scalars of their longest well-formed prefix are added to the total, and what
/// follows is carried. Four or more bytes that cannot start a scalar make the
/// count final, and later chunks change nothing.
pub open spec fn step(m: CounterState, chunk: Seq<u8>) -> CounterState {
    if m.halted {
        m
    } else {
        let buf = m.carry + chunk;
        let v = valid_prefix_len(buf);
        let total = m.total + scalar_count(buf);
        if buf.len() - v >= 4 {
            CounterState { total, carry: Seq::empty(), halted: true }
        } else {
            CounterState { total, carry: buf.subrange(v as int, buf.len() as int), halted: false }
        }
    }
}

/// The state after reading `chunks` in order, from `m`.
pub open spec fn run(m: CounterState, chunks: Seq<Seq<u8>>) -> CounterState
    decreases chunks.len(),
{
    if chunks.len() == 0 {
        m
    } else {
        run(step(m, chunks[0]), chunks.drop_first())
    }
}

/// `m` is the state of a counter that has read the bytes `seen`: its total is
/// the count of `seen`, and it carries what follows the longest well-formed
/// prefix, at most three bytes, unless its count is final.
pub open spec fn tracks(m: CounterState, seen: Seq<u8>) -> bool {
    &&& m.total == scalar_count(seen)
    &&& m.halted ==> undecided_len(seen) >= 4 && m.carry.len() == 0
    &&& !m.halted ==> m.carry == seen.subrange(valid_prefix_len(seen) as int, seen.len() as int)
        && m.carry.len() < 4
}

/// Each step keeps a state in step with the bytes read.
pub proof fn lemma_step_tracks(m: CounterState, seen: Seq<u8>, chunk: Seq<u8>)
    requires
        tracks(m, seen),
    ensures
        tracks(step(m, chunk), seen + chunk),
{
    lemma_valid_prefix_bounds(seen);
    if m.halted {
        lemma_undecided_final(seen, chunk);
    } else {
        let buf = m.carry + chunk;
        lemma_split_at_prefix(seen, chunk);
        lemma_valid_prefix_bounds(buf);
        lemma_valid_prefix_bounds(seen + chunk);
        let all = seen + chunk;
        assert(all.subrange(valid_prefix_len(all) as int, all.len() as int) =~= buf.subrange(
            valid_prefix_len(buf) as int,
            buf.len() as int,
        ));
    }
}

/// Reading a sequence of chunks keeps a state in step with the bytes read.
pub proof fn lemma_run_tracks(m: CounterState, seen: Seq<u8>, chunks: Seq<Seq<u8>>)
    requires
        tracks(m, seen),
    ensures
        tracks(run(m, chunks), seen + chunks.flatten()),
    decreases chunks.len(),
{
    if chunks.len() == 0 {
        assert(seen + chunks.flatten() =~= seen);
    } else {
        lemma_step_tracks(m, seen, chunks[0]);
        lemma_run_tracks(step(m, chunks[0]), seen + chunks[0], chunks.drop_first());
        assert(seen + chunks.flatten() =~= seen + chunks[0] + chunks.drop_first().flatten());
    }
}

/// The initial state is in step with an empty input.
pub proof fn lemma_initial_tracks()
    ensures
        tracks(initial_state(), Seq::empty()),
{
    let e = Seq::<u8>::empty();
    assert(scalar_count(e) == 0);
    assert(valid_prefix_len(e) == 0);
    assert(e.subrange(0, 0) =~= e);
}

/// How the input is cut into chunks does not matter: after any sequence of
/// chunks the total is the count of their concatenation, the same as after
/// reading the concatenation as one chunk.
pub proof fn lemma_chunking_irrelevant(chunks: Seq<Seq<u8>>)
    ensures
        run(initial_state(), chunks).total == scalar_count(chunks.flatten()),
        run(initial_state(), chunks).total == run(initial_state(), seq![chunks.flatten()]).total,
{
    lemma_initial_tracks();
    lemma_run_tracks(initial_state(), Seq::empty(), chunks);
    assert(Seq::<u8>::empty() + chunks.flatten() =~= chunks.flatten());
    lemma_run_tracks(initial_state(), Seq::empty(), seq![chunks.flatten()]);
    seq![chunks.flatten()].lemma_flatten_one_element();
}


/// An input of ASCII bytes counts one scalar per byte, however it is cut
/// into chunks.
pub proof fn lemma_ascii_total(chunks: Seq<Seq<u8>>)
    requires
        forall|i: int| 0 <= i < chunks.flatten().len() ==> chunks.flatten()[i] <= 0x7f,
    ensures
        run(initial_state(), chunks).total == chunks.flatten().len(),
{
    lemma_chunking_irrelevant(chunks);
    lemma_ascii_count(chunks.flatten());
}

/// Encoding a sequence of characters as UTF-8 and counting the bytes, cut
/// into chunks anywhere, gives back the number of characters.
pub proof fn lemma_round_trip(chars: Seq<char>, chunks: Seq<Seq<u8>>)
    requires
        chunks.flatten() == encode_utf8(chars),
    ensures
        run(initial_state(), chunks).total == chars.len(),
{
    lemma_chunking_irrelevant(chunks);
    encode_utf8_valid_utf8(chars);
    encode_utf8_decode_utf8(chars);
    lemma_well_formed_count(encode_utf8(chars));
}

/// An input that ends in the first `k` bytes of the encoding of one more
/// character, short of its last byte, counts the characters before it and
/// nothing for the unfinished one, however it is cut into chunks.
pub proof fn lemma_truncated_end(chars: Seq<char>, c: char, k: int, chunks: Seq<Seq<u8>>)
    requires
        0 < k < encode_utf8(seq![c]).len(),
        chunks.flatten() == encode_utf8(chars) + encode_utf8(seq![c]).subrange(0, k),
    ensures
        run(initial_state(), chunks).total == chars.len(),
{
    let e = encode_utf8(chars);
    let t = encode_utf8(seq![c]).subrange(0, k);
    lemma_chunking_irrelevant(chunks);
    encode_utf8_valid_utf8(chars);
    encode_utf8_decode_utf8(chars);
    lemma_well_formed_count(e);
    lemma_split_at_prefix(e, t);
    assert(e.subrange(e.len() as int, e.len() as int) + t =~= t);
    lemma_truncated_scalar(c, k);
}

/// Counts the scalars of a byte stream read in chunks. It holds one buffer of
/// fixed capacity and at most three carried bytes, whatever the input length.
pub struct CodepointCounter {
    buffer: Vec<u8>,
    carry: Vec<u8>,
    total: usize,
    halted: bool,
    seen: Ghost<Seq<u8>>,
}

impl View for CodepointCounter {
    type V = CounterState;

    closed spec fn view(&self) -> CounterState {
        CounterState { total: self.total as nat, carry: self.carry@, halted: self.halted }
    }
}

impl CodepointCounter {
    /// Every byte read so far, in order.
    pub closed spec fn seen(&self) -> Seq<u8> {
        self.seen@
    }

    /// Number of bytes that the buffer holds: carried bytes and one chunk.
    pub closed spec fn capacity(&self) -> nat {
        self.buffer@.len()
    }

    /// The counter's invariant: the buffer holds up to three carried bytes and
    /// at least one new byte, and the state is in step with the bytes read.
    pub closed spec fn wf(&self) -> bool {
        &&& self.buffer@.len() >= 4
        &&& tracks(self@, self.seen@)
    }

    /// Bytes that the next chunk may hold: the capacity less the carried bytes.
    pub open spec fn spec_room(&self) -> nat {
        (self.capacity() - self@.carry.len()) as nat
    }

    /// A counter with a buffer of `capacity` bytes, which must hold a carried
    /// partial scalar (at most three bytes) and at least one new byte.
    pub fn new(capacity: usize) -> (r: Self)
        requires
            capacity >= 4,
        ensures
            r.wf(),
            r@ == initial_state(),
            r.seen() == Seq::<u8>::empty(),
            r.capacity() == capacity,
    {
        proof {
            lemma_initial_tracks();
        }
        CodepointCounter {
            buffer: vec![0u8; capacity],
            carry: Vec::new(),
            total: 0,
            halted: false,
            seen: Ghost(Seq::empty()),
        }
    }

    /// How many bytes the next chunk may hold.
    pub fn room(&self) -> (r: usize)
        requires
            self.wf(),
        ensures
            r == self.spec_room(),
            r >= 1,
    {
        self.buffer.len() - self.carry.len()
    }

    /// The number of scalars counted so far: those of the longest well-formed
    /// prefix of the bytes read.
    pub fn total(&self) -> (r: usize)
        requires
            self.wf(),
        ensures
            r == scalar_count(self.seen()),
            r == self@.total,
    {
        self.total
    }

    /// Reads one chunk; an empty chunk marks the end of the stream. Returns the
    /// final count at the end of the stream, where carried bytes of an
    /// unfinished scalar are left uncounted, or once four or more bytes that
    /// cannot start a scalar have been read, after which the count cannot
    /// change; otherwise returns `None` and waits for more.
    pub fn feed(&mut self, chunk: &[u8]) -> (r: Option<usize>)
        requires
            old(self).wf(),
            chunk@.len() <= old(self).spec_room(),
            old(self).seen().len() + chunk@.len() <= usize::MAX,
        ensures
            final(self).wf(),
            final(self)@ == step(old(self)@, chunk@),
            final(self).seen() == old(self).seen() + chunk@,
            final(self).capacity() == old(self).capacity(),
            r == if chunk@.len() == 0 || final(self)@.halted {
                Some(scalar_count(final(self).seen()) as usize)
            } else {
                None::<usize>
            },
    {
        proof {
            lemma_step_tracks(self@, self.seen@, chunk@);
            lemma_valid_prefix_bounds(self.seen@ + chunk@);
        }
        if self.halted {
            self.seen = Ghost(self.seen@ + chunk@);
            return Some(self.total);
        }
        let ghost before = self@;
        let k = self.carry.len();
        let n = chunk.len();
        let cap = self.buffer.len();
        assert(k + n <= cap);
        let mut i: usize = 0;
        while i < n
            invariant
                i <= n,
                k == self.carry@.len(),
                n == chunk@.len(),
                k + n <= cap,
                cap == self.buffer@.len(),
                self.buffer@.len() == old(self).buffer@.len(),
                self.carry@ == old(self).carry@,
                self.total == old(self).total,
                self.halted == old(self).halted,
                self.seen == old(self).seen,
                forall|j: int| 0 <= j < i ==> self.buffer@[k + j] == chunk@[j],
            decreases n - i,
        {
            self.buffer.set(k + i, chunk[i]);
            i = i + 1;
        }
        let mut j: usize = 0;
        while j < k
            invariant
                k == self.carry@.len(),
                n == chunk@.len(),
                k + n <= cap,
                cap == self.buffer@.len(),
                self.buffer@.len() == old(self).buffer@.len(),
                self.carry@ == old(self).carry@,
                self.total == old(self).total,
                self.halted == old(self).halted,
                self.seen == old(self).seen,
                forall|m: int| 0 <= m < n ==> self.buffer@[k + m] == chunk@[m],
                forall|m: int| 0 <= m < j ==> self.buffer@[m] == self.carry@[m],
            decreases k - j,
        {
            let b = self.carry[j];
            self.buffer.set(j, b);
            j = j + 1;
        }
        let filled = vstd::slice::slice_subrange(self.buffer.as_slice(), 0, k + n);
        assert(filled@ =~= self.carry@ + chunk@);
        proof {
            lemma_valid_prefix_bounds(filled@);
            assert(step(before, chunk@).total == self.total + scalar_count(filled@));
        }
        if n == 0 {
            self.seen = Ghost(self.seen@ + chunk@);
            proof {
                lemma_split_at_prefix(filled@, Seq::empty());
                assert(filled@ + Seq::<u8>::empty() =~= filled@);
                assert(filled@.subrange(0, filled@.len() as int) =~= filled@);
            }
            return Some(self.total);
        }
        match validate_utf8(filled) {
            Ok(count) => {
                self.total = self.total + count;
                self.carry = Vec::new();
                proof {
                    assert(filled@.subrange(filled@.len() as int, filled@.len() as int) =~= Seq::<
                        u8,
                    >::empty());
                }
            },
            Err((count, incomplete)) => {
                self.total = self.total + count;
                if incomplete >= 4 {
                    self.halted = true;
                    self.carry = Vec::new();
                } else {
                    let len = filled.len();
                    let mut rest: Vec<u8> = Vec::new();
                    let mut m: usize = len - incomplete;
                    while m < len
                        invariant
                            len == filled@.len(),
                            incomplete <= len,
                            len - incomplete <= m <= len,
                            rest@ == filled@.subrange((len - incomplete) as int, m as int),
                        decreases len - m,
                    {
                        rest.push(filled[m]);
                        assert(rest@ =~= filled@.subrange((len - incomplete) as int, m + 1));
                        m = m + 1;
                    }
                    self.carry = rest;
                }
            },
        }
        self.seen = Ghost(self.seen@ + chunk@);
        if self.halted {
            Some(self.total)
        } else {
            None
        }
    }
}

} // verus!
