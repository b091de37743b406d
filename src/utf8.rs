//! What is counted: the scalars of the longest well-formed UTF-8 prefix of a
//! byte sequence, read greedily from the front.
use vstd::prelude::*;
use vstd::utf8::*;

verus! {

/// Length in bytes of the longest prefix of `b` that is well-formed UTF-8.
pub open spec fn valid_prefix_len(b: Seq<u8>) -> nat
    decreases b.len(),
{
    if b.len() > 0 && valid_first_scalar(b) {
        length_of_first_scalar(b) as nat + valid_prefix_len(pop_first_scalar(b))
    } else {
        0
    }
}

/// Number of scalars in the longest well-formed prefix of `b`.
pub open spec fn scalar_count(b: Seq<u8>) -> nat
    decreases b.len(),
{
    if b.len() > 0 && valid_first_scalar(b) {
        1 + scalar_count(pop_first_scalar(b))
    } else {
        0
    }
}

/// Bytes of `b` after its longest well-formed prefix.
pub open spec fn undecided_len(b: Seq<u8>) -> int {
    b.len() - valid_prefix_len(b)
}


/// Appending bytes after a well-formed first scalar keeps it; and once four
/// bytes are present, appending decides nothing about the first scalar.
proof fn lemma_first_scalar_extend(b: Seq<u8>, x: Seq<u8>)
    requires
        b.len() > 0,
    ensures
        valid_first_scalar(b) ==> valid_first_scalar(b + x) && length_of_first_scalar(b + x)
            == length_of_first_scalar(b) && pop_first_scalar(b + x) =~= pop_first_scalar(b)
            + x,
        b.len() >= 4 ==> valid_first_scalar(b + x) == valid_first_scalar(b),
{
    let y = b + x;
    assert(y[0] == b[0]);
    if b.len() >= 2 {
        assert(y[1] == b[1]);
    }
    if b.len() >= 3 {
        assert(y[2] == b[2]);
    }
    if b.len() >= 4 {
        assert(y[3] == b[3]);
    }
}

/// Bounds of the model: the count never exceeds the prefix, nor the prefix
/// the input.
pub proof fn lemma_valid_prefix_bounds(b: Seq<u8>)
    ensures
        scalar_count(b) <= valid_prefix_len(b) <= b.len(),
    decreases b.len(),
{
    if b.len() > 0 && valid_first_scalar(b) {
        lemma_valid_prefix_bounds(pop_first_scalar(b));
    }
}

/// Reading `b` then `x` splits at the longest well-formed prefix of `b`: what
/// follows it is read again together with `x`.
pub proof fn lemma_split_at_prefix(b: Seq<u8>, x: Seq<u8>)
    ensures
        ({
            let rest = b.subrange(valid_prefix_len(b) as int, b.len() as int);
            &&& valid_prefix_len(b + x) == valid_prefix_len(b) + valid_prefix_len(rest + x)
            &&& scalar_count(b + x) == scalar_count(b) + scalar_count(rest + x)
        }),
    decreases b.len(),
{
    lemma_valid_prefix_bounds(b);
    if b.len() > 0 && valid_first_scalar(b) {
        let p = pop_first_scalar(b);
        lemma_first_scalar_extend(b, x);
        lemma_split_at_prefix(p, x);
        lemma_valid_prefix_bounds(p);
        assert(b.subrange(valid_prefix_len(b) as int, b.len() as int) =~= p.subrange(
            valid_prefix_len(p) as int,
            p.len() as int,
        ));
    } else {
        assert(b.subrange(0, b.len() as int) =~= b);
    }
}

/// Once four or more bytes follow the longest well-formed prefix, no further
/// bytes change the prefix or the count.
pub proof fn lemma_undecided_final(b: Seq<u8>, x: Seq<u8>)
    requires
        undecided_len(b) >= 4,
    ensures
        valid_prefix_len(b + x) == valid_prefix_len(b),
        scalar_count(b + x) == scalar_count(b),
    decreases b.len(),
{
    lemma_valid_prefix_bounds(b);
    if b.len() > 0 && valid_first_scalar(b) {
        lemma_first_scalar_extend(b, x);
        lemma_undecided_final(pop_first_scalar(b), x);
    } else {
        lemma_first_scalar_extend(b, x);
    }
}

/// The greedy prefix covers the whole input exactly when the input is
/// well-formed UTF-8, and then the count is the number of decoded characters.
pub proof fn lemma_well_formed_count(b: Seq<u8>)
    ensures
        valid_prefix_len(b) == b.len() <==> valid_utf8(b),
        valid_utf8(b) ==> scalar_count(b) == decode_utf8(b).len(),
    decreases b.len(),
{
    lemma_valid_prefix_bounds(b);
    if b.len() > 0 && valid_first_scalar(b) {
        let p = pop_first_scalar(b);
        lemma_well_formed_count(p);
        assert(p.len() == b.len() - length_of_first_scalar(b));
    }
}

/// An input of ASCII bytes alone counts one scalar per byte.
pub proof fn lemma_ascii_count(b: Seq<u8>)
    requires
        forall|i: int| 0 <= i < b.len() ==> b[i] <= 0x7f,
    ensures
        valid_prefix_len(b) == b.len(),
        scalar_count(b) == b.len(),
    decreases b.len(),
{
    if b.len() > 0 {
        let b0 = b[0];
        assert((b0 & 0x7f) as u32 <= 0x7f) by (bit_vector);
        assert(valid_first_scalar(b));
        let p = pop_first_scalar(b);
        assert forall|i: int| 0 <= i < p.len() implies p[i] <= 0x7f by {
            assert(p[i] == b[i + 1]);
        }
        lemma_ascii_count(p);
    }
}

/// A proper, non-empty prefix of the encoding of one character does not start
/// a scalar.
pub proof fn lemma_truncated_scalar(c: char, k: int)
    requires
        0 < k < encode_utf8(seq![c]).len(),
    ensures
        scalar_count(encode_utf8(seq![c]).subrange(0, k)) == 0,
{
    let f = encode_utf8(seq![c]);
    let t = f.subrange(0, k);
    encode_utf8_first_scalar(seq![c]);
    assert(seq![c].drop_first() =~= Seq::<char>::empty());
    assert(encode_utf8(Seq::<char>::empty()) =~= Seq::<u8>::empty());
    assert(f =~= encode_scalar(c as u32));
    assert(t[0] == f[0]);
    assert(!valid_first_scalar(t));
}

/// Width in bytes of the scalar encoded at the front of `b[i..]`, or 0 when
/// `b[i..]` does not start with a well-formed encoding.
fn first_scalar_width(b: &[u8], i: usize) -> (w: usize)
    requires
        i < b@.len(),
    ensures
        ({
            let s = b@.subrange(i as int, b@.len() as int);
            &&& w > 0 ==> valid_first_scalar(s) && w == length_of_first_scalar(s)
            &&& w == 0 ==> !valid_first_scalar(s)
        }),
{
    let ghost s = b@.subrange(i as int, b@.len() as int);
    let n = b.len() - i;
    let b0 = b[i];
    if b0 <= 0x7f {
        return 1;
    }
    if n >= 2 && 0xc0 <= b0 && b0 <= 0xdf {
        let b1 = b[i + 1];
        if 0x80 <= b1 && b1 <= 0xbf {
            let cp: u32 = (((b0 & 0x1f) as u32) << 6) | ((b1 & 0x3f) as u32);
            assert(cp == decode_first_codepoint(s));
            assert(cp <= 0x7ff) by (bit_vector)
                requires
                    cp == (((b0 & 0x1f) as u32) << 6) | ((b1 & 0x3f) as u32),
            ;
            if 0x80 <= cp {
                return 2;
            }
        }
        return 0;
    }
    if n >= 3 && 0xe0 <= b0 && b0 <= 0xef {
        let b1 = b[i + 1];
        let b2 = b[i + 2];
        if 0x80 <= b1 && b1 <= 0xbf && 0x80 <= b2 && b2 <= 0xbf {
            let cp: u32 = (((b0 & 0x0f) as u32) << 12) | (((b1 & 0x3f) as u32) << 6) | ((b2
                & 0x3f) as u32);
            assert(cp == decode_first_codepoint(s));
            if 0x800 <= cp && !(0xd800 <= cp && cp <= 0xdfff) {
                return 3;
            }
        }
        return 0;
    }
    if n >= 4 && 0xf0 <= b0 && b0 <= 0xf7 {
        let b1 = b[i + 1];
        let b2 = b[i + 2];
        let b3 = b[i + 3];
        if 0x80 <= b1 && b1 <= 0xbf && 0x80 <= b2 && b2 <= 0xbf && 0x80 <= b3 && b3 <= 0xbf {
            let cp: u32 = (((b0 & 0x07) as u32) << 18) | (((b1 & 0x3f) as u32) << 12) | (((b2
                & 0x3f) as u32) << 6) | ((b3 & 0x3f) as u32);
            assert(cp == decode_first_codepoint(s));
            if 0x10000 <= cp && cp <= 0x10ffff {
                assert(not_surrogate(cp));
                return 4;
            }
        }
        return 0;
    }
    0
}


/// Returns the length of the longest well-formed prefix of `b` and the number
/// of scalars in it.
fn scan_valid_prefix(b: &[u8]) -> (r: (usize, usize))
    ensures
        r.0 == valid_prefix_len(b@),
        r.1 == scalar_count(b@),
        r.0 <= b@.len(),
{
    let mut i: usize = 0;
    let mut count: usize = 0;
    let mut stopped = false;
    assert(b@.subrange(0, b@.len() as int) =~= b@);
    while i < b.len() && !stopped
        invariant
            i <= b@.len(),
            count <= i,
            valid_prefix_len(b@) == i + valid_prefix_len(b@.subrange(i as int, b@.len() as int)),
            scalar_count(b@) == count + scalar_count(b@.subrange(i as int, b@.len() as int)),
            stopped ==> valid_prefix_len(b@.subrange(i as int, b@.len() as int)) == 0,
            stopped ==> scalar_count(b@.subrange(i as int, b@.len() as int)) == 0,
        decreases b@.len() - i + (if stopped { 0int } else { 1int }),
    {
        let w = first_scalar_width(b, i);
        if w == 0 {
            stopped = true;
        } else {
            proof {
                let s = b@.subrange(i as int, b@.len() as int);
                assert(pop_first_scalar(s) =~= b@.subrange(i + w, b@.len() as int));
            }
            i = i + w;
            count = count + 1;
        }
    }
    proof {
        if !stopped {
            assert(b@.subrange(i as int, b@.len() as int).len() == 0);
        }
    }
    (i, count)
}

/// Checks `buf` as UTF-8. Gives `Ok` with the number of scalars when the whole
/// buffer is well-formed; otherwise `Err` with the number of scalars in the
/// longest well-formed prefix and the number of bytes after that prefix.
pub fn validate_utf8(buf: &[u8]) -> (r: Result<usize, (usize, usize)>)
    ensures
        r == if valid_prefix_len(buf@) == buf@.len() {
            Ok::<usize, (usize, usize)>(scalar_count(buf@) as usize)
        } else {
            Err::<usize, (usize, usize)>((scalar_count(buf@) as usize, undecided_len(buf@) as usize))
        },
{
    let (valid_up_to, count) = scan_valid_prefix(buf);
    if valid_up_to == buf.len() {
        Ok(count)
    } else {
        handle_incomplete_utf8(buf, valid_up_to, count)
    }
}

/// Builds the `Err` of `validate_utf8` for a buffer whose first `valid_up_to`
/// bytes, holding `count` scalars, are its longest well-formed prefix.
fn handle_incomplete_utf8(buf: &[u8], valid_up_to: usize, count: usize) -> (r: Result<
    usize,
    (usize, usize),
>)
    requires
        valid_up_to <= buf@.len(),
    ensures
        r == Err::<usize, (usize, usize)>((count, (buf@.len() - valid_up_to) as usize)),
{
    let incomplete_bytes = buf.len() - valid_up_to;
    Err((count, incomplete_bytes))
}

} // verus!
