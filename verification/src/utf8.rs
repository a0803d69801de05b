// Lossy UTF-8 decoding over byte sequences.
//
// The decoder never fails: every input is mapped to a byte sequence in which
// each well-formed UTF-8 sequence is copied verbatim and each maximal prefix
// of an ill-formed sequence is replaced by the replacement character U+FFFD
// (encoded as the three bytes 0xEF 0xBF 0xBD). This is the "substitution of
// maximal subparts" policy: a truncated multi-byte sequence costs a single
// replacement character, while a stray byte costs one of its own.

use vstd::prelude::*;

verus! {

/// A UTF-8 continuation byte, 0x80 through 0xBF.
pub open spec fn is_cont(x: u8) -> bool {
    0x80 <= x && x <= 0xBF
}

/// Admissible second byte of a three-byte sequence, given its lead byte.
/// The narrowed ranges for 0xE0 and 0xED exclude overlong encodings and
/// surrogate code points.
pub open spec fn second_ok3(lead: u8, x: u8) -> bool {
    if lead == 0xE0 {
        0xA0 <= x && x <= 0xBF
    } else if lead == 0xED {
        0x80 <= x && x <= 0x9F
    } else {
        is_cont(x)
    }
}

/// Admissible second byte of a four-byte sequence, given its lead byte.
/// The narrowed ranges for 0xF0 and 0xF4 exclude overlong encodings and
/// code points beyond U+10FFFF.
pub open spec fn second_ok4(lead: u8, x: u8) -> bool {
    if lead == 0xF0 {
        0x90 <= x && x <= 0xBF
    } else if lead == 0xF4 {
        0x80 <= x && x <= 0x8F
    } else {
        is_cont(x)
    }
}

/// One decoding step at position `i` of `b`: the number of bytes consumed
/// and whether they form a complete well-formed UTF-8 sequence. When they do
/// not, the step consumes the maximal well-formed prefix (at least the one
/// byte at `i`), which the decoder replaces as a whole.
pub open spec fn utf8_step(b: Seq<u8>, i: int) -> (int, bool)
    recommends
        0 <= i < b.len(),
{
    let x = b[i];
    if x < 0x80 {
        (1int, true)
    } else if 0xC2 <= x && x <= 0xDF {
        if i + 1 < b.len() && is_cont(b[i + 1]) {
            (2int, true)
        } else {
            (1int, false)
        }
    } else if 0xE0 <= x && x <= 0xEF {
        if i + 1 < b.len() && second_ok3(x, b[i + 1]) {
            if i + 2 < b.len() && is_cont(b[i + 2]) {
                (3int, true)
            } else {
                (2int, false)
            }
        } else {
            (1int, false)
        }
    } else if 0xF0 <= x && x <= 0xF4 {
        if i + 1 < b.len() && second_ok4(x, b[i + 1]) {
            if i + 2 < b.len() && is_cont(b[i + 2]) {
                if i + 3 < b.len() && is_cont(b[i + 3]) {
                    (4int, true)
                } else {
                    (3int, false)
                }
            } else {
                (2int, false)
            }
        } else {
            (1int, false)
        }
    } else {
        (1int, false)
    }
}

/// The UTF-8 encoding of the replacement character U+FFFD.
pub open spec fn replacement() -> Seq<u8> {
    seq![0xEFu8, 0xBFu8, 0xBDu8]
}

/// The lossy decoding of `b` from position `i` on: well-formed sequences are
/// copied, each ill-formed maximal subpart becomes one replacement character.
pub open spec fn lossy_from(b: Seq<u8>, i: int) -> Seq<u8>
    decreases b.len() - i
        when 0 <= i <= b.len()
{
    if i >= b.len() {
        Seq::<u8>::empty()
    } else {
        let n = utf8_step(b, i).0;
        let ok = utf8_step(b, i).1;
        (if ok {
            b.subrange(i, i + n)
        } else {
            replacement()
        }) + lossy_from(b, i + n)
    }
}

/// The lossy decoding of a whole byte sequence.
pub open spec fn lossy(b: Seq<u8>) -> Seq<u8> {
    lossy_from(b, 0)
}

/// Whether `b` is well-formed UTF-8 from position `i` on.
pub open spec fn valid_from(b: Seq<u8>, i: int) -> bool
    decreases b.len() - i
        when 0 <= i <= b.len()
{
    if i >= b.len() {
        true
    } else {
        utf8_step(b, i).1 && valid_from(b, i + utf8_step(b, i).0)
    }
}

/// Whether a whole byte sequence is well-formed UTF-8.
pub open spec fn is_valid_utf8(b: Seq<u8>) -> bool {
    valid_from(b, 0)
}

/// Whether the replacement character's encoding occurs somewhere in `s`.
pub open spec fn contains_replacement(s: Seq<u8>) -> bool {
    exists|k: int| 0 <= k && k + 3 <= s.len() && #[trigger] s.subrange(k, k + 3) == replacement()
}

fn cont_byte(x: u8) -> (r: bool)
    ensures
        r == is_cont(x),
{
    0x80 <= x && x <= 0xBF
}

fn second_byte_ok3(lead: u8, x: u8) -> (r: bool)
    ensures
        r == second_ok3(lead, x),
{
    if lead == 0xE0 {
        0xA0 <= x && x <= 0xBF
    } else if lead == 0xED {
        0x80 <= x && x <= 0x9F
    } else {
        cont_byte(x)
    }
}

fn second_byte_ok4(lead: u8, x: u8) -> (r: bool)
    ensures
        r == second_ok4(lead, x),
{
    if lead == 0xF0 {
        0x90 <= x && x <= 0xBF
    } else if lead == 0xF4 {
        0x80 <= x && x <= 0x8F
    } else {
        cont_byte(x)
    }
}

/// One decoding step of the executable decoder, mirroring `utf8_step`.
fn step_at(bytes: &[u8], i: usize) -> (r: (usize, bool))
    requires
        i < bytes@.len(),
    ensures
        (r.0 as int, r.1) == utf8_step(bytes@, i as int),
        1 <= r.0 <= 4,
        i + r.0 <= bytes@.len(),
{
    let x = bytes[i];
    if x < 0x80 {
        (1, true)
    } else if 0xC2 <= x && x <= 0xDF {
        if i + 1 < bytes.len() && cont_byte(bytes[i + 1]) {
            (2, true)
        } else {
            (1, false)
        }
    } else if 0xE0 <= x && x <= 0xEF {
        if i + 1 < bytes.len() && second_byte_ok3(x, bytes[i + 1]) {
            if i + 2 < bytes.len() && cont_byte(bytes[i + 2]) {
                (3, true)
            } else {
                (2, false)
            }
        } else {
            (1, false)
        }
    } else if 0xF0 <= x && x <= 0xF4 {
        if i + 1 < bytes.len() && second_byte_ok4(x, bytes[i + 1]) {
            if i + 2 < bytes.len() && cont_byte(bytes[i + 2]) {
                if i + 3 < bytes.len() && cont_byte(bytes[i + 3]) {
                    (4, true)
                } else {
                    (3, false)
                }
            } else {
                (2, false)
            }
        } else {
            (1, false)
        }
    } else {
        (1, false)
    }
}

/// Decode `bytes` as UTF-8, replacing each maximal ill-formed subpart with
/// the replacement character. Never fails, whatever the input holds.
pub fn decode_lossy(bytes: &[u8]) -> (out: Vec<u8>)
    ensures
        out@ == lossy(bytes@),
        is_valid_utf8(out@),
{
    proof {
        lemma_lossy_wellformed(bytes@);
    }
    let mut out: Vec<u8> = Vec::new();
    let mut i: usize = 0;
    proof {
        assert(Seq::<u8>::empty() + lossy_from(bytes@, 0) =~= lossy_from(bytes@, 0));
    }
    while i < bytes.len()
        invariant
            i <= bytes@.len(),
            lossy(bytes@) == out@ + lossy_from(bytes@, i as int),
        decreases bytes@.len() - i,
    {
        let (n, ok) = step_at(bytes, i);
        let ghost prev = out@;
        let ghost chunk: Seq<u8> = if ok {
            bytes@.subrange(i as int, i + n)
        } else {
            replacement()
        };
        if ok {
            out.push(bytes[i]);
            if n >= 2 {
                out.push(bytes[i + 1]);
            }
            if n >= 3 {
                out.push(bytes[i + 2]);
            }
            if n >= 4 {
                out.push(bytes[i + 3]);
            }
        } else {
            out.push(0xEF);
            out.push(0xBF);
            out.push(0xBD);
        }
        proof {
            assert(out@ =~= prev + chunk);
            assert(lossy_from(bytes@, i as int) == chunk + lossy_from(bytes@, i + n));
            assert(prev + (chunk + lossy_from(bytes@, i + n)) =~= (prev + chunk) + lossy_from(
                bytes@,
                i + n,
            ));
        }
        i = i + n;
    }
    proof {
        assert(lossy_from(bytes@, bytes@.len() as int) =~= Seq::<u8>::empty());
        assert(out@ + Seq::<u8>::empty() =~= out@);
    }
    out
}

/// Lossy decoding leaves well-formed UTF-8 untouched, suffix by suffix.
proof fn lemma_valid_lossy_from(b: Seq<u8>, i: int)
    requires
        0 <= i <= b.len(),
        valid_from(b, i),
    ensures
        lossy_from(b, i) == b.subrange(i, b.len() as int),
    decreases b.len() - i,
{
    if i >= b.len() {
        assert(lossy_from(b, i) =~= b.subrange(i, b.len() as int));
    } else {
        let n = utf8_step(b, i).0;
        lemma_valid_lossy_from(b, i + n);
        assert(lossy_from(b, i) =~= b.subrange(i, b.len() as int));
    }
}

/// A well-formed UTF-8 byte sequence decodes to itself: no byte is altered,
/// added or dropped.
pub proof fn lemma_lossy_of_valid(b: Seq<u8>)
    requires
        is_valid_utf8(b),
    ensures
        lossy(b) == b,
{
    lemma_valid_lossy_from(b, 0);
    assert(b.subrange(0, b.len() as int) =~= b);
}

/// Each decoding step consumes at least one byte and stays inside `b`.
proof fn lemma_step_bounds(b: Seq<u8>, i: int)
    requires
        0 <= i < b.len(),
    ensures
        1 <= utf8_step(b, i).0,
        i + utf8_step(b, i).0 <= b.len(),
{
}

/// An ill-formed suffix decodes to something that shows the replacement
/// character somewhere.
proof fn lemma_invalid_replacement_from(b: Seq<u8>, i: int)
    requires
        0 <= i <= b.len(),
        !valid_from(b, i),
    ensures
        contains_replacement(lossy_from(b, i)),
    decreases b.len() - i,
{
    assert(i < b.len());
    lemma_step_bounds(b, i);
    let n = utf8_step(b, i).0;
    let ok = utf8_step(b, i).1;
    let rest = lossy_from(b, i + n);
    if !ok {
        assert(lossy_from(b, i) == replacement() + rest);
        assert(lossy_from(b, i).len() == 3 + rest.len());
        assert(lossy_from(b, i).subrange(0, 3) =~= replacement());
        assert(0 <= 0 && 0 + 3 <= lossy_from(b, i).len() && lossy_from(b, i).subrange(
            0,
            0int + 3,
        ) == replacement());
    } else {
        lemma_invalid_replacement_from(b, i + n);
        let k = choose|k: int|
            0 <= k && k + 3 <= lossy_from(b, i + n).len() && #[trigger] lossy_from(
                b,
                i + n,
            ).subrange(k, k + 3) == replacement();
        let chunk = b.subrange(i, i + n);
        assert(lossy_from(b, i) == chunk + rest);
        assert(chunk.len() == n);
        assert(lossy_from(b, i).subrange(n + k, n + k + 3) =~= rest.subrange(k, k + 3));
        assert(0 <= n + k && n + k + 3 <= lossy_from(b, i).len() && lossy_from(b, i).subrange(
            n + k,
            n + k + 3,
        ) == replacement());
    }
}

/// Decoding a byte sequence that is not well-formed UTF-8 always marks the
/// damage: the output shows the replacement character somewhere.
pub proof fn lemma_lossy_of_invalid(b: Seq<u8>)
    requires
        !is_valid_utf8(b),
    ensures
        contains_replacement(lossy(b)),
{
    lemma_invalid_replacement_from(b, 0);
}

/// A complete well-formed sequence keeps its reading when more bytes follow
/// it: the decoder never looks past the sequence it accepts.
proof fn lemma_step_prepend(c: Seq<u8>, r: Seq<u8>)
    requires
        1 <= c.len() <= 4,
        utf8_step(c, 0) == (c.len() as int, true),
    ensures
        utf8_step(c + r, 0) == (c.len() as int, true),
{
    assert forall|t: int| 0 <= t < c.len() implies (c + r)[t] == c[t] by {}
}

/// Reading `r` behind a prefix `c` is reading `r`: well-formedness of a
/// suffix does not depend on what stands before it.
proof fn lemma_valid_shift(c: Seq<u8>, r: Seq<u8>, j: int)
    requires
        0 <= j <= r.len(),
    ensures
        valid_from(c + r, c.len() + j) == valid_from(r, j),
    decreases r.len() - j,
{
    if j < r.len() {
        lemma_step_bounds(r, j);
        assert(utf8_step(c + r, c.len() + j) == utf8_step(r, j));
        let n = utf8_step(r, j).0;
        lemma_valid_shift(c, r, j + n);
        assert(valid_from(c + r, c.len() + j) == valid_from(r, j));
    } else {
        assert(valid_from(c + r, c.len() + j));
        assert(valid_from(r, j));
    }
}

/// The bytes a complete step accepts form a complete sequence of their own.
proof fn lemma_step_restrict(b: Seq<u8>, i: int)
    requires
        0 <= i < b.len(),
        utf8_step(b, i).1,
    ensures
        utf8_step(b.subrange(i, i + utf8_step(b, i).0), 0) == (utf8_step(b, i).0, true),
{
    lemma_step_bounds(b, i);
    let n = utf8_step(b, i).0;
    let c = b.subrange(i, i + n);
    assert(c.len() == n);
    assert forall|t: int| 0 <= t < n implies c[t] == b[i + t] by {}
}

/// One complete well-formed sequence in front of well-formed UTF-8 gives
/// well-formed UTF-8.
proof fn lemma_wellformed_prepend(c: Seq<u8>, r: Seq<u8>)
    requires
        1 <= c.len() <= 4,
        utf8_step(c, 0) == (c.len() as int, true),
        is_valid_utf8(r),
    ensures
        is_valid_utf8(c + r),
{
    lemma_step_prepend(c, r);
    lemma_valid_shift(c, r, 0);
    assert(valid_from(c + r, c.len() + 0int) == valid_from(r, 0));
    assert(valid_from(c + r, 0));
}

proof fn lemma_lossy_wellformed_from(b: Seq<u8>, i: int)
    requires
        0 <= i <= b.len(),
    ensures
        is_valid_utf8(lossy_from(b, i)),
    decreases b.len() - i,
{
    if i >= b.len() {
        assert(valid_from(lossy_from(b, i), 0));
    } else {
        lemma_step_bounds(b, i);
        let n = utf8_step(b, i).0;
        let ok = utf8_step(b, i).1;
        let rest = lossy_from(b, i + n);
        lemma_lossy_wellformed_from(b, i + n);
        if ok {
            lemma_step_restrict(b, i);
            lemma_wellformed_prepend(b.subrange(i, i + n), rest);
        } else {
            assert(utf8_step(replacement(), 0) == (3int, true));
            lemma_wellformed_prepend(replacement(), rest);
        }
    }
}

/// Whatever bytes come in, the decoder's output is well-formed UTF-8:
/// damage is healed, never propagated.
pub proof fn lemma_lossy_wellformed(b: Seq<u8>)
    ensures
        is_valid_utf8(lossy(b)),
{
    lemma_lossy_wellformed_from(b, 0);
}

/// Well-formed UTF-8 is closed under concatenation.
pub proof fn lemma_valid_concat(a: Seq<u8>, r: Seq<u8>)
    requires
        is_valid_utf8(a),
        is_valid_utf8(r),
    ensures
        is_valid_utf8(a + r),
    decreases a.len(),
{
    if a.len() == 0 {
        assert(a + r =~= r);
    } else {
        lemma_step_bounds(a, 0);
        let n = utf8_step(a, 0).0;
        let c = a.subrange(0, n);
        let rest_a = a.subrange(n, a.len() as int);
        assert(a =~= c + rest_a);
        lemma_valid_shift(c, rest_a, 0);
        assert(is_valid_utf8(rest_a));
        lemma_valid_concat(rest_a, r);
        lemma_step_restrict(a, 0);
        lemma_wellformed_prepend(c, rest_a + r);
        assert(a + r =~= c + (rest_a + r));
    }
}

} // verus!
