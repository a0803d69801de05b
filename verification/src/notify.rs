// Building the notification line.
//
// A notification pairs a device identifier with a message, both handed in as
// raw bytes. Each buffer is cut at its terminating zero byte, decoded
// lossily as UTF-8, and laid into a fixed line template: a tag, the
// identifier, a separator phrase, the message, a line terminator.

use vstd::prelude::*;
use crate::utf8::contains_replacement;
use crate::utf8::decode_lossy;
use crate::utf8::is_valid_utf8;
use crate::utf8::lemma_lossy_of_invalid;
use crate::utf8::lemma_lossy_of_valid;
use crate::utf8::lemma_lossy_wellformed;
use crate::utf8::lemma_valid_concat;
use crate::utf8::lossy;
use crate::utf8::replacement;
use crate::utf8::valid_from;

verus! {

/// The fixed tag that opens every notification line: `"[notify] "`.
pub open spec fn prefix_spec() -> Seq<u8> {
    seq![91u8, 110u8, 111u8, 116u8, 105u8, 102u8, 121u8, 93u8, 32u8]
}

/// The fixed phrase between the device identifier and the message: `": "`.
pub open spec fn separator_spec() -> Seq<u8> {
    seq![58u8, 32u8]
}

/// The line terminator: a single newline byte.
pub open spec fn terminator_spec() -> Seq<u8> {
    seq![10u8]
}

/// The whole notification line for a device identifier and a message given
/// as raw bytes: tag, lossily decoded identifier, separator, lossily decoded
/// message, terminator.
pub open spec fn line_spec(id: Seq<u8>, msg: Seq<u8>) -> Seq<u8> {
    prefix_spec() + lossy(id) + separator_spec() + lossy(msg) + terminator_spec()
}

fn prefix_bytes() -> (r: Vec<u8>)
    ensures
        r@ == prefix_spec(),
{
    let mut r: Vec<u8> = Vec::new();
    r.push(91);
    r.push(110);
    r.push(111);
    r.push(116);
    r.push(105);
    r.push(102);
    r.push(121);
    r.push(93);
    r.push(32);
    proof {
        assert(r@ =~= prefix_spec());
    }
    r
}

fn separator_bytes() -> (r: Vec<u8>)
    ensures
        r@ == separator_spec(),
{
    let mut r: Vec<u8> = Vec::new();
    r.push(58);
    r.push(32);
    proof {
        assert(r@ =~= separator_spec());
    }
    r
}

/// Build the notification line for an identifier and a message, each given
/// as the bytes before their terminating zero (the terminator itself
/// excluded). Malformed UTF-8 never fails the call: it is replaced.
pub fn notification_line(device_id: &[u8], message: &[u8]) -> (line: Vec<u8>)
    ensures
        line@ == line_spec(device_id@, message@),
        is_valid_utf8(line@),
{
    proof {
        lemma_line_wellformed(device_id@, message@);
    }
    let mut line = prefix_bytes();
    let mut id = decode_lossy(device_id);
    line.append(&mut id);
    let mut sep = separator_bytes();
    line.append(&mut sep);
    let mut msg = decode_lossy(message);
    line.append(&mut msg);
    line.push(10);
    proof {
        assert(line@ =~= line_spec(device_id@, message@));
    }
    line
}

/// The position of the first zero byte of `b` at or after `i`, or `b.len()`
/// when there is none.
pub open spec fn nul_pos(b: Seq<u8>, i: int) -> int
    decreases b.len() - i
        when 0 <= i <= b.len()
{
    if i >= b.len() {
        i
    } else if b[i] == 0 {
        i
    } else {
        nul_pos(b, i + 1)
    }
}

proof fn lemma_nul_pos_first_from(b: Seq<u8>, i: int)
    requires
        0 <= i <= b.len(),
    ensures
        i <= nul_pos(b, i) <= b.len(),
        nul_pos(b, i) < b.len() ==> b[nul_pos(b, i)] == 0,
        forall|t: int| i <= t < nul_pos(b, i) ==> b[t] != 0,
    decreases b.len() - i,
{
    if i < b.len() && b[i] != 0 {
        lemma_nul_pos_first_from(b, i + 1);
    }
}

/// `nul_pos` names the first zero byte: it lies inside the buffer exactly
/// when a zero byte exists, it points at a zero byte, and no earlier byte is
/// zero.
pub proof fn lemma_nul_pos_first(b: Seq<u8>)
    ensures
        0 <= nul_pos(b, 0) <= b.len(),
        nul_pos(b, 0) < b.len() ==> b[nul_pos(b, 0)] == 0,
        forall|t: int| 0 <= t < nul_pos(b, 0) ==> b[t] != 0,
{
    lemma_nul_pos_first_from(b, 0);
}

/// The bytes of `buf` before its first zero byte, or `None` when `buf`
/// holds no zero byte at all and so is no null-terminated string.
pub fn nul_terminated_prefix(buf: &[u8]) -> (r: Option<Vec<u8>>)
    ensures
        match r {
            Some(p) => nul_pos(buf@, 0) < buf@.len() && p@ == buf@.subrange(0, nul_pos(buf@, 0)),
            None => nul_pos(buf@, 0) == buf@.len(),
        },
{
    let mut j: usize = 0;
    while j < buf.len() && buf[j] != 0
        invariant
            j <= buf@.len(),
            nul_pos(buf@, 0) == nul_pos(buf@, j as int),
        decreases buf@.len() - j,
    {
        proof {
            assert(nul_pos(buf@, j as int) == nul_pos(buf@, j + 1));
        }
        j = j + 1;
    }
    if j < buf.len() {
        proof {
            assert(nul_pos(buf@, 0) == j);
        }
        let mut p: Vec<u8> = Vec::new();
        let mut k: usize = 0;
        proof {
            assert(p@ =~= buf@.subrange(0, 0));
        }
        while k < j
            invariant
                k <= j,
                j < buf@.len(),
                p@ == buf@.subrange(0, k as int),
            decreases j - k,
        {
            p.push(buf[k]);
            proof {
                assert(p@ =~= buf@.subrange(0, k + 1));
            }
            k = k + 1;
        }
        Some(p)
    } else {
        None
    }
}

/// The whole bridge, short of the foreign pointers and the stream write:
/// cut each caller-owned buffer at its terminating zero byte and build the
/// notification line from the two prefixes. `None` exactly when a buffer
/// holds no zero byte at all.
pub fn show_device_line(id_buf: &[u8], msg_buf: &[u8]) -> (r: Option<Vec<u8>>)
    ensures
        match r {
            Some(line) => nul_pos(id_buf@, 0) < id_buf@.len() && nul_pos(msg_buf@, 0)
                < msg_buf@.len() && line@ == line_spec(
                id_buf@.subrange(0, nul_pos(id_buf@, 0)),
                msg_buf@.subrange(0, nul_pos(msg_buf@, 0)),
            ),
            None => nul_pos(id_buf@, 0) == id_buf@.len() || nul_pos(msg_buf@, 0)
                == msg_buf@.len(),
        },
{
    let id = nul_terminated_prefix(id_buf);
    let msg = nul_terminated_prefix(msg_buf);
    match (id, msg) {
        (Some(idp), Some(msgp)) => Some(notification_line(idp.as_slice(), msgp.as_slice())),
        _ => None,
    }
}

/// A line built from well-formed UTF-8 buffers shows both texts verbatim,
/// each in its fixed place of the template.
pub proof fn lemma_line_shows_valid_text(id: Seq<u8>, msg: Seq<u8>)
    requires
        is_valid_utf8(id),
        is_valid_utf8(msg),
    ensures
        line_spec(id, msg) == prefix_spec() + id + separator_spec() + msg + terminator_spec(),
{
    lemma_lossy_of_valid(id);
    lemma_lossy_of_valid(msg);
}

proof fn lemma_contains_replacement_embed(a: Seq<u8>, s: Seq<u8>, c: Seq<u8>)
    requires
        contains_replacement(s),
    ensures
        contains_replacement(a + s + c),
{
    let k = choose|k: int|
        0 <= k && k + 3 <= s.len() && #[trigger] s.subrange(k, k + 3) == replacement();
    assert((a + s + c).subrange(a.len() + k, a.len() + k + 3) =~= s.subrange(k, k + 3));
    assert(0 <= a.len() + k && a.len() + k + 3 <= (a + s + c).len() && (a + s + c).subrange(
        a.len() + k,
        a.len() + k + 3,
    ) == replacement());
}

/// A line built from a buffer that is not well-formed UTF-8 still comes out,
/// and shows the replacement character somewhere: damage is marked, never
/// fatal and never silent.
pub proof fn lemma_line_marks_invalid_text(id: Seq<u8>, msg: Seq<u8>)
    requires
        !is_valid_utf8(id) || !is_valid_utf8(msg),
    ensures
        contains_replacement(line_spec(id, msg)),
{
    if !is_valid_utf8(id) {
        lemma_lossy_of_invalid(id);
        let a = prefix_spec();
        let s = lossy(id);
        let c = separator_spec() + lossy(msg) + terminator_spec();
        lemma_contains_replacement_embed(a, s, c);
        assert(line_spec(id, msg) =~= a + s + c);
    } else {
        lemma_lossy_of_invalid(msg);
        let a = prefix_spec() + lossy(id) + separator_spec();
        let s = lossy(msg);
        let c = terminator_spec();
        lemma_contains_replacement_embed(a, s, c);
        assert(line_spec(id, msg) =~= a + s + c);
    }
}

proof fn lemma_ascii_valid(s: Seq<u8>, i: int)
    requires
        0 <= i <= s.len(),
        forall|t: int| 0 <= t < s.len() ==> s[t] < 0x80,
    ensures
        valid_from(s, i),
    decreases s.len() - i,
{
    if i < s.len() {
        lemma_ascii_valid(s, i + 1);
    }
}

/// Every notification line is well-formed UTF-8, whatever bytes came in:
/// the template pieces are plain ASCII and the two decoded fields are
/// healed by the decoder.
pub proof fn lemma_line_wellformed(id: Seq<u8>, msg: Seq<u8>)
    ensures
        is_valid_utf8(line_spec(id, msg)),
{
    lemma_ascii_valid(prefix_spec(), 0);
    lemma_ascii_valid(separator_spec(), 0);
    lemma_ascii_valid(terminator_spec(), 0);
    lemma_lossy_wellformed(id);
    lemma_lossy_wellformed(msg);
    lemma_valid_concat(prefix_spec(), lossy(id));
    lemma_valid_concat(prefix_spec() + lossy(id), separator_spec());
    lemma_valid_concat(prefix_spec() + lossy(id) + separator_spec(), lossy(msg));
    lemma_valid_concat(
        prefix_spec() + lossy(id) + separator_spec() + lossy(msg),
        terminator_spec(),
    );
}

/// The line is a function of the two byte sequences alone: two calls on
/// identical inputs yield identical lines, with no hidden counter or clock.
pub proof fn lemma_line_deterministic(id: Seq<u8>, msg: Seq<u8>, first: Seq<u8>, second: Seq<u8>)
    requires
        first == line_spec(id, msg),
        second == line_spec(id, msg),
    ensures
        first == second,
{
}

} // verus!
