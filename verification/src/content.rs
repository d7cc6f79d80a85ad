//! Document content: reading a serialized document from a byte offset, and
//! the edit-session buffer into which writes are spliced before a session
//! commits to the remote store.

use vstd::prelude::*;

verus! {

use vstd::string::StrSliceExecFns;
use vstd::utf8::encode_utf8;
use vstd::utf8::valid_utf8;

/// A sequence of `n` zero bytes.
pub open spec fn zero_bytes(n: int) -> Seq<u8> {
    Seq::new(n as nat, |i: int| 0u8)
}

/// The bytes of `doc` from byte offset `off` on; an offset beyond the end
/// reads as empty, not as an error.
pub open spec fn bytes_from(doc: Seq<u8>, off: int) -> Seq<u8> {
    if 0 <= off <= doc.len() {
        doc.skip(off)
    } else {
        Seq::empty()
    }
}

/// The edit-session buffer after one write of `data` at byte offset `off`:
/// the part of the buffer below `off` (zero-padded when the buffer is
/// shorter), then `data`, then whatever part of the buffer lay beyond the
/// written range.
pub open spec fn apply_write(buf: Seq<u8>, off: int, data: Seq<u8>) -> Seq<u8>
    recommends
        0 <= off,
{
    let head = if off <= buf.len() {
        buf.take(off)
    } else {
        buf + zero_bytes(off - buf.len())
    };
    let tail = if off + data.len() < buf.len() {
        buf.skip(off + data.len())
    } else {
        Seq::empty()
    };
    head + data + tail
}

/// Read `doc` from byte offset `off` on.
pub fn read_from(doc: &Vec<u8>, off: u64) -> (r: Vec<u8>)
    ensures
        r@ == bytes_from(doc@, off as int),
{
    let mut out: Vec<u8> = Vec::new();
    if off >= doc.len() as u64 {
        proof {
            if off == doc.len() as u64 {
                assert(bytes_from(doc@, off as int) =~= Seq::<u8>::empty());
            }
        }
        return out;
    }
    let start = off as usize;
    let mut i: usize = start;
    while i < doc.len()
        invariant
            start <= i <= doc@.len(),
            start < doc@.len(),
            out@ == doc@.subrange(start as int, i as int),
        decreases doc@.len() - i,
    {
        out.push(doc[i]);
        proof {
            assert(doc@.subrange(start as int, i + 1) =~= doc@.subrange(start as int, i as int).push(
                doc@[i as int],
            ));
        }
        i = i + 1;
    }
    proof {
        assert(out@ =~= doc@.skip(start as int));
    }
    out
}

/// Splice one write of `data` at byte offset `off` into the session buffer.
pub fn write_into(buf: &mut Vec<u8>, off: u64, data: &[u8])
    requires
        off + data@.len() <= usize::MAX,
    ensures
        final(buf)@ == apply_write(old(buf)@, off as int, data@),
{
    let ghost pre = buf@;
    let mut out: Vec<u8> = Vec::new();
    let head_end: usize = if (off as usize) < buf.len() {
        off as usize
    } else {
        buf.len()
    };
    let mut i: usize = 0;
    while i < head_end
        invariant
            pre == buf@,
            0 <= i <= head_end <= pre.len(),
            out@ == pre.subrange(0, i as int),
        decreases head_end - i,
    {
        out.push(buf[i]);
        proof {
            assert(pre.subrange(0, i + 1) =~= pre.subrange(0, i as int).push(pre[i as int]));
        }
        i = i + 1;
    }
    while (out.len() as u64) < off
        invariant
            pre == buf@,
            head_end <= out@.len(),
            out@.len() <= off || out@.len() == head_end,
            out@ == pre.subrange(0, head_end as int) + zero_bytes(out@.len() - head_end),
        decreases off - out@.len(),
    {
        out.push(0);
        proof {
            assert(out@ =~= pre.subrange(0, head_end as int) + zero_bytes(out@.len() - head_end));
        }
    }
    let ghost head = out@;
    proof {
        if off <= pre.len() {
            assert(head_end == off as int);
            assert(head =~= pre.take(off as int));
        } else {
            assert(head_end == pre.len());
            assert(head =~= pre + zero_bytes(off - pre.len()));
        }
    }
    let mut j: usize = 0;
    while j < data.len()
        invariant
            pre == buf@,
            0 <= j <= data@.len(),
            out@ == head + data@.subrange(0, j as int),
        decreases data@.len() - j,
    {
        out.push(data[j]);
        proof {
            assert(data@.subrange(0, j + 1) =~= data@.subrange(0, j as int).push(data@[j as int]));
            assert(out@ =~= head + data@.subrange(0, j + 1));
        }
        j = j + 1;
    }
    proof {
        assert(data@.subrange(0, data@.len() as int) =~= data@);
    }
    let tail_start = off + data.len() as u64;
    if tail_start < buf.len() as u64 {
        let mut t: usize = tail_start as usize;
        while t < buf.len()
            invariant
                pre == buf@,
                tail_start <= t <= pre.len(),
                out@ == head + data@ + pre.subrange(tail_start as int, t as int),
            decreases pre.len() - t,
        {
            out.push(buf[t]);
            proof {
                assert(pre.subrange(tail_start as int, t + 1) =~= pre.subrange(
                    tail_start as int,
                    t as int,
                ).push(pre[t as int]));
            }
            t = t + 1;
        }
        proof {
            assert(pre.subrange(tail_start as int, pre.len() as int) =~= pre.skip(
                tail_start as int,
            ));
        }
    }
    *buf = out;
    proof {
        assert(final(buf)@ =~= apply_write(pre, off as int, data@));
    }
}

/// Relies on `String::from_utf8`: it succeeds exactly on valid UTF-8 input,
/// and the returned string's UTF-8 encoding is exactly the input bytes.
#[verifier::external_body]
pub(crate) fn string_from_utf8(bytes: &Vec<u8>) -> (r: Option<String>)
    ensures
        r is Some <==> valid_utf8(bytes@),
        match r {
            Some(s) => encode_utf8(s@) == bytes@,
            None => true,
        },
{
    match String::from_utf8(bytes.clone()) {
        Ok(s) => Some(s),
        Err(_) => None,
    }
}

/// The UTF-8 bytes of a fetched document, as a byte vector.
pub fn document_bytes(doc: &str) -> (r: Vec<u8>)
    ensures
        r@ == encode_utf8(doc@),
{
    doc.as_bytes_vec()
}

/// Law — read/write round trip: a document written into an edit session's
/// buffer at offset zero, covering the whole previous content, and committed,
/// is read back byte-identical when the stored document is fetched again and
/// read from offset zero (the remote store having accepted it unchanged).
pub proof fn lemma_write_read_round_trip(doc: Seq<u8>, data: Seq<u8>, committed: Seq<char>)
    requires
        data.len() >= doc.len(),
        encode_utf8(committed) == apply_write(doc, 0, data),
    ensures
        bytes_from(encode_utf8(committed), 0) == data,
{
    assert(apply_write(doc, 0, data) =~= data);
    assert(bytes_from(encode_utf8(committed), 0) =~= encode_utf8(committed));
}

/// Law — a write is read back from its own offset: the spliced buffer holds
/// `data` byte-identically starting at `off`.
pub proof fn lemma_write_at_offset(buf: Seq<u8>, off: int, data: Seq<u8>)
    requires
        0 <= off <= buf.len(),
    ensures
        bytes_from(apply_write(buf, off, data), off).take(data.len() as int) == data,
{
    assert(bytes_from(apply_write(buf, off, data), off).take(data.len() as int) =~= data);
}

} // verus!
