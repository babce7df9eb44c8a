//! What a reader of the capsule stream comes to, however the stream is cut
//! into chunks.

use vstd::prelude::*;

use crate::error::DecodeError;

use super::codec::lemma_varint_bytes;
use super::{
    after_capsule, capsule_at, capsule_bytes, capsule_complete, capsule_wf, lemma_capsule_extend,
    lemma_capsule_roundtrip, CapsuleView, CAPSULE_ADDRESS_ASSIGN, CAPSULE_ADDRESS_REQUEST,
    CAPSULE_ROUTE_ADVERTISEMENT,
};

verus! {

/// What one look at the front of some bytes gives, and the bytes after it: the
/// complete capsule or its fault, which is taken off, or nothing.
pub open spec fn next_of(s: Seq<u8>) -> (Result<Option<CapsuleView>, DecodeError>, Seq<u8>) {
    if capsule_complete(s) {
        match capsule_at(s) {
            Ok(c) => (Ok(Some(c)), after_capsule(s)),
            Err(e) => (Err(e), after_capsule(s)),
        }
    } else {
        (Ok(None), s)
    }
}

/// The complete capsules at the front of some bytes, up to the first
/// malformed one.
pub open spec fn capsules_in(s: Seq<u8>) -> Seq<CapsuleView>
    decreases s.len(),
{
    if capsule_complete(s) && capsule_at(s) is Ok && after_capsule(s).len() < s.len() {
        seq![capsule_at(s)->Ok_0] + capsules_in(after_capsule(s))
    } else {
        Seq::empty()
    }
}

/// What is wrong with the first malformed capsule, if one is there.
pub open spec fn fault_in(s: Seq<u8>) -> Option<DecodeError>
    decreases s.len(),
{
    if capsule_complete(s) && after_capsule(s).len() < s.len() {
        match capsule_at(s) {
            Ok(_) => fault_in(after_capsule(s)),
            Err(e) => Some(e),
        }
    } else {
        None
    }
}

/// What is left of some bytes once the complete capsules are taken off, up to
/// and with the first malformed one.
pub open spec fn left_in(s: Seq<u8>) -> Seq<u8>
    decreases s.len(),
{
    if capsule_complete(s) && after_capsule(s).len() < s.len() {
        match capsule_at(s) {
            Ok(_) => left_in(after_capsule(s)),
            Err(_) => after_capsule(s),
        }
    } else {
        s
    }
}

/// Taking a complete capsule off leaves fewer bytes.
pub proof fn lemma_capsule_shrinks(s: Seq<u8>)
    ensures
        capsule_complete(s) ==> after_capsule(s).len() < s.len(),
{
}

/// Capsules one behind the other, as they go onto a stream.
pub open spec fn stream_of(cs: Seq<CapsuleView>) -> Seq<u8>
    decreases cs.len(),
{
    if cs.len() == 0 {
        Seq::empty()
    } else {
        capsule_bytes(cs[0]) + stream_of(cs.drop_first())
    }
}

proof fn lemma_capsule_not_empty(c: CapsuleView)
    requires
        capsule_wf(c),
    ensures
        capsule_bytes(c).len() > 0,
{
    lemma_varint_bytes(CAPSULE_ADDRESS_ASSIGN);
    lemma_varint_bytes(CAPSULE_ADDRESS_REQUEST);
    lemma_varint_bytes(CAPSULE_ROUTE_ADVERTISEMENT);
    if let CapsuleView::Unknown { type_id, .. } = c {
        lemma_varint_bytes(type_id);
    }
}

/// A reader takes the capsules off the stream that a writer put onto it, in
/// order and none else; of a capsule that is not all there yet, every byte is
/// kept.
pub proof fn lemma_stream_read(cs: Seq<CapsuleView>, rest: Seq<u8>)
    requires
        forall|i: int| 0 <= i < cs.len() ==> capsule_wf(#[trigger] cs[i]),
        !capsule_complete(rest),
    ensures
        capsules_in(stream_of(cs) + rest) == cs,
        fault_in(stream_of(cs) + rest) is None,
        left_in(stream_of(cs) + rest) == rest,
    decreases cs.len(),
{
    if cs.len() == 0 {
        assert(stream_of(cs) + rest =~= rest);
    } else {
        let tail = cs.drop_first();
        assert forall|i: int| 0 <= i < tail.len() implies capsule_wf(#[trigger] tail[i]) by {
            assert(tail[i] == cs[i + 1]);
        }
        lemma_stream_read(tail, rest);
        lemma_capsule_roundtrip(cs[0], stream_of(tail) + rest);
        lemma_capsule_not_empty(cs[0]);
        assert(stream_of(cs) + rest =~= capsule_bytes(cs[0]) + (stream_of(tail) + rest));
        assert(capsules_in(stream_of(cs) + rest) =~= seq![cs[0]] + capsules_in(
            stream_of(tail) + rest,
        ));
        assert(seq![cs[0]] + tail =~= cs);
    }
}

/// Wherever a stream is cut in two, a reader comes to the same capsules and
/// keeps the same bytes.
pub proof fn lemma_chunks(a: Seq<u8>, b: Seq<u8>)
    requires
        fault_in(a) is None,
    ensures
        capsules_in(a + b) == capsules_in(a) + capsules_in(left_in(a) + b),
        fault_in(a + b) == fault_in(left_in(a) + b),
        left_in(a + b) == left_in(left_in(a) + b),
    decreases a.len(),
{
    if capsule_complete(a) && after_capsule(a).len() < a.len() {
        lemma_capsule_extend(a, b);
        lemma_chunks(after_capsule(a), b);
        assert(capsules_in(a + b) =~= capsules_in(a) + capsules_in(left_in(a) + b));
    } else {
        assert(capsules_in(a) + capsules_in(a + b) =~= capsules_in(a + b));
    }
}

/// Looking again and again, until there is nothing or a fault, gives the
/// capsules that some bytes hold, the fault in them, and what is left of them.
pub proof fn lemma_next(s: Seq<u8>)
    ensures
        match next_of(s).0 {
            Ok(Some(c)) => {
                &&& capsules_in(s) == seq![c] + capsules_in(next_of(s).1)
                &&& fault_in(s) == fault_in(next_of(s).1)
                &&& left_in(s) == left_in(next_of(s).1)
                &&& next_of(s).1.len() < s.len()
            },
            Ok(None) => {
                &&& capsules_in(s) == Seq::<CapsuleView>::empty()
                &&& fault_in(s) is None
                &&& left_in(s) == s
                &&& next_of(s).1 == s
            },
            Err(e) => {
                &&& capsules_in(s) == Seq::<CapsuleView>::empty()
                &&& fault_in(s) == Some(e)
                &&& left_in(s) == next_of(s).1
            },
        },
{
    lemma_capsule_shrinks(s);
}

/// Chunks one behind the other.
pub open spec fn joined(chunks: Seq<Seq<u8>>) -> Seq<u8>
    decreases chunks.len(),
{
    if chunks.len() == 0 {
        Seq::empty()
    } else {
        chunks[0] + joined(chunks.drop_first())
    }
}

/// The capsules that a reader takes off who has `kept` some bytes, is handed
/// chunk after chunk, and after each takes off all it can.
pub open spec fn yielded(kept: Seq<u8>, chunks: Seq<Seq<u8>>) -> Seq<CapsuleView>
    decreases chunks.len(),
{
    if chunks.len() == 0 {
        Seq::empty()
    } else {
        capsules_in(kept + chunks[0]) + yielded(left_in(kept + chunks[0]), chunks.drop_first())
    }
}

/// Such a reader meets no fault.
pub open spec fn unfaulted(kept: Seq<u8>, chunks: Seq<Seq<u8>>) -> bool
    decreases chunks.len(),
{
    chunks.len() == 0 || {
        &&& fault_in(kept + chunks[0]) is None
        &&& unfaulted(left_in(kept + chunks[0]), chunks.drop_first())
    }
}

/// What such a reader has kept at the end.
pub open spec fn kept_after(kept: Seq<u8>, chunks: Seq<Seq<u8>>) -> Seq<u8>
    decreases chunks.len(),
{
    if chunks.len() == 0 {
        kept
    } else {
        kept_after(left_in(kept + chunks[0]), chunks.drop_first())
    }
}

/// A fault stays one, whatever follows.
proof fn lemma_fault_stays(a: Seq<u8>, b: Seq<u8>)
    ensures
        fault_in(a) is Some ==> fault_in(a + b) == fault_in(a),
    decreases a.len(),
{
    if capsule_complete(a) && after_capsule(a).len() < a.len() {
        lemma_capsule_extend(a, b);
        lemma_fault_stays(after_capsule(a), b);
    }
}

/// What is left has no complete capsule in front.
proof fn lemma_left_waits(s: Seq<u8>)
    requires
        fault_in(s) is None,
    ensures
        !capsule_complete(left_in(s)),
    decreases s.len(),
{
    lemma_capsule_shrinks(s);
    if capsule_complete(s) {
        lemma_left_waits(after_capsule(s));
    }
}

/// However a stream without a fault is cut into chunks, a reader takes the
/// same capsules off it as one who has it whole, meets no fault on the way,
/// and keeps the same bytes at the end.
pub proof fn lemma_any_split(kept: Seq<u8>, chunks: Seq<Seq<u8>>)
    requires
        !capsule_complete(kept),
        fault_in(kept + joined(chunks)) is None,
    ensures
        yielded(kept, chunks) == capsules_in(kept + joined(chunks)),
        unfaulted(kept, chunks),
        kept_after(kept, chunks) == left_in(kept + joined(chunks)),
    decreases chunks.len(),
{
    if chunks.len() == 0 {
        assert(kept + joined(chunks) =~= kept);
    } else {
        let a = kept + chunks[0];
        let rest = chunks.drop_first();
        assert(kept + joined(chunks) =~= a + joined(rest));
        lemma_fault_stays(a, joined(rest));
        lemma_chunks(a, joined(rest));
        lemma_left_waits(a);
        lemma_any_split(left_in(a), rest);
    }
}

/// However well-formed capsules are cut into chunks on their way, the reader
/// gets exactly them, in order: none is lost or comes twice, one that is not
/// all there is no fault, and nothing is left over.
pub proof fn lemma_capsules_arrive(cs: Seq<CapsuleView>, chunks: Seq<Seq<u8>>)
    requires
        forall|i: int| 0 <= i < cs.len() ==> capsule_wf(#[trigger] cs[i]),
        joined(chunks) == stream_of(cs),
    ensures
        yielded(Seq::empty(), chunks) == cs,
        unfaulted(Seq::empty(), chunks),
        kept_after(Seq::empty(), chunks) == Seq::<u8>::empty(),
        capsules_in(stream_of(cs)) == cs,
{
    let none = Seq::<u8>::empty();
    assert(none + joined(chunks) =~= stream_of(cs));
    assert(stream_of(cs) + none =~= stream_of(cs));
    lemma_stream_read(cs, none);
    lemma_any_split(none, chunks);
}

} // verus!
