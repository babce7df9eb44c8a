//! Context bookkeeping of a CONNECT-UDP bind session.
//!
//! A bind session carries UDP packets to and from many addresses over one
//! HTTP/3 stream. Each datagram names a context: the *uncompressed* one spells
//! the address out in every datagram, a *compressed* one is bound to a single
//! address and elides it. A context is registered with COMPRESSION_ASSIGN,
//! usable once the far end has acknowledged it, and retired with
//! COMPRESSION_CLOSE.

use bytes::{Bytes, BytesMut};
use vstd::prelude::*;

use crate::buf::{append, buffered, freeze, frozen, frozen_slice, has_room, new_buffer};
use crate::bigendian::{bytes16, lemma_be_bytes_len, push_u16};
use crate::capsule::codec::{lemma_varint_bytes, varint_bytes, write_varint, VARINT_MAX};
use crate::codepoints::CAPSULE_COMPRESSION_ASSIGN;
use crate::net::{IpAddr, SocketAddr};
use crate::text::{decimal, push_decimal};

verus! {

/// What a context stands for.
#[derive(Debug, Clone, Copy, PartialEq, Eq, Structural)]
pub enum Binding {
    /// Every datagram spells its address out.
    Uncompressed,
    /// Every datagram is to or from this address.
    Compressed(SocketAddr),
}

/// An address on the wire: IP version, address, port.
pub open spec fn addr_bytes(a: SocketAddr) -> Seq<u8> {
    seq![a.ip.spec_version()] + a.ip.spec_octets() + bytes16(a.port)
}

/// The length of an address on the wire.
pub proof fn lemma_addr_len(a: SocketAddr)
    ensures
        addr_bytes(a).len() == if a.ip is V4 {
            7nat
        } else {
            19nat
        },
{
    match a.ip {
        IpAddr::V4(x) => lemma_be_bytes_len(x.bits as nat, 4),
        IpAddr::V6(x) => lemma_be_bytes_len(x.bits as nat, 16),
    }
}

fn push_addr(out: &mut Vec<u8>, a: SocketAddr)
    ensures
        final(out)@ == old(out)@ + addr_bytes(a),
{
    out.push(a.ip.version());
    let mut octets = a.ip.octets();
    out.append(&mut octets);
    push_u16(out, a.port);
    proof {
        assert(out@ =~= old(out)@ + addr_bytes(a));
    }
}

/// A binding on the wire: the address it is for, or IP version zero.
pub open spec fn binding_bytes(b: Binding) -> Seq<u8> {
    match b {
        Binding::Uncompressed => seq![0u8],
        Binding::Compressed(a) => addr_bytes(a),
    }
}

/// A capsule about one context.
pub open spec fn context_capsule(type_id: u64, context_id: u64, tail: Seq<u8>) -> Seq<u8> {
    let payload = varint_bytes(context_id) + tail;
    varint_bytes(type_id) + varint_bytes(payload.len() as u64) + payload
}

fn put_context_capsule(type_id: u64, context_id: u64, tail: &[u8], buf: &mut BytesMut)
    requires
        type_id <= VARINT_MAX,
        context_id <= VARINT_MAX,
        tail@.len() <= 64,
        has_room(*old(buf), 128),
    ensures
        buffered(*final(buf)) == buffered(*old(buf)) + context_capsule(type_id, context_id, tail@),
{
    let mut payload = new_buffer();
    proof {
        lemma_varint_bytes(type_id);
        lemma_varint_bytes(context_id);
    }
    let _ = write_varint(&mut payload, context_id);
    append(&mut payload, tail);
    let payload = freeze(payload);
    let p = frozen_slice(&payload);
    proof {
        assert(p@ =~= varint_bytes(context_id) + tail@);
        lemma_varint_bytes(p@.len() as u64);
    }
    let _ = write_varint(buf, type_id);
    let _ = write_varint(buf, p.len() as u64);
    append(buf, p);
    proof {
        assert(buffered(*buf) =~= buffered(*old(buf)) + context_capsule(
            type_id,
            context_id,
            tail@,
        ));
    }
}

/// Encode a capsule whose payload is a context id: COMPRESSION_ACK or
/// COMPRESSION_CLOSE.
pub fn encode_context_capsule(type_id: u64, context_id: u64, buf: &mut BytesMut)
    requires
        type_id <= VARINT_MAX,
        context_id <= VARINT_MAX,
        has_room(*old(buf), 128),
    ensures
        buffered(*final(buf)) == buffered(*old(buf)) + context_capsule(
            type_id,
            context_id,
            Seq::empty(),
        ),
{
    let none: Vec<u8> = Vec::new();
    put_context_capsule(type_id, context_id, none.as_slice(), buf);
}

/// The registration of a context.
#[derive(Debug, Clone, Copy, PartialEq, Eq, Structural)]
pub struct CompressionAssign {
    pub context_id: u64,
    pub binding: Binding,
}

impl CompressionAssign {
    /// The capsule that registers the context.
    pub open spec fn wire(self) -> Seq<u8> {
        context_capsule(CAPSULE_COMPRESSION_ASSIGN, self.context_id, binding_bytes(self.binding))
    }

    /// Encode the COMPRESSION_ASSIGN capsule.
    pub fn encode(&self, buf: &mut BytesMut)
        requires
            self.context_id <= VARINT_MAX,
            has_room(*old(buf), 128),
        ensures
            buffered(*final(buf)) == buffered(*old(buf)) + self.wire(),
    {
        let mut tail: Vec<u8> = Vec::new();
        match self.binding {
            Binding::Uncompressed => {
                tail.push(0);
            },
            Binding::Compressed(a) => {
                push_addr(&mut tail, a);
                proof {
                    lemma_addr_len(a);
                }
            },
        }
        proof {
            assert(tail@ =~= binding_bytes(self.binding));
        }
        put_context_capsule(CAPSULE_COMPRESSION_ASSIGN, self.context_id, tail.as_slice(), buf);
    }
}

/// Why a context operation is refused.
#[derive(Debug, Clone, Copy, PartialEq, Eq, Structural)]
pub enum ContextError {
    /// The id does not fit a varint.
    OutOfRange(u64),
    /// The id is in use.
    Duplicate(u64),
    /// No such context is usable.
    Unknown(u64),
    /// The context is bound to another address.
    WrongAddress(u64),
}

impl ContextError {
    /// What the error says.
    pub open spec fn text(self) -> Seq<char> {
        match self {
            ContextError::OutOfRange(id) => "context "@ + decimal(id as nat) + " is out of range"@,
            ContextError::Duplicate(id) => "context "@ + decimal(id as nat)
                + " is already registered"@,
            ContextError::Unknown(id) => "context "@ + decimal(id as nat) + " is not registered"@,
            ContextError::WrongAddress(id) => "context "@ + decimal(id as nat)
                + " is bound to another address"@,
        }
    }

    /// What the error says.
    pub fn message(&self) -> (s: String)
        ensures
            s@ == self.text(),
    {
        let (id, what): (u64, &str) = match self {
            ContextError::OutOfRange(id) => (*id, " is out of range"),
            ContextError::Duplicate(id) => (*id, " is already registered"),
            ContextError::Unknown(id) => (*id, " is not registered"),
            ContextError::WrongAddress(id) => (*id, " is bound to another address"),
        };
        let mut s = String::from_str("context ");
        push_decimal(&mut s, id);
        s.append(what);
        s
    }
}

/// A context of a table.
#[derive(Debug, Clone, Copy, PartialEq, Eq, Structural)]
pub struct Entry {
    pub id: u64,
    pub binding: Binding,
    /// The far end has acknowledged the context.
    pub active: bool,
}

/// The contexts of a bind session, in the order they were registered.
#[derive(Debug)]
pub struct ContextTable {
    entries: Vec<Entry>,
}

impl View for ContextTable {
    type V = Seq<Entry>;

    closed spec fn view(&self) -> Seq<Entry> {
        self.entries@
    }
}

/// A context of this id is registered.
pub open spec fn has_id(s: Seq<Entry>, id: u64) -> bool {
    exists|i: int| 0 <= i < s.len() && (#[trigger] s[i]).id == id
}

/// The contexts but that of one id.
pub open spec fn without(s: Seq<Entry>, id: u64) -> Seq<Entry>
    decreases s.len(),
{
    if s.len() == 0 {
        Seq::empty()
    } else if s.last().id == id {
        without(s.drop_last(), id)
    } else {
        without(s.drop_last(), id).push(s.last())
    }
}

/// The contexts, with that of one id acknowledged.
pub open spec fn activated(s: Seq<Entry>, id: u64) -> Seq<Entry> {
    s.map_values(
        |e: Entry|
            if e.id == id {
                Entry { active: true, ..e }
            } else {
                e
            },
    )
}

/// The first acknowledged context with a binding.
pub open spec fn first_active(s: Seq<Entry>, b: Binding) -> Option<u64>
    decreases s.len(),
{
    if s.len() == 0 {
        None
    } else {
        match first_active(s.drop_last(), b) {
            Some(id) => Some(id),
            None => if s.last().active && s.last().binding == b {
                Some(s.last().id)
            } else {
                None
            },
        }
    }
}

/// What an acknowledged context stands for.
pub open spec fn active_binding(s: Seq<Entry>, id: u64) -> Option<Binding>
    decreases s.len(),
{
    if s.len() == 0 {
        None
    } else {
        match active_binding(s.drop_last(), id) {
            Some(b) => Some(b),
            None => if s.last().active && s.last().id == id {
                Some(s.last().binding)
            } else {
                None
            },
        }
    }
}

/// The datagram that carries `contents` to `dst` on a context, if the context
/// can carry it.
pub open spec fn bound_datagram(
    s: Seq<Entry>,
    id: u64,
    dst: SocketAddr,
    contents: Seq<u8>,
) -> Result<Seq<u8>, ContextError> {
    match active_binding(s, id) {
        None => Err(ContextError::Unknown(id)),
        Some(Binding::Uncompressed) => Ok(varint_bytes(id) + addr_bytes(dst) + contents),
        Some(Binding::Compressed(a)) => if a == dst {
            Ok(varint_bytes(id) + contents)
        } else {
            Err(ContextError::WrongAddress(id))
        },
    }
}

/// The view of a datagram, or of the error in its place.
pub open spec fn datagram_view(r: Result<Bytes, ContextError>) -> Result<Seq<u8>, ContextError> {
    match r {
        Ok(b) => Ok(frozen(b)),
        Err(e) => Err(e),
    }
}

/// A table without its last entry is one too.
pub proof fn lemma_wf_prefix(s: Seq<Entry>)
    requires
        table_wf(s),
        s.len() > 0,
    ensures
        table_wf(s.drop_last()),
{
    let d = s.drop_last();
    assert forall|i: int| 0 <= i < d.len() implies (#[trigger] d[i]).id <= VARINT_MAX by {
        assert(s[i].id <= VARINT_MAX);
    }
    assert forall|i: int, j: int| 0 <= i < j < d.len() implies (#[trigger] d[i]).id != (
    #[trigger] d[j]).id by {
        assert(s[i].id != s[j].id);
    }
}

/// The id of a usable context fits a varint.
pub proof fn lemma_active_id(s: Seq<Entry>, id: u64)
    requires
        table_wf(s),
        active_binding(s, id) is Some,
    ensures
        id <= VARINT_MAX,
    decreases s.len(),
{
    if s.len() > 0 {
        if active_binding(s.drop_last(), id) is Some {
            lemma_wf_prefix(s);
            lemma_active_id(s.drop_last(), id);
        } else {
            assert(s[s.len() - 1].id == id);
        }
    }
}

proof fn lemma_without_ids(s: Seq<Entry>, id: u64)
    requires
        table_wf(s),
    ensures
        table_wf(without(s, id)),
        !has_id(without(s, id), id),
        forall|x: u64| x != id ==> (#[trigger] has_id(without(s, id), x) <==> has_id(s, x)),
    decreases s.len(),
{
    let w = without(s, id);
    if s.len() > 0 {
        let d = s.drop_last();
        lemma_wf_prefix(s);
        lemma_without_ids(d, id);
        let wd = without(d, id);
        let last = s.last();
        assert(!has_id(d, last.id)) by {
            if has_id(d, last.id) {
                let i = choose|i: int| 0 <= i < d.len() && (#[trigger] d[i]).id == last.id;
                assert(s[i].id != s[s.len() - 1].id);
            }
        }
        assert(s[s.len() - 1].id <= VARINT_MAX);
        if last.id != id {
            assert(!has_id(wd, last.id));
            assert forall|i: int, j: int| 0 <= i < j < w.len() implies (#[trigger] w[i]).id != (
            #[trigger] w[j]).id by {
                if j == wd.len() {
                    assert(wd[i].id != last.id);
                }
            }
            assert(!has_id(w, id)) by {
                if has_id(w, id) {
                    let i = choose|i: int| 0 <= i < w.len() && (#[trigger] w[i]).id == id;
                    assert(wd[i].id == id);
                }
            }
        }
        assert forall|x: u64| x != id implies (#[trigger] has_id(w, x) <==> has_id(s, x)) by {
            if has_id(s, x) {
                let i = choose|i: int| 0 <= i < s.len() && (#[trigger] s[i]).id == x;
                if i < d.len() {
                    assert(d[i].id == x);
                    assert(has_id(wd, x));
                    let k = choose|k: int| 0 <= k < wd.len() && (#[trigger] wd[k]).id == x;
                    assert(w[k].id == x);
                } else {
                    assert(w[w.len() - 1].id == x);
                }
            }
            if has_id(w, x) {
                let i = choose|i: int| 0 <= i < w.len() && (#[trigger] w[i]).id == x;
                if i < wd.len() {
                    assert(wd[i].id == x);
                    assert(has_id(wd, x));
                    assert(has_id(d, x));
                    let k = choose|k: int| 0 <= k < d.len() && (#[trigger] d[k]).id == x;
                    assert(s[k].id == x);
                } else {
                    assert(s[s.len() - 1].id == x);
                }
            }
        }
    }
}

/// Ids are distinct and fit a varint.
pub open spec fn table_wf(s: Seq<Entry>) -> bool {
    &&& forall|i: int| 0 <= i < s.len() ==> (#[trigger] s[i]).id <= VARINT_MAX
    &&& forall|i: int, j: int|
        0 <= i < j < s.len() ==> (#[trigger] s[i]).id != (#[trigger] s[j]).id
}

impl ContextTable {
    /// The table's invariant.
    pub open spec fn wf(self) -> bool {
        table_wf(self@)
    }

    /// A table without contexts.
    pub fn new() -> (t: Self)
        ensures
            t.wf(),
            t@ == Seq::<Entry>::empty(),
    {
        ContextTable { entries: Vec::new() }
    }

    fn index_of(&self, id: u64) -> (r: Option<usize>)
        ensures
            match r {
                Some(i) => i < self@.len() && self@[i as int].id == id,
                None => !has_id(self@, id),
            },
    {
        let mut i: usize = 0;
        while i < self.entries.len()
            invariant
                i <= self.entries@.len(),
                forall|j: int| 0 <= j < i ==> (#[trigger] self.entries@[j]).id != id,
            decreases self.entries@.len() - i,
        {
            if self.entries[i].id == id {
                return Some(i);
            }
            i = i + 1;
        }
        None
    }

    /// Register a context; it is usable once it is acknowledged.
    pub fn register(&mut self, assign: CompressionAssign) -> (r: Result<(), ContextError>)
        requires
            old(self).wf(),
        ensures
            final(self).wf(),
            if assign.context_id > VARINT_MAX {
                r == Err::<(), ContextError>(ContextError::OutOfRange(assign.context_id))
                    && final(self)@ == old(self)@
            } else if has_id(old(self)@, assign.context_id) {
                r == Err::<(), ContextError>(ContextError::Duplicate(assign.context_id))
                    && final(self)@ == old(self)@
            } else {
                r is Ok && final(self)@ == old(self)@.push(
                    Entry { id: assign.context_id, binding: assign.binding, active: false },
                )
            },
    {
        if assign.context_id > VARINT_MAX {
            return Err(ContextError::OutOfRange(assign.context_id));
        }
        if self.index_of(assign.context_id).is_some() {
            return Err(ContextError::Duplicate(assign.context_id));
        }
        self.entries.push(
            Entry { id: assign.context_id, binding: assign.binding, active: false },
        );
        Ok(())
    }

    /// The far end acknowledged a context.
    pub fn ack(&mut self, id: u64) -> (r: Result<(), ContextError>)
        requires
            old(self).wf(),
        ensures
            final(self).wf(),
            final(self)@ == activated(old(self)@, id),
            r == (if has_id(old(self)@, id) {
                Ok::<(), ContextError>(())
            } else {
                Err::<(), ContextError>(ContextError::Unknown(id))
            }),
    {
        match self.index_of(id) {
            None => {
                proof {
                    assert(activated(self@, id) =~= self@);
                }
                Err(ContextError::Unknown(id))
            },
            Some(i) => {
                let e = self.entries[i];
                self.entries[i] = Entry { id: e.id, binding: e.binding, active: true };
                proof {
                    assert(self@ =~= activated(old(self)@, id));
                }
                Ok(())
            },
        }
    }

    /// Retire a context.
    pub fn close(&mut self, id: u64)
        requires
            old(self).wf(),
        ensures
            final(self).wf(),
            final(self)@ == without(old(self)@, id),
    {
        let mut kept: Vec<Entry> = Vec::new();
        let mut i: usize = 0;
        proof {
            lemma_without_ids(self@, id);
            assert(self.entries@.take(0) =~= Seq::<Entry>::empty());
        }
        while i < self.entries.len()
            invariant
                i <= self.entries@.len(),
                kept@ == without(self.entries@.take(i as int), id),
                self.entries@ == old(self)@,
            decreases self.entries@.len() - i,
        {
            proof {
                assert(self.entries@.take(i + 1).drop_last() =~= self.entries@.take(i as int));
            }
            let e = self.entries[i];
            if e.id != id {
                kept.push(e);
            }
            i = i + 1;
        }
        proof {
            assert(self.entries@.take(i as int) =~= self.entries@);
        }
        self.entries = kept;
    }

    /// What a usable context stands for.
    pub fn binding(&self, id: u64) -> (r: Option<Binding>)
        ensures
            r == active_binding(self@, id),
    {
        let mut i: usize = 0;
        proof {
            assert(self.entries@.take(0) =~= Seq::<Entry>::empty());
        }
        while i < self.entries.len()
            invariant
                i <= self.entries@.len(),
                active_binding(self.entries@.take(i as int), id) is None,
            decreases self.entries@.len() - i,
        {
            proof {
                assert(self.entries@.take(i + 1).drop_last() =~= self.entries@.take(i as int));
            }
            let e = self.entries[i];
            if e.active && e.id == id {
                proof {
                    lemma_binding_prefix(self.entries@, id, i + 1);
                }
                return Some(e.binding);
            }
            i = i + 1;
        }
        proof {
            assert(self.entries@.take(i as int) =~= self.entries@);
        }
        None
    }

    fn first(&self, b: Binding) -> (r: Option<u64>)
        ensures
            r == first_active(self@, b),
    {
        let mut i: usize = 0;
        proof {
            assert(self.entries@.take(0) =~= Seq::<Entry>::empty());
        }
        while i < self.entries.len()
            invariant
                i <= self.entries@.len(),
                first_active(self.entries@.take(i as int), b) is None,
            decreases self.entries@.len() - i,
        {
            proof {
                assert(self.entries@.take(i + 1).drop_last() =~= self.entries@.take(i as int));
            }
            let e = self.entries[i];
            if e.active && e.binding == b {
                proof {
                    lemma_first_prefix(self.entries@, b, i + 1);
                }
                return Some(e.id);
            }
            i = i + 1;
        }
        proof {
            assert(self.entries@.take(i as int) =~= self.entries@);
        }
        None
    }

    /// The usable context that is bound to an address.
    pub fn compressed_context_for(&self, dst: SocketAddr) -> (r: Option<u64>)
        ensures
            r == first_active(self@, Binding::Compressed(dst)),
    {
        self.first(Binding::Compressed(dst))
    }

    /// The usable context that spells addresses out.
    pub fn uncompressed_context(&self) -> (r: Option<u64>)
        ensures
            r == first_active(self@, Binding::Uncompressed),
    {
        self.first(Binding::Uncompressed)
    }

    /// The datagram that carries `contents` to `dst` on a context.
    pub fn encode_datagram(&self, id: u64, dst: SocketAddr, contents: &[u8]) -> (r: Result<
        Bytes,
        ContextError,
    >)
        requires
            self.wf(),
            contents@.len() + 64 <= isize::MAX,
        ensures
            datagram_view(r) == bound_datagram(self@, id, dst, contents@),
    {
        let binding = match self.binding(id) {
            Some(b) => b,
            None => {
                return Err(ContextError::Unknown(id));
            },
        };
        proof {
            lemma_active_id(self@, id);
            lemma_varint_bytes(id);
            lemma_addr_len(dst);
        }
        let mut buf = new_buffer();
        let _ = write_varint(&mut buf, id);
        match binding {
            Binding::Uncompressed => {
                let mut prefix: Vec<u8> = Vec::new();
                push_addr(&mut prefix, dst);
                append(&mut buf, prefix.as_slice());
                append(&mut buf, contents);
                proof {
                    assert(buffered(buf) =~= varint_bytes(id) + addr_bytes(dst) + contents@);
                }
            },
            Binding::Compressed(a) => {
                if a != dst {
                    return Err(ContextError::WrongAddress(id));
                }
                append(&mut buf, contents);
                proof {
                    assert(buffered(buf) =~= varint_bytes(id) + contents@);
                }
            },
        }
        Ok(freeze(buf))
    }
}

proof fn lemma_binding_prefix(s: Seq<Entry>, id: u64, k: int)
    requires
        0 <= k <= s.len(),
        active_binding(s.take(k), id) is Some,
    ensures
        active_binding(s, id) == active_binding(s.take(k), id),
    decreases s.len(),
{
    if k == s.len() {
        assert(s.take(k) =~= s);
    } else {
        assert(s.drop_last().take(k) =~= s.take(k));
        lemma_binding_prefix(s.drop_last(), id, k);
    }
}

proof fn lemma_first_prefix(s: Seq<Entry>, b: Binding, k: int)
    requires
        0 <= k <= s.len(),
        first_active(s.take(k), b) is Some,
    ensures
        first_active(s, b) == first_active(s.take(k), b),
    decreases s.len(),
{
    if k == s.len() {
        assert(s.take(k) =~= s);
    } else {
        assert(s.drop_last().take(k) =~= s.take(k));
        lemma_first_prefix(s.drop_last(), b, k);
    }
}

/// Closing one context leaves what the others stand for.
pub proof fn lemma_close_keeps(s: Seq<Entry>, id: u64, b: Binding)
    requires
        table_wf(s),
        first_active(s, b) != Some(id),
    ensures
        first_active(without(s, id), b) == first_active(s, b),
    decreases s.len(),
{
    if s.len() > 0 {
        let d = s.drop_last();
        lemma_wf_prefix(s);
        lemma_close_keeps(d, id, b);
        let w = without(s, id);
        if s.last().id != id {
            assert(w.drop_last() =~= without(d, id));
        }
    }
}

/// An address on the wire: the version, the octets in network order, the port.
pub proof fn lemma_addr_layout(a: SocketAddr)
    ensures
        ({
            let b = addr_bytes(a);
            match a.ip {
                IpAddr::V4(v4) => {
                    &&& b.len() == 7
                    &&& b[0] == 4
                    &&& b[1] * 0x100_0000 + b[2] * 0x1_0000 + b[3] * 256 + b[4] == v4.bits
                    &&& b[5] * 256 + b[6] == a.port
                },
                IpAddr::V6(v6) => {
                    &&& b.len() == 19
                    &&& b[0] == 6
                    &&& crate::bigendian::be_value(b.subrange(1, 17)) == v6.bits
                    &&& b[17] * 256 + b[18] == a.port
                },
            }
        }),
{
    let b = addr_bytes(a);
    lemma_addr_len(a);
    crate::capsule::address_assign::lemma_prefix_layout(a.ip, 0);
    let x = crate::capsule::address_assign::prefix_bytes(a.ip.spec_version(), a.ip, 0);
    match a.ip {
        IpAddr::V4(_) => {
            assert(b[1] == x[1] && b[2] == x[2] && b[3] == x[3] && b[4] == x[4]);
        },
        IpAddr::V6(_) => {
            assert(b.subrange(1, 17) =~= x.subrange(1, 17));
        },
    }
}

/// A context is usable, and for what it was registered for, exactly if it is
/// in the table and was acknowledged.
pub proof fn lemma_active_binding(s: Seq<Entry>, id: u64, b: Binding)
    requires
        table_wf(s),
    ensures
        active_binding(s, id) == Some(b) <==> exists|i: int|
            0 <= i < s.len() && (#[trigger] s[i]).id == id && s[i].active && s[i].binding == b,
    decreases s.len(),
{
    if s.len() > 0 {
        let d = s.drop_last();
        let n = s.len() - 1;
        lemma_wf_prefix(s);
        lemma_active_binding(d, id, b);
        assert(forall|i: int| 0 <= i < n ==> #[trigger] d[i] == s[i]);
        assert(s[n] == s.last());
        if let Some(other) = active_binding(d, id) {
            lemma_active_binding(d, id, other);
            let i = choose|i: int|
                0 <= i < d.len() && (#[trigger] d[i]).id == id && d[i].active && d[i].binding
                    == other;
            assert(s[i].id == id);
            assert(s[n].id != id);
        }
        if exists|i: int|
            0 <= i < s.len() && (#[trigger] s[i]).id == id && s[i].active && s[i].binding == b {
            let i = choose|i: int|
                0 <= i < s.len() && (#[trigger] s[i]).id == id && s[i].active && s[i].binding == b;
            if i < n {
                assert(d[i] == s[i]);
            }
        }
        if active_binding(s, id) == Some(b) && active_binding(d, id) == Some(b) {
            let i = choose|i: int|
                0 <= i < d.len() && (#[trigger] d[i]).id == id && d[i].active && d[i].binding == b;
            assert(s[i] == d[i]);
        }
    }
}

/// The context that carries a binding is the first usable one that was
/// registered for it; there is none exactly if no usable one was.
pub proof fn lemma_first_active(s: Seq<Entry>, b: Binding)
    ensures
        match first_active(s, b) {
            Some(id) => exists|i: int|
                {
                    &&& 0 <= i < s.len()
                    &&& (#[trigger] s[i]).id == id
                    &&& s[i].active
                    &&& s[i].binding == b
                    &&& forall|j: int|
                        0 <= j < i ==> !((#[trigger] s[j]).active && s[j].binding == b)
                },
            None => forall|j: int|
                0 <= j < s.len() ==> !((#[trigger] s[j]).active && s[j].binding == b),
        },
    decreases s.len(),
{
    if s.len() > 0 {
        let d = s.drop_last();
        let n = s.len() - 1;
        lemma_first_active(d, b);
        assert(forall|j: int| 0 <= j < n ==> #[trigger] d[j] == s[j]);
        assert(s[n] == s.last());
        if let Some(id) = first_active(d, b) {
            let i = choose|i: int|
                {
                    &&& 0 <= i < d.len()
                    &&& (#[trigger] d[i]).id == id
                    &&& d[i].active
                    &&& d[i].binding == b
                    &&& forall|j: int|
                        0 <= j < i ==> !((#[trigger] d[j]).active && d[j].binding == b)
                };
            assert(s[i].id == id);
            assert forall|j: int| 0 <= j < i implies !((#[trigger] s[j]).active && s[j].binding
                == b) by {
                assert(d[j] == s[j]);
            }
        } else {
            assert forall|j: int| 0 <= j < n implies !((#[trigger] s[j]).active && s[j].binding
                == b) by {
                assert(d[j] == s[j]);
            }
        }
    }
}

/// Closing a context takes it out of the table and leaves every other.
pub proof fn lemma_without(s: Seq<Entry>, id: u64, e: Entry)
    ensures
        without(s, id).contains(e) <==> s.contains(e) && e.id != id,
    decreases s.len(),
{
    if s.len() > 0 {
        let d = s.drop_last();
        let n = s.len() - 1;
        let before = without(d, id);
        let after = without(s, id);
        lemma_without(d, id, e);
        assert(s[n] == s.last());
        if before.contains(e) {
            let i = choose|i: int| 0 <= i < before.len() && before[i] == e;
            assert(after[i] == e);
            let j = choose|j: int| 0 <= j < d.len() && d[j] == e;
            assert(s[j] == e);
        }
        if s.contains(e) && e.id != id {
            let j = choose|j: int| 0 <= j < s.len() && s[j] == e;
            if j < n {
                assert(d[j] == e);
            } else {
                assert(after[before.len() as int] == e);
            }
        }
        if after.contains(e) {
            let i = choose|i: int| 0 <= i < after.len() && after[i] == e;
            if i < before.len() {
                assert(before[i] == e);
            }
        }
    }
}

/// A context is of no use before it is acknowledged, carries what it was
/// registered for from then on, and is of no use once it is closed.
pub proof fn lemma_context_life(s: Seq<Entry>, id: u64, b: Binding)
    requires
        table_wf(s),
        id <= VARINT_MAX,
        !has_id(s, id),
    ensures
        ({
            let registered = s.push(Entry { id, binding: b, active: false });
            let usable = activated(registered, id);
            &&& active_binding(registered, id) is None
            &&& active_binding(usable, id) == Some(b)
            &&& active_binding(without(usable, id), id) is None
            &&& forall|i: int| 0 <= i < s.len() ==> #[trigger] usable[i] == s[i]
        }),
{
    let registered = s.push(Entry { id, binding: b, active: false });
    let usable = activated(registered, id);
    let n = s.len() as int;
    assert(forall|i: int| 0 <= i < n ==> #[trigger] s[i].id != id);
    assert(forall|i: int| 0 <= i < n ==> #[trigger] usable[i] == s[i]);
    assert(table_wf(registered)) by {
        assert(forall|i: int| 0 <= i < n ==> #[trigger] registered[i] == s[i]);
        assert forall|i: int, j: int| 0 <= i < j < registered.len() implies (
        #[trigger] registered[i]).id != (#[trigger] registered[j]).id by {
            assert(registered[i] == s[i]);
            if j < n {
                assert(registered[j] == s[j]);
            }
        }
    }
    assert(table_wf(usable)) by {
        assert(forall|i: int| 0 <= i < usable.len() ==> #[trigger] usable[i].id == registered[i].id);
        assert forall|i: int| 0 <= i < usable.len() implies (#[trigger] usable[i]).id
            <= VARINT_MAX by {
            assert(registered[i].id <= VARINT_MAX);
        }
        assert forall|i: int, j: int| 0 <= i < j < usable.len() implies (#[trigger] usable[i]).id
            != (#[trigger] usable[j]).id by {
            assert(registered[i].id != registered[j].id);
        }
    }
    assert(usable[n].id == id && usable[n].active && usable[n].binding == b);
    lemma_active_binding(usable, id, b);
    if let Some(x) = active_binding(registered, id) {
        lemma_active_binding(registered, id, x);
        let i = choose|i: int|
            0 <= i < registered.len() && (#[trigger] registered[i]).id == id && registered[i].active
                && registered[i].binding == x;
        if i < n {
            assert(registered[i] == s[i]);
        }
    }
    lemma_without_inactive(usable, id);
}

proof fn lemma_without_inactive(s: Seq<Entry>, id: u64)
    ensures
        active_binding(without(s, id), id) is None,
    decreases s.len(),
{
    if s.len() > 0 {
        lemma_without_inactive(s.drop_last(), id);
        let before = without(s.drop_last(), id);
        assert(before.push(s.last()).drop_last() =~= before);
    }
}

/// A datagram can be sent on a context exactly if the context is usable and,
/// where it stands for an address, the packet is for that very address.
pub proof fn lemma_bound_datagram(s: Seq<Entry>, id: u64, dst: SocketAddr, contents: Seq<u8>)
    ensures
        bound_datagram(s, id, dst, contents) is Ok <==> active_binding(s, id) == Some(
            Binding::Uncompressed,
        ) || active_binding(s, id) == Some(Binding::Compressed(dst)),
        active_binding(s, id) == Some(Binding::Compressed(dst)) ==> bound_datagram(
            s,
            id,
            dst,
            contents,
        ) == Ok::<Seq<u8>, ContextError>(varint_bytes(id) + contents),
        active_binding(s, id) == Some(Binding::Uncompressed) ==> bound_datagram(
            s,
            id,
            dst,
            contents,
        ) == Ok::<Seq<u8>, ContextError>(varint_bytes(id) + addr_bytes(dst) + contents),
{
}

/// A capsule about a context on the wire: the type, the length of the rest, the
/// context, and what is bound: a zero for any address, else the address.
pub proof fn lemma_assign_layout(a: CompressionAssign)
    ensures
        ({
            let bound = match a.binding {
                Binding::Uncompressed => seq![0u8],
                Binding::Compressed(addr) => addr_bytes(addr),
            };
            a.wire() == varint_bytes(0x11) + varint_bytes(
                (varint_bytes(a.context_id).len() + bound.len()) as u64,
            ) + varint_bytes(a.context_id) + bound
        }),
{
    let bound = binding_bytes(a.binding);
    assert((varint_bytes(a.context_id) + bound).len() == varint_bytes(a.context_id).len()
        + bound.len());
    assert(a.wire() =~= varint_bytes(0x11) + varint_bytes(
        (varint_bytes(a.context_id).len() + bound.len()) as u64,
    ) + varint_bytes(a.context_id) + bound);
}

/// The contexts that stay keep their order, and acknowledging one makes just
/// that one usable.
pub proof fn lemma_table_order(s: Seq<Entry>, e: Entry, id: u64, i: int)
    ensures
        without(Seq::empty(), id) == Seq::<Entry>::empty(),
        e.id != id ==> without(s.push(e), id) == without(s, id).push(e),
        e.id == id ==> without(s.push(e), id) == without(s, id),
        activated(s, id).len() == s.len(),
        0 <= i < s.len() ==> activated(s, id)[i].id == s[i].id && activated(s, id)[i].binding
            == s[i].binding && (activated(s, id)[i].active <==> s[i].active || s[i].id == id),
{
    assert(s.push(e).drop_last() =~= s);
}

} // verus!
