//! CONNECT-IP client: what a tunnel's client keeps, how capsules change it,
//! and how packets are framed.

use bytes::Bytes;
use vstd::prelude::*;

use crate::bigendian::lemma_be_bytes_len;
use crate::buf::{buffered, freeze, frozen, new_buffer};
use crate::capsule::address_request::{requested_len, requested_payload};
use crate::capsule::codec::{lemma_varint_bytes, VARINT_MAX};
use crate::capsule::stream::{
    capsules_in, fault_in, left_in, lemma_capsule_shrinks, lemma_stream_read, stream_of,
};
use crate::capsule::{
    after_capsule, capsule_bytes, capsule_encodable, capsule_wf, encode_capsule, payload_bytes,
    AddressRequest, AssignedAddress, Capsule, CapsuleBuffer, CapsuleView, IpAddressRange,
    RequestedAddress, RouteAdvertisement,
};
use crate::datagram::{
    decode_quic_datagram, quic_datagram_at, quic_datagram_bytes, CONTEXT_ID_IP_PACKET,
};
use crate::error::{ForwardingError, ProxyError};
use crate::forwarding::frame_for_session;
use crate::net::{IpAddr, Ipv4Addr, Ipv6Addr, SocketAddr};
use crate::session::copy_addrs;
use crate::text::{decimal, push_decimal};

verus! {

/// The client's side of an established CONNECT-IP tunnel.
#[derive(Debug)]
pub struct TunnelClient {
    /// The Quarter Stream ID of the tunnel's request stream.
    pub qsid: u64,
    pub capsules: CapsuleBuffer,
    /// Complete current assignment set (full-state per RFC 9484 §4.7.1).
    pub assigned: Vec<AssignedAddress>,
    /// Routes advertised by the proxy.
    pub routes: Vec<IpAddressRange>,
}

/// The assignment set after some capsules: full-state, so the last
/// ADDRESS_ASSIGN counts.
pub open spec fn assigned_after(cs: Seq<CapsuleView>, before: Seq<AssignedAddress>) -> Seq<
    AssignedAddress,
>
    decreases cs.len(),
{
    if cs.len() == 0 {
        before
    } else {
        match cs.last() {
            CapsuleView::AddressAssign(a) => a,
            _ => assigned_after(cs.drop_last(), before),
        }
    }
}

/// The routes after some capsules: the last ROUTE_ADVERTISEMENT counts.
pub open spec fn routes_after(cs: Seq<CapsuleView>, before: Seq<IpAddressRange>) -> Seq<
    IpAddressRange,
>
    decreases cs.len(),
{
    if cs.len() == 0 {
        before
    } else {
        match cs.last() {
            CapsuleView::RouteAdvertisement(r) => r,
            _ => routes_after(cs.drop_last(), before),
        }
    }
}

/// The views of some capsules.
pub open spec fn views(cs: Seq<Capsule>) -> Seq<CapsuleView> {
    cs.map_values(|c: Capsule| c@)
}

/// The first IPv4 address of an assignment set.
pub open spec fn first_v4(assigned: Seq<AssignedAddress>) -> Option<Ipv4Addr>
    decreases assigned.len(),
{
    if assigned.len() == 0 {
        None
    } else {
        match assigned[0].ip_address {
            IpAddr::V4(a) => Some(a),
            IpAddr::V6(_) => first_v4(assigned.drop_first()),
        }
    }
}

fn copy_ranges(ranges: &Vec<IpAddressRange>) -> (v: Vec<IpAddressRange>)
    ensures
        v@ == ranges@,
{
    let mut v: Vec<IpAddressRange> = Vec::new();
    let mut i: usize = 0;
    while i < ranges.len()
        invariant
            i <= ranges@.len(),
            v@ == ranges@.take(i as int),
        decreases ranges@.len() - i,
    {
        v.push(ranges[i]);
        i = i + 1;
        proof {
            assert(ranges@.take(i as int) =~= ranges@.take(i - 1).push(ranges@[i - 1]));
        }
    }
    proof {
        assert(ranges@.take(ranges@.len() as int) =~= ranges@);
    }
    v
}

impl TunnelClient {
    /// Bytes of a capsule that is not complete yet.
    pub open spec fn pending(self) -> Seq<u8> {
        self.capsules@
    }

    /// A tunnel whose request stream has the given Quarter Stream ID.
    pub fn new(qsid: u64) -> (c: Self)
        ensures
            c.qsid == qsid,
            c.pending() == Seq::<u8>::empty(),
            c.assigned@.len() == 0,
            c.routes@.len() == 0,
    {
        TunnelClient {
            qsid,
            capsules: CapsuleBuffer::new(),
            assigned: Vec::new(),
            routes: Vec::new(),
        }
    }

    /// Both an address assignment and a route advertisement have arrived
    /// (tunnel setup complete).
    pub fn ready(&self) -> (v: bool)
        ensures
            v == (self.assigned@.len() > 0 && self.routes@.len() > 0),
    {
        self.assigned.len() > 0 && self.routes.len() > 0
    }

    /// Take in stream data and fold every complete capsule into the client
    /// state. Returns the capsules processed.
    pub fn process_next_capsules(&mut self, chunk: &[u8]) -> (r: Result<Vec<Capsule>, ProxyError>)
        requires
            old(self).pending().len() + chunk@.len() <= isize::MAX,
        ensures
            final(self).qsid == old(self).qsid,
            ({
                let s = old(self).pending() + chunk@;
                let cs = capsules_in(s);
                &&& final(self).assigned@ == assigned_after(cs, old(self).assigned@)
                &&& final(self).routes@ == routes_after(cs, old(self).routes@)
                &&& match fault_in(s) {
                    Some(e) => r matches Err(ProxyError::Decode(d)) && d == e,
                    None => r matches Ok(seen) && views(seen@) == cs,
                }
                &&& final(self).pending() == left_in(s)
            }),
    {
        self.capsules.push(chunk);
        let ghost all = self.capsules@;
        let mut seen: Vec<Capsule> = Vec::new();
        proof {
            assert(views(seen@) =~= Seq::<CapsuleView>::empty());
            assert(views(seen@) + capsules_in(all) =~= capsules_in(all));
        }
        loop
            invariant
                self.qsid == old(self).qsid,
                all == old(self).pending() + chunk@,
                views(seen@) + capsules_in(self.capsules@) == capsules_in(all),
                fault_in(self.capsules@) == fault_in(all),
                left_in(self.capsules@) == left_in(all),
                self.assigned@ == assigned_after(views(seen@), old(self).assigned@),
                self.routes@ == routes_after(views(seen@), old(self).routes@),
            decreases self.capsules@.len(),
        {
            let ghost s = self.capsules@;
            proof {
                lemma_capsule_shrinks(s);
            }
            match self.capsules.next_capsule() {
                Ok(Some(capsule)) => {
                    self.apply_capsule(&capsule);
                    let ghost before = views(seen@);
                    let ghost c = capsule@;
                    seen.push(capsule);
                    proof {
                        assert(views(seen@) =~= before.push(c));
                        assert(views(seen@).drop_last() =~= before);
                        assert(before + (seq![c] + capsules_in(after_capsule(s))) =~= before.push(c)
                            + capsules_in(after_capsule(s)));
                    }
                },
                Ok(None) => {
                    proof {
                        assert(views(seen@) + Seq::<CapsuleView>::empty() =~= views(seen@));
                    }
                    return Ok(seen);
                },
                Err(e) => {
                    proof {
                        assert(views(seen@) + Seq::<CapsuleView>::empty() =~= views(seen@));
                    }
                    return Err(ProxyError::Decode(e));
                },
            }
        }
    }

    fn apply_capsule(&mut self, capsule: &Capsule)
        ensures
            final(self).qsid == old(self).qsid,
            final(self).pending() == old(self).pending(),
            final(self).assigned@ == match capsule@ {
                CapsuleView::AddressAssign(a) => a,
                _ => old(self).assigned@,
            },
            final(self).routes@ == match capsule@ {
                CapsuleView::RouteAdvertisement(r) => r,
                _ => old(self).routes@,
            },
    {
        match capsule {
            Capsule::AddressAssign(assign) => {
                // Full-state semantics: replace, don't append.
                self.assigned = copy_addrs(&assign.assigned_addresses);
            },
            Capsule::RouteAdvertisement(ra) => {
                self.routes = copy_ranges(&ra.ip_address_ranges);
            },
            _ => {},
        }
    }

    /// First assigned IPv4 address, if any.
    pub fn ipv4_address(&self) -> (a: Option<Ipv4Addr>)
        ensures
            a == first_v4(self.assigned@),
    {
        let mut i: usize = 0;
        proof {
            assert(self.assigned@.skip(0) =~= self.assigned@);
        }
        while i < self.assigned.len()
            invariant
                i <= self.assigned@.len(),
                first_v4(self.assigned@) == first_v4(self.assigned@.skip(i as int)),
            decreases self.assigned@.len() - i,
        {
            proof {
                assert(self.assigned@.skip(i as int).drop_first() =~= self.assigned@.skip(i + 1));
            }
            match self.assigned[i].ip_address {
                IpAddr::V4(a) => {
                    return Some(a);
                },
                IpAddr::V6(_) => {},
            }
            i = i + 1;
        }
        None
    }

    /// Frame one IP packet for the tunnel (context ID 0). `max` is the
    /// largest datagram that the connection takes now.
    pub fn send_packet(&self, packet: Bytes, max: Option<usize>) -> (r: Result<Bytes, ProxyError>)
        requires
            self.qsid <= VARINT_MAX,
            frozen(packet).len() + 16 <= isize::MAX,
        ensures
            ({
                let wire = quic_datagram_bytes(
                    self.qsid,
                    CONTEXT_ID_IP_PACKET,
                    frozen(packet),
                );
                if max is Some && wire.len() > max->0 {
                    r matches Err(ProxyError::Forwarding(e)) && e == ForwardingError::MtuExceeded
                } else {
                    r matches Ok(b) && frozen(b) == wire
                }
            }),
    {
        match frame_for_session(self.qsid, packet, max) {
            Ok(wire) => Ok(wire),
            Err(e) => Err(ProxyError::Forwarding(e)),
        }
    }

    /// The IP packet that a datagram carries for this tunnel. Other streams,
    /// unknown contexts and malformed datagrams carry none.
    pub fn recv_packet(&self, wire: &Bytes) -> (p: Option<Bytes>)
        ensures
            match packet_in(self.qsid, frozen(*wire)) {
                Some(packet) => p matches Some(b) && frozen(b) == packet,
                None => p is None,
            },
    {
        match decode_quic_datagram(wire) {
            Ok((qsid, datagram)) => {
                if qsid == self.qsid && datagram.context_id == CONTEXT_ID_IP_PACKET {
                    Some(datagram.payload)
                } else {
                    None
                }
            },
            Err(_) => None,
        }
    }
}

proof fn lemma_single_request(request: RequestedAddress)
    requires
        request.request_id <= VARINT_MAX,
    ensures
        capsule_encodable(CapsuleView::AddressRequest(seq![request])),
        payload_bytes(CapsuleView::AddressRequest(seq![request])).len() <= 26,
{
    reveal_with_fuel(requested_payload, 2);
    reveal_with_fuel(requested_len, 2);
    lemma_varint_bytes(request.request_id);
    match request.ip_address {
        IpAddr::V4(a) => lemma_be_bytes_len(a.bits as nat, 4),
        IpAddr::V6(a) => lemma_be_bytes_len(a.bits as nat, 16),
    }
}

/// A capsule as the tunnel's stream carries it.
pub fn capsule_wire(capsule: &Capsule) -> (wire: Bytes)
    requires
        capsule_encodable(capsule@),
        payload_bytes(capsule@).len() + 16 <= isize::MAX,
    ensures
        frozen(wire) == capsule_bytes(capsule@),
{
    let mut buf = new_buffer();
    encode_capsule(capsule, &mut buf);
    proof {
        assert(buffered(buf) =~= capsule_bytes(capsule@));
    }
    freeze(buf)
}

/// The capsule that advertises routes reachable through this client
/// (site-to-site). The proxy installs them only when started with
/// --accept-client-routes.
pub fn route_advertisement(ranges: Vec<IpAddressRange>) -> (wire: Bytes)
    requires
        capsule_encodable(CapsuleView::RouteAdvertisement(ranges@)),
        payload_bytes(CapsuleView::RouteAdvertisement(ranges@)).len() + 16 <= isize::MAX,
    ensures
        frozen(wire) == capsule_bytes(CapsuleView::RouteAdvertisement(ranges@)),
{
    capsule_wire(&Capsule::RouteAdvertisement(RouteAdvertisement { ip_address_ranges: ranges }))
}

/// The capsule that requests an address.
pub fn address_request(request: RequestedAddress) -> (wire: Bytes)
    requires
        request.request_id <= VARINT_MAX,
    ensures
        frozen(wire) == capsule_bytes(CapsuleView::AddressRequest(seq![request])),
{
    let mut list: Vec<RequestedAddress> = Vec::new();
    list.push(request);
    let capsule = Capsule::AddressRequest(AddressRequest { requested_addresses: list });
    proof {
        assert(list@ =~= seq![request]);
        lemma_single_request(request);
    }
    capsule_wire(&capsule)
}

/// Whether a request has been answered: an ADDRESS_ASSIGN is among the
/// capsules.
pub fn answered(seen: &[Capsule]) -> (v: bool)
    ensures
        v == exists|i: int| 0 <= i < seen@.len() && (#[trigger] seen@[i]) is AddressAssign,
{
    let mut i: usize = 0;
    while i < seen.len()
        invariant
            i <= seen@.len(),
            forall|j: int| 0 <= j < i ==> !((#[trigger] seen@[j]) is AddressAssign),
        decreases seen@.len() - i,
    {
        if let Capsule::AddressAssign(_) = &seen[i] {
            return true;
        }
        i = i + 1;
    }
    false
}

/// The IP packet that a datagram brings to the tunnel on a stream.
pub open spec fn packet_in(own: u64, wire: Seq<u8>) -> Option<Seq<u8>> {
    match quic_datagram_at(wire) {
        Some((qsid, context_id, payload)) => if qsid == own && context_id == CONTEXT_ID_IP_PACKET {
            Some(payload)
        } else {
            None
        },
        None => None,
    }
}

/// Whether a capsule changes what the kernel should be configured with.
pub open spec fn spec_reconfigures(c: Capsule) -> bool {
    c is AddressAssign || c is RouteAdvertisement
}

/// Capsules that change what the kernel should be configured with.
/// ADDRESS_ASSIGN and ROUTE_ADVERTISEMENT are full-state: a fresh capsule
/// replaces the installed state whole.
pub fn reconfigures(capsule: &Capsule) -> (v: bool)
    ensures
        v == spec_reconfigures(*capsule),
{
    matches!(capsule, Capsule::AddressAssign(_) | Capsule::RouteAdvertisement(_))
}

/// Whether any of some capsules does.
pub fn any_reconfigures(capsules: &[Capsule]) -> (v: bool)
    ensures
        v == exists|i: int|
            0 <= i < capsules@.len() && spec_reconfigures(#[trigger] capsules@[i]),
{
    let mut i: usize = 0;
    while i < capsules.len()
        invariant
            i <= capsules@.len(),
            forall|j: int| 0 <= j < i ==> !spec_reconfigures(#[trigger] capsules@[j]),
        decreases capsules@.len() - i,
    {
        if reconfigures(&capsules[i]) {
            return true;
        }
        i = i + 1;
    }
    false
}

/// The URI of a tunnel to everything.
pub fn tunnel_uri(server_name: &str, port: u16) -> (s: String)
    ensures
        s@ == "https://"@ + server_name@ + ":"@ + decimal(port as nat)
            + "/.well-known/masque/ip/*/*/"@,
{
    let mut s = String::from_str("https://");
    s.append(server_name);
    s.append(":");
    push_decimal(&mut s, port as u64);
    s.append("/.well-known/masque/ip/*/*/");
    s
}

/// The local address to connect from: the wildcard of the proxy's family,
/// with any port.
pub fn bind_addr(server: SocketAddr) -> (a: SocketAddr)
    ensures
        a.port == 0,
        a.ip is V4 <==> server.ip is V4,
        a.ip.spec_unspecified(),
{
    match server.ip {
        IpAddr::V4(_) => SocketAddr::new(IpAddr::V4(Ipv4Addr { bits: 0 }), 0),
        IpAddr::V6(_) => SocketAddr::new(IpAddr::V6(Ipv6Addr { bits: 0 }), 0),
    }
}

/// Whether the proxy accepted the tunnel: status 200 did.
pub fn accepted(status: u16, status_text: &str) -> (r: Result<(), ProxyError>)
    ensures
        status == 200 ==> r is Ok,
        status != 200 ==> (r matches Err(ProxyError::Http(t)) && t@ == "proxy rejected tunnel: "@
            + status_text@),
{
    if status == 200 {
        Ok(())
    } else {
        let mut t = String::from_str("proxy rejected tunnel: ");
        t.append(status_text);
        Err(ProxyError::Http(t))
    }
}

proof fn lemma_two_read(a: CapsuleView, b: CapsuleView)
    requires
        capsule_wf(a),
        capsule_wf(b),
    ensures
        capsules_in(capsule_bytes(a) + capsule_bytes(b)) == seq![a, b],
        fault_in(capsule_bytes(a) + capsule_bytes(b)) is None,
        left_in(capsule_bytes(a) + capsule_bytes(b)) == Seq::<u8>::empty(),
{
    let none = Seq::<u8>::empty();
    lemma_stream_read(seq![a, b], none);
    assert(seq![a, b].drop_first() =~= seq![b]);
    assert(seq![b].drop_first() =~= Seq::<CapsuleView>::empty());
    assert(stream_of(seq![b]) =~= capsule_bytes(b) + stream_of(Seq::empty()));
    assert(stream_of(seq![a, b]) + none =~= capsule_bytes(a) + capsule_bytes(b));
}

/// An assignment and an advertisement replace what was known before.
proof fn lemma_setup_folds(
    cs: Seq<CapsuleView>,
    assigned: Seq<AssignedAddress>,
    routes: Seq<IpAddressRange>,
    assigned_before: Seq<AssignedAddress>,
    routes_before: Seq<IpAddressRange>,
)
    requires
        cs == seq![CapsuleView::AddressAssign(assigned), CapsuleView::RouteAdvertisement(routes)],
    ensures
        assigned_after(cs, assigned_before) == assigned,
        routes_after(cs, routes_before) == routes,
{
    let first = cs.drop_last();
    assert(cs.last() == CapsuleView::RouteAdvertisement(routes));
    assert(first.last() == CapsuleView::AddressAssign(assigned));
    assert(assigned_after(first, assigned_before) == assigned);
}

/// A client that has read what the proxy sends to set a tunnel up knows the
/// addresses that it was assigned and the routes that were advertised to it,
/// whatever it knew before.
#[verifier::spinoff_prover]
pub proof fn lemma_setup_reaches_client(
    assigned: Seq<AssignedAddress>,
    routes: Seq<IpAddressRange>,
    assigned_before: Seq<AssignedAddress>,
    routes_before: Seq<IpAddressRange>,
)
    requires
        capsule_wf(CapsuleView::AddressAssign(assigned)),
        capsule_wf(CapsuleView::RouteAdvertisement(routes)),
    ensures
        ({
            let s = capsule_bytes(CapsuleView::AddressAssign(assigned)) + capsule_bytes(
                CapsuleView::RouteAdvertisement(routes),
            );
            &&& fault_in(s) is None
            &&& left_in(s) == Seq::<u8>::empty()
            &&& assigned_after(capsules_in(s), assigned_before) == assigned
            &&& routes_after(capsules_in(s), routes_before) == routes
        }),
{
    let a = CapsuleView::AddressAssign(assigned);
    let r = CapsuleView::RouteAdvertisement(routes);
    lemma_two_read(a, r);
    lemma_setup_folds(seq![a, r], assigned, routes, assigned_before, routes_before);
}

/// A client holds the addresses that it was told last, and the routes that it
/// was told last; what it was not told it keeps.
pub proof fn lemma_last_told(
    cs: Seq<CapsuleView>,
    assigned_before: Seq<AssignedAddress>,
    routes_before: Seq<IpAddressRange>,
    i: int,
)
    ensures
        0 <= i < cs.len() && cs[i] is AddressAssign && (forall|j: int|
            i < j < cs.len() ==> !(#[trigger] cs[j] is AddressAssign)) ==> cs[i]
            == CapsuleView::AddressAssign(assigned_after(cs, assigned_before)),
        (forall|j: int| 0 <= j < cs.len() ==> !(#[trigger] cs[j] is AddressAssign))
            ==> assigned_after(cs, assigned_before) == assigned_before,
        0 <= i < cs.len() && cs[i] is RouteAdvertisement && (forall|j: int|
            i < j < cs.len() ==> !(#[trigger] cs[j] is RouteAdvertisement)) ==> cs[i]
            == CapsuleView::RouteAdvertisement(routes_after(cs, routes_before)),
        (forall|j: int| 0 <= j < cs.len() ==> !(#[trigger] cs[j] is RouteAdvertisement))
            ==> routes_after(cs, routes_before) == routes_before,
    decreases cs.len(),
{
    if cs.len() > 0 {
        let d = cs.drop_last();
        let n = cs.len() - 1;
        lemma_last_told(d, assigned_before, routes_before, i);
        assert(forall|j: int| 0 <= j < n ==> #[trigger] d[j] == cs[j]);
        assert(cs[n] == cs.last());
    }
}

/// The address of a client is its first IPv4 address; it has none exactly if
/// no IPv4 address was assigned.
pub proof fn lemma_first_v4(assigned: Seq<AssignedAddress>)
    ensures
        match first_v4(assigned) {
            Some(a) => exists|i: int|
                {
                    &&& 0 <= i < assigned.len()
                    &&& (#[trigger] assigned[i]).ip_address == IpAddr::V4(a)
                    &&& forall|j: int| 0 <= j < i ==> (#[trigger] assigned[j]).ip_address is V6
                },
            None => forall|j: int|
                0 <= j < assigned.len() ==> (#[trigger] assigned[j]).ip_address is V6,
        },
    decreases assigned.len(),
{
    if assigned.len() > 0 {
        let d = assigned.drop_first();
        if assigned[0].ip_address is V6 {
            lemma_first_v4(d);
            assert(forall|j: int| 0 <= j < d.len() ==> #[trigger] d[j] == assigned[j + 1]);
            if let Some(a) = first_v4(d) {
                let i = choose|i: int|
                    {
                        &&& 0 <= i < d.len()
                        &&& (#[trigger] d[i]).ip_address == IpAddr::V4(a)
                        &&& forall|j: int| 0 <= j < i ==> (#[trigger] d[j]).ip_address is V6
                    };
                assert(assigned[i + 1].ip_address == IpAddr::V4(a));
                assert forall|j: int| 0 <= j < i + 1 implies (
                #[trigger] assigned[j]).ip_address is V6 by {
                    if j > 0 {
                        assert(d[j - 1] == assigned[j]);
                    }
                }
            } else {
                assert forall|j: int| 0 <= j < assigned.len() implies (
                #[trigger] assigned[j]).ip_address is V6 by {
                    if j > 0 {
                        assert(d[j - 1] == assigned[j]);
                    }
                }
            }
        }
    }
}

/// A tunnel gets exactly the packets that were sent to it: those of its own
/// stream, in the context for IP packets, whole.
pub proof fn lemma_packet_in(own: u64, qsid: u64, context_id: u64, packet: Seq<u8>)
    requires
        qsid <= VARINT_MAX,
        context_id <= VARINT_MAX,
    ensures
        packet_in(own, quic_datagram_bytes(qsid, context_id, packet)) == if qsid == own && context_id
            == 0 {
            Some(packet)
        } else {
            None
        },
{
    crate::datagram::lemma_quic_datagram_roundtrip(qsid, context_id, packet);
}

} // verus!
