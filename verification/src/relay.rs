//! The tunnel between a server that cannot reach the multicast group and the relay that can.
use crate::time::Duration;
use vstd::prelude::*;
use vstd::slice::{slice_subrange, slice_to_vec};
use vstd::utf8::{encode_utf8, is_ascii_chars, is_ascii_chars_encode_utf8};

verus! {

/// An IPv4 address, as a number, and a port.
#[derive(Debug, Clone, Copy, PartialEq, Eq, Structural)]
pub struct SocketAddrV4 {
    pub ip: u32,
    pub port: u16,
}

/// An IPv6 address, as a number, and a port.
#[derive(Debug, Clone, Copy, PartialEq, Eq, Structural)]
pub struct SocketAddrV6 {
    pub ip: u128,
    pub port: u16,
    pub flowinfo: u32,
    pub scope_id: u32,
}

/// Where a datagram comes from or goes to.
#[derive(Debug, Clone, Copy, PartialEq, Eq, Structural)]
pub enum SocketAddr {
    V4(SocketAddrV4),
    V6(SocketAddrV6),
}

impl SocketAddr {
    /// The IPv4 address with these four parts, and a port.
    pub open spec fn at(octets: Seq<u8>, port: u16) -> SocketAddr {
        SocketAddr::V4(
            SocketAddrV4 {
                ip: (octets[0] * 0x100_0000 + octets[1] * 0x1_0000 + octets[2] * 0x100
                    + octets[3]) as u32,
                port,
            },
        )
    }

    /// The IPv4 address with these four parts, and a port.
    pub fn v4(octets: [u8; 4], port: u16) -> (r: SocketAddr)
        ensures
            r == SocketAddr::at(octets@, port),
    {
        let ip: u32 = octets[0] as u32 * 0x100_0000 + octets[1] as u32 * 0x1_0000 + octets[2] as u32
            * 0x100 + octets[3] as u32;
        SocketAddr::V4(SocketAddrV4 { ip, port })
    }
}

// ---------------------------------------------------------------------------
// Frames

/// The six bytes in front of a datagram: the IPv4 address and the port, big-endian. There is no
/// room for an IPv6 address, which becomes zeros.
pub open spec fn frame_head(addr: SocketAddr) -> Seq<u8> {
    match addr {
        SocketAddr::V4(a) => seq![
            (a.ip / 0x100_0000) as u8,
            (a.ip / 0x1_0000 % 0x100) as u8,
            (a.ip / 0x100 % 0x100) as u8,
            (a.ip % 0x100) as u8,
            (a.port / 0x100) as u8,
            (a.port % 0x100) as u8,
        ],
        SocketAddr::V6(_) => seq![0u8, 0u8, 0u8, 0u8, 0u8, 0u8],
    }
}

/// A datagram framed with its far-side address.
pub open spec fn framed(addr: SocketAddr, payload: Seq<u8>) -> Seq<u8> {
    frame_head(addr) + payload
}

/// The address and the datagram in a frame.
pub open spec fn unframed(buf: Seq<u8>) -> Option<(SocketAddr, Seq<u8>)> {
    if buf.len() < 6 {
        None
    } else {
        Some((SocketAddr::at(buf.take(4), (buf[4] * 0x100 + buf[5]) as u16), buf.skip(6)))
    }
}

/// Tunnel frame: 4-byte IPv4 + 2-byte port, big-endian, then the datagram. Toward the relay the
/// address is the destination, from the relay it is the source peer. A zero-length payload is a
/// keepalive that only refreshes the relay's idea of where to reach this server (and holds a NAT
/// mapping open).
pub fn encode_frame(addr: SocketAddr, payload: &[u8]) -> (r: Vec<u8>)
    ensures
        r@ == framed(addr, payload@),
{
    let mut r: Vec<u8> = Vec::new();
    match addr {
        SocketAddr::V4(a) => {
            r.push((a.ip / 0x100_0000) as u8);
            r.push((a.ip / 0x1_0000 % 0x100) as u8);
            r.push((a.ip / 0x100 % 0x100) as u8);
            r.push((a.ip % 0x100) as u8);
            r.push((a.port / 0x100) as u8);
            r.push((a.port % 0x100) as u8);
        },
        SocketAddr::V6(_) => {
            r.push(0);
            r.push(0);
            r.push(0);
            r.push(0);
            r.push(0);
            r.push(0);
        },
    }
    assert(r@ =~= frame_head(addr));
    r.extend_from_slice(payload);
    assert(r@ =~= framed(addr, payload@));
    r
}

/// The address and the datagram in a frame, `None` where it is too short to be one.
pub fn decode_frame(buf: &[u8]) -> (r: Option<(SocketAddr, &[u8])>)
    ensures
        match r {
            Some(parts) => unframed(buf@) == Some((parts.0, parts.1@)),
            None => unframed(buf@) is None,
        },
{
    if buf.len() < 6 {
        return None;
    }
    let octets: [u8; 4] = [buf[0], buf[1], buf[2], buf[3]];
    assert(octets@ =~= buf@.take(4));
    let addr = SocketAddr::v4(octets, buf[4] as u16 * 0x100 + buf[5] as u16);
    assert(buf@.subrange(6, buf@.len() as int) =~= buf@.skip(6));
    Some((addr, slice_subrange(buf, 6, buf.len())))
}

/// A frame gives its address and its datagram back. An IPv6 address comes back as zeros.
pub proof fn law_frame_round_trip(addr: SocketAddr, payload: Seq<u8>)
    ensures
        unframed(framed(addr, payload)) == Some(
            (
                match addr {
                    SocketAddr::V4(_) => addr,
                    SocketAddr::V6(_) => SocketAddr::V4(SocketAddrV4 { ip: 0, port: 0 }),
                },
                payload,
            ),
        ),
{
    let buf = framed(addr, payload);
    assert(buf.skip(6) =~= payload);
    assert(buf.take(4) =~= frame_head(addr).take(4));
    if let SocketAddr::V4(a) = addr {
        let ip = a.ip;
        assert(ip == (ip / 0x100_0000) * 0x100_0000 + (ip / 0x1_0000 % 0x100) * 0x1_0000 + (ip
            / 0x100 % 0x100) * 0x100 + ip % 0x100);
    }
}

/// What the server takes from a frame that came from the relay: the sender and the datagram, cut to
/// the room there is. A keepalive or junk is nothing.
pub open spec fn tunnelled(frame: Seq<u8>, room: nat) -> Option<(SocketAddr, Seq<u8>)> {
    match unframed(frame) {
        Some((from, payload)) => if payload.len() == 0 {
            None
        } else if payload.len() <= room {
            Some((from, payload))
        } else {
            Some((from, payload.take(room as int)))
        },
        None => None,
    }
}

/// The sender and the datagram in a frame from the relay, cut to the room there is.
pub fn tunnel_receive(frame: &[u8], room: usize) -> (r: Option<(SocketAddr, Vec<u8>)>)
    ensures
        match r {
            Some(parts) => tunnelled(frame@, room as nat) == Some((parts.0, parts.1@)),
            None => tunnelled(frame@, room as nat) is None,
        },
{
    match decode_frame(frame) {
        Some((from, payload)) => {
            if payload.len() == 0 {
                None
            } else if payload.len() <= room {
                Some((from, slice_to_vec(payload)))
            } else {
                assert(payload@.subrange(0, room as int) =~= payload@.take(room as int));
                Some((from, slice_to_vec(slice_subrange(payload, 0, room))))
            }
        },
        None => None,
    }
}

// ---------------------------------------------------------------------------
// The relay

/// The seconds after which a client that was not heard of is forgotten.
pub const FORGET_AFTER: u64 = 120;

/// The clients that have spoken to the relay, with the times at which they last did.
pub type Clients = Seq<(SocketAddr, nat)>;

/// The clients after one of them has been heard of.
pub open spec fn noted(clients: Clients, from: SocketAddr, now: nat) -> Clients
    decreases clients.len(),
{
    if clients.len() == 0 {
        seq![(from, now)]
    } else if clients.first().0 == from {
        seq![(from, now)] + clients.drop_first()
    } else {
        seq![clients.first()] + noted(clients.drop_first(), from, now)
    }
}

/// The clients that were heard of recently enough.
pub open spec fn recent(clients: Clients, now: nat) -> Clients {
    clients.filter(|c: (SocketAddr, nat)| now < c.1 + FORGET_AFTER * 1_000_000_000)
}

/// The addresses of clients.
pub open spec fn addresses(clients: Clients) -> Seq<SocketAddr> {
    clients.map_values(|c: (SocketAddr, nat)| c.0)
}

/// Whether a datagram is a search.
pub open spec fn is_search(datagram: Seq<u8>) -> bool {
    seq![77u8, 45u8, 83u8, 69u8, 65u8, 82u8, 67u8, 72u8].is_prefix_of(datagram)
}

/// What a datagram from the side of the clients makes of the clients, and what goes out to the LAN.
pub open spec fn upward(clients: Clients, datagram: Seq<u8>, from: SocketAddr, now: nat) -> (
    Clients,
    Option<(SocketAddr, Seq<u8>)>,
) {
    match unframed(datagram) {
        Some((to, payload)) => (
            noted(clients, from, now),
            if payload.len() == 0 {
                None
            } else {
                Some((to, payload))
            },
        ),
        None => (clients, None),
    }
}

/// What a datagram from the side of the LAN makes of the clients, and what goes out to which of
/// them.
pub open spec fn downward(clients: Clients, datagram: Seq<u8>, from: SocketAddr, now: nat) -> (
    Clients,
    Option<(Seq<u8>, Seq<SocketAddr>)>,
) {
    if is_search(datagram) {
        let kept = recent(clients, now);
        (kept, Some((framed(from, datagram), addresses(kept))))
    } else {
        (clients, None)
    }
}

/// The relay's side of the tunnels: run where the real LAN is. No client is kept twice. Times count
/// from one common start.
pub struct Relay {
    clients: Vec<(SocketAddr, Duration)>,
}

/// The clients with their times in nanoseconds.
pub open spec fn clients_of(list: Seq<(SocketAddr, Duration)>) -> Clients {
    list.map_values(|c: (SocketAddr, Duration)| (c.0, c.1@))
}

impl View for Relay {
    type V = Clients;

    closed spec fn view(&self) -> Clients {
        clients_of(self.clients@)
    }
}

/// Whether a datagram starts with the bytes of `M-SEARCH`.
fn starts_search(datagram: &[u8]) -> (r: bool)
    ensures
        r == is_search(datagram@),
{
    let word: [u8; 8] = [77, 45, 83, 69, 65, 82, 67, 72];
    let ghost text = seq![77u8, 45u8, 83u8, 69u8, 65u8, 82u8, 67u8, 72u8];
    assert(word@ =~= text);
    if datagram.len() < 8 {
        return false;
    }
    let mut i: usize = 0;
    while i < 8
        invariant
            i <= 8,
            datagram.len() >= 8,
            word@ == text,
            text == seq![77u8, 45u8, 83u8, 69u8, 65u8, 82u8, 67u8, 72u8],
            forall|j: int| 0 <= j < i ==> datagram@[j] == text[j],
        decreases 8 - i,
    {
        if datagram[i] != word[i] {
            assert(datagram@.subrange(0, 8)[i as int] != text[i as int]);
            return false;
        }
        i += 1;
    }
    assert(text =~= datagram@.subrange(0, 8));
    true
}

/// Notes that a client has been heard of.
fn note(clients: &mut Vec<(SocketAddr, Duration)>, from: SocketAddr, now: Duration)
    ensures
        clients_of(final(clients)@) == noted(clients_of(old(clients)@), from, now@),
{
    let ghost before = clients_of(clients@);
    let n = clients.len();
    let mut i: usize = 0;
    assert(before.skip(0) =~= before);
    assert(before.take(0) + noted(before.skip(0), from, now@) =~= noted(before, from, now@));
    while i < n
        invariant
            i <= n,
            n == clients.len(),
            clients_of(clients@) == before,
            before == clients_of(old(clients)@),
            before.take(i as int) + noted(before.skip(i as int), from, now@) == noted(
                before,
                from,
                now@,
            ),
        decreases n - i,
    {
        let ghost rest = before.skip(i as int);
        assert(rest.first() == before[i as int]);
        assert(before[i as int] == (clients@[i as int].0, clients@[i as int].1@));
        assert(rest.drop_first() =~= before.skip(i + 1));
        if clients[i].0 == from {
            clients.set(i, (from, now));
            assert(clients_of(clients@) =~= before.take(i as int) + noted(rest, from, now@));
            return ;
        }
        assert(before.take(i + 1) + noted(before.skip(i + 1), from, now@) =~= before.take(i as int)
            + noted(rest, from, now@));
        i += 1;
    }
    clients.push((from, now));
    assert(before.skip(n as int) =~= Seq::empty());
    assert(clients_of(clients@) =~= before.take(n as int) + noted(
        before.skip(n as int),
        from,
        now@,
    ));
}

impl Relay {
    #[verifier::type_invariant]
    spec fn inv(&self) -> bool {
        distinct(clients_of(self.clients@))
    }

    /// No client is known.
    pub fn new() -> (r: Relay)
        ensures
            r@ == Seq::<(SocketAddr, nat)>::empty(),
    {
        let r = Relay { clients: Vec::new() };
        assert(r@ =~= Seq::empty());
        r
    }

    /// A datagram from the side of the clients: the sender is noted if it is a frame. What it
    /// carries goes to the address in the frame; a keepalive carries nothing.
    pub fn up(&mut self, datagram: &[u8], from: SocketAddr, now: Duration) -> (r: Option<
        (SocketAddr, Vec<u8>),
    >)
        ensures
            final(self)@ == upward(old(self)@, datagram@, from, now@).0,
            match r {
                Some(parts) => upward(old(self)@, datagram@, from, now@).1 == Some(
                    (parts.0, parts.1@),
                ),
                None => upward(old(self)@, datagram@, from, now@).1 is None,
            },
            match unframed(datagram@) {
                Some((to, payload)) => {
                    &&& final(self)@ == noted(old(self)@, from, now@)
                    &&& if payload.len() == 0 {
                        r is None
                    } else {
                        r is Some && (r->0).0 == to && (r->0).1@ == payload
                    }
                },
                None => final(self)@ == old(self)@ && r is None,
            },
            distinct(final(self)@),
    {
        proof {
            use_type_invariant(&*self);
        }
        match decode_frame(datagram) {
            Some((to, payload)) => {
                let mut clients: Vec<(SocketAddr, Duration)> = Vec::new();
                core::mem::swap(&mut clients, &mut self.clients);
                note(&mut clients, from, now);
                proof {
                    law_clients_stay_distinct(old(self)@, from, now@);
                }
                self.clients = clients;
                if payload.len() == 0 {
                    None
                } else {
                    Some((to, slice_to_vec(payload)))
                }
            },
            None => None,
        }
    }

    /// A datagram from the side of the LAN: a search goes to every client that was heard of
    /// recently, framed with the address of the searcher, and the others are forgotten. Anything
    /// else goes nowhere.
    pub fn down(&mut self, datagram: &[u8], from: SocketAddr, now: Duration) -> (r: Option<
        (Vec<u8>, Vec<SocketAddr>),
    >)
        ensures
            final(self)@ == downward(old(self)@, datagram@, from, now@).0,
            match r {
                Some(parts) => downward(old(self)@, datagram@, from, now@).1 == Some(
                    (parts.0@, parts.1@),
                ),
                None => downward(old(self)@, datagram@, from, now@).1 is None,
            },
            if is_search(datagram@) {
                &&& final(self)@ == recent(old(self)@, now@)
                &&& r is Some
                &&& (r->0).0@ == framed(from, datagram@)
                &&& (r->0).1@ == addresses(recent(old(self)@, now@))
            } else {
                final(self)@ == old(self)@ && r is None
            },
            distinct(final(self)@),
    {
        proof {
            use_type_invariant(&*self);
        }
        if !starts_search(datagram) {
            return None;
        }
        let limit = Duration::from_secs(FORGET_AFTER);
        let ghost all = self@;
        let ghost keep = |c: (SocketAddr, nat)| now@ < c.1 + FORGET_AFTER * 1_000_000_000;
        let mut kept: Vec<(SocketAddr, Duration)> = Vec::new();
        let mut to: Vec<SocketAddr> = Vec::new();
        let mut i: usize = 0;
        proof {
            reveal(Seq::filter);
            assert(clients_of(kept@) =~= all.take(0).filter(keep));
            assert(to@ =~= addresses(clients_of(kept@)));
        }
        while i < self.clients.len()
            invariant
                i <= self.clients.len(),
                self@ == all,
                limit@ == FORGET_AFTER * 1_000_000_000,
                keep == (|c: (SocketAddr, nat)| now@ < c.1 + FORGET_AFTER * 1_000_000_000),
                clients_of(kept@) == all.take(i as int).filter(keep),
                to@ == addresses(clients_of(kept@)),
            decreases self.clients.len() - i,
        {
            let client = self.clients[i];
            let ghost before = kept@;
            let ghost sent = to@;
            proof {
                reveal(Seq::filter);
                assert(all[i as int] == (client.0, client.1@));
                assert(all.take(i + 1).drop_last() =~= all.take(i as int));
            }
            let fresh = if client.1.longer_than(now) {
                true
            } else {
                limit.longer_than(now.minus(client.1))
            };
            if fresh {
                kept.push(client);
                to.push(client.0);
                assert(clients_of(kept@) =~= clients_of(before).push((client.0, client.1@)));
                assert(to@ =~= addresses(clients_of(kept@)));
            }
            i += 1;
        }
        assert(all.take(i as int) =~= all);
        proof {
            law_recent_clients_stay_distinct(all, now@);
        }
        self.clients = kept;
        Some((encode_frame(from, datagram), to))
    }
}

// ---------------------------------------------------------------------------
// Laws

/// Whether no address stands twice among the clients.
pub open spec fn distinct(clients: Clients) -> bool {
    forall|i: int, j: int|
        0 <= i < j < clients.len() ==> (#[trigger] clients[i]).0 != (#[trigger] clients[j]).0
}

/// Whether an address stands among the clients.
pub open spec fn knows(clients: Clients, addr: SocketAddr) -> bool {
    exists|i: int| 0 <= i < clients.len() && (#[trigger] clients[i]).0 == addr
}

proof fn lemma_noted_addresses(clients: Clients, from: SocketAddr, now: nat)
    ensures
        forall|a: SocketAddr|
            #[trigger] knows(noted(clients, from, now), a) <==> a == from || knows(clients, a),
    decreases clients.len(),
{
    let result = noted(clients, from, now);
    if clients.len() == 0 {
        assert(result[0].0 == from);
    } else {
        let rest = clients.drop_first();
        lemma_noted_addresses(rest, from, now);
        assert forall|a: SocketAddr| #[trigger] knows(result, a) <==> a == from || knows(clients, a) by {
            if clients.first().0 == from {
                assert(result[0].0 == from);
                assert(clients[0].0 == from);
                if knows(result, a) && a != from {
                    let i = choose|i: int| 0 <= i < result.len() && (#[trigger] result[i]).0 == a;
                    assert(result[i] == clients[i]);
                }
                if knows(clients, a) && a != from {
                    let i = choose|i: int| 0 <= i < clients.len() && (#[trigger] clients[i]).0 == a;
                    assert(result[i] == clients[i]);
                }
            } else {
                let tail = noted(rest, from, now);
                assert(result[0] == clients[0]);
                if knows(result, a) {
                    let i = choose|i: int| 0 <= i < result.len() && (#[trigger] result[i]).0 == a;
                    if i > 0 {
                        assert(tail[i - 1] == result[i]);
                        assert(knows(tail, a));
                        if a != from {
                            let j = choose|j: int| 0 <= j < rest.len() && (#[trigger] rest[j]).0 == a;
                            assert(clients[j + 1] == rest[j]);
                        }
                    }
                }
                if a == from {
                    assert(knows(tail, from));
                    let j = choose|j: int| 0 <= j < tail.len() && (#[trigger] tail[j]).0 == from;
                    assert(result[j + 1] == tail[j]);
                }
                if knows(clients, a) {
                    let i = choose|i: int| 0 <= i < clients.len() && (#[trigger] clients[i]).0 == a;
                    if i > 0 {
                        assert(rest[i - 1] == clients[i]);
                        assert(knows(rest, a));
                        assert(knows(tail, a));
                        let j = choose|j: int| 0 <= j < tail.len() && (#[trigger] tail[j]).0 == a;
                        assert(result[j + 1] == tail[j]);
                    }
                }
            }
        }
    }
}

/// No client is kept twice, however often it is heard of.
pub proof fn law_clients_stay_distinct(clients: Clients, from: SocketAddr, now: nat)
    requires
        distinct(clients),
    ensures
        distinct(noted(clients, from, now)),
    decreases clients.len(),
{
    if clients.len() > 0 && clients.first().0 != from {
        let rest = clients.drop_first();
        assert forall|i: int, j: int| 0 <= i < j < rest.len() implies (#[trigger] rest[i]).0 != (
        #[trigger] rest[j]).0 by {
            assert(rest[i] == clients[i + 1] && rest[j] == clients[j + 1]);
        }
        law_clients_stay_distinct(rest, from, now);
        lemma_noted_addresses(rest, from, now);
        let tail = noted(rest, from, now);
        let result = noted(clients, from, now);
        assert forall|i: int, j: int| 0 <= i < j < result.len() implies (#[trigger] result[i]).0
            != (#[trigger] result[j]).0 by {
            assert(result[j] == tail[j - 1]);
            if i == 0 {
                if result[j].0 == clients[0].0 {
                    assert(knows(tail, clients[0].0));
                    let k = choose|k: int|
                        0 <= k < rest.len() && (#[trigger] rest[k]).0 == clients[0].0;
                    assert(rest[k] == clients[k + 1]);
                }
            } else {
                assert(result[i] == tail[i - 1]);
            }
        }
    } else if clients.len() > 0 {
        let result = noted(clients, from, now);
        assert forall|i: int, j: int| 0 <= i < j < result.len() implies (#[trigger] result[i]).0
            != (#[trigger] result[j]).0 by {
            assert(result[j] == clients[j]);
            if i > 0 {
                assert(result[i] == clients[i]);
            } else {
                assert(clients[0].0 == from);
            }
        }
    }
}

proof fn lemma_kept(clients: Clients, keep: spec_fn((SocketAddr, nat)) -> bool)
    requires
        distinct(clients),
    ensures
        distinct(clients.filter(keep)),
        forall|i: int|
            0 <= i < clients.filter(keep).len() ==> clients.contains(
                #[trigger] clients.filter(keep)[i],
            ),
    decreases clients.len(),
{
    reveal(Seq::filter);
    if clients.len() > 0 {
        let earlier = clients.drop_last();
        let last = clients.last();
        assert forall|i: int, j: int| 0 <= i < j < earlier.len() implies (#[trigger] earlier[i]).0
            != (#[trigger] earlier[j]).0 by {
            assert(earlier[i] == clients[i] && earlier[j] == clients[j]);
        }
        lemma_kept(earlier, keep);
        let before = earlier.filter(keep);
        let kept = clients.filter(keep);
        assert forall|i: int| 0 <= i < kept.len() implies clients.contains(#[trigger] kept[i]) by {
            if i < before.len() {
                assert(earlier.contains(before[i]));
                let k = choose|k: int| 0 <= k < earlier.len() && earlier[k] == before[i];
                assert(clients[k] == kept[i]);
            } else {
                assert(clients[clients.len() - 1] == kept[i]);
            }
        }
        assert forall|i: int, j: int| 0 <= i < j < kept.len() implies (#[trigger] kept[i]).0 != (
        #[trigger] kept[j]).0 by {
            assert(kept[i] == before[i]);
            if j < before.len() {
                assert(kept[j] == before[j]);
            } else {
                assert(earlier.contains(before[i]));
                let k = choose|k: int| 0 <= k < earlier.len() && earlier[k] == before[i];
                assert(clients[k] == before[i]);
                assert(clients[clients.len() - 1] == kept[j]);
            }
        }
    }
}

/// No client is kept twice when those that were not heard of are forgotten.
pub proof fn law_recent_clients_stay_distinct(clients: Clients, now: nat)
    requires
        distinct(clients),
    ensures
        distinct(recent(clients, now)),
{
    lemma_kept(clients, |c: (SocketAddr, nat)| now < c.1 + FORGET_AFTER * 1_000_000_000);
}

/// A client that has just been heard of is known, with the time at which it was.
pub proof fn law_heard_client_is_known(clients: Clients, from: SocketAddr, now: nat)
    ensures
        noted(clients, from, now).contains((from, now)),
    decreases clients.len(),
{
    let result = noted(clients, from, now);
    if clients.len() == 0 || clients.first().0 == from {
        assert(result[0] == (from, now));
    } else {
        let rest = clients.drop_first();
        law_heard_client_is_known(rest, from, now);
        let tail = noted(rest, from, now);
        let i = choose|i: int| 0 <= i < tail.len() && tail[i] == (from, now);
        assert(result[i + 1] == tail[i]);
    }
}

/// A search reaches every client that was heard of less than `FORGET_AFTER` seconds ago.
pub proof fn law_search_reaches_recent_clients(
    clients: Clients,
    from: SocketAddr,
    heard: nat,
    now: nat,
)
    requires
        now < heard + FORGET_AFTER * 1_000_000_000,
    ensures
        addresses(recent(noted(clients, from, heard), now)).contains(from),
{
    let all = noted(clients, from, heard);
    let keep = |c: (SocketAddr, nat)| now < c.1 + FORGET_AFTER * 1_000_000_000;
    law_heard_client_is_known(clients, from, heard);
    let i = choose|i: int| 0 <= i < all.len() && all[i] == (from, heard);
    all.lemma_filter_contains(keep, i);
    let kept = recent(all, now);
    let j = choose|j: int| 0 <= j < kept.len() && kept[j] == (from, heard);
    assert(addresses(kept)[j] == from);
}

/// A search that the relay forwards reaches the server with the address of the searcher, and the
/// answer that the server sends there leaves the relay toward the searcher. This holds of IPv4
/// searchers, and of searches that fit into the server's buffer.
pub proof fn law_relay_reflects_searches(
    searcher: SocketAddr,
    search: Seq<u8>,
    room: nat,
    answer: Seq<u8>,
)
    requires
        searcher is V4,
        is_search(search),
        search.len() <= room,
    ensures
        tunnelled(framed(searcher, search), room) == Some((searcher, search)),
        unframed(framed(searcher, answer)) == Some((searcher, answer)),
{
    law_frame_round_trip(searcher, search);
    law_frame_round_trip(searcher, answer);
}

/// The parts of an address are the bytes of its number, the first the highest.
pub proof fn law_address_parts(octets: Seq<u8>, port: u16)
    requires
        octets.len() == 4,
    ensures
        match SocketAddr::at(octets, port) {
            SocketAddr::V4(a) => {
                &&& a.port == port
                &&& a.ip / 0x100_0000 == octets[0]
                &&& a.ip / 0x1_0000 % 0x100 == octets[1]
                &&& a.ip / 0x100 % 0x100 == octets[2]
                &&& a.ip % 0x100 == octets[3]
            },
            SocketAddr::V6(_) => false,
        },
{
    let a = octets[0] as int;
    let b = octets[1] as int;
    let c = octets[2] as int;
    let d = octets[3] as int;
    let ip = a * 0x100_0000 + b * 0x1_0000 + c * 0x100 + d;
    assert(ip / 0x100_0000 == a);
    assert(ip / 0x1_0000 == a * 0x100 + b);
    assert(ip / 0x100 == a * 0x1_0000 + b * 0x100 + c);
    assert(ip % 0x100 == d);
    assert(0 <= ip <= u32::MAX);
}

/// A frame is the address, big-endian, the port, big-endian, and the datagram. There is no room for
/// an IPv6 address.
pub proof fn law_frame_bytes(addr: SocketAddr, payload: Seq<u8>)
    ensures
        ({
            let f = framed(addr, payload);
            &&& f.len() == payload.len() + 6
            &&& f.skip(6) == payload
            &&& addr matches SocketAddr::V4(a) ==> f[0] * 0x100_0000 + f[1] * 0x1_0000 + f[2] * 0x100
                + f[3] == a.ip && f[4] * 0x100 + f[5] == a.port
            &&& addr is V6 ==> forall|i: int| 0 <= i < 6 ==> #[trigger] f[i] == 0
        }),
{
    let f = framed(addr, payload);
    assert(f.skip(6) =~= payload);
}

/// Whatever six bytes or more say is a frame, and framing what was taken out of it gives the same
/// bytes; fewer are none.
pub proof fn law_every_long_datagram_is_a_frame(buf: Seq<u8>)
    ensures
        unframed(buf) is Some <==> buf.len() >= 6,
        unframed(buf) matches Some((addr, payload)) ==> addr is V4 && framed(addr, payload) == buf,
{
    if buf.len() >= 6 {
        let (addr, payload) = unframed(buf)->0;
        law_address_parts(buf.take(4), (buf[4] * 0x100 + buf[5]) as u16);
        assert(framed(addr, payload) =~= buf);
    }
}

/// The server takes something out of a frame exactly if there is something behind its address: as
/// much of it as there is room for, from the start on.
pub proof fn law_tunnelled_bytes(frame: Seq<u8>, room: nat)
    ensures
        tunnelled(frame, room) is Some <==> frame.len() > 6,
        tunnelled(frame, room) matches Some((from, payload)) ==> {
            &&& from is V4
            &&& payload.len() == if frame.len() - 6 < room {
                frame.len() - 6
            } else {
                room as int
            }
            &&& forall|i: int| 0 <= i < payload.len() ==> #[trigger] payload[i] == frame[i + 6]
            &&& from == (unframed(frame)->0).0
        },
{
    law_every_long_datagram_is_a_frame(frame);
}

/// Hearing of a client that is known only changes its time, and a new one comes last. Nothing else
/// changes.
pub proof fn law_noted_changes_one_client(clients: Clients, from: SocketAddr, now: nat, i: int)
    requires
        0 <= i <= clients.len(),
        forall|j: int| 0 <= j < i ==> (#[trigger] clients[j]).0 != from,
        i < clients.len() ==> clients[i].0 == from,
    ensures
        noted(clients, from, now) == if i < clients.len() {
            clients.update(i, (from, now))
        } else {
            clients.push((from, now))
        },
    decreases clients.len(),
{
    let expected = if i < clients.len() {
        clients.update(i, (from, now))
    } else {
        clients.push((from, now))
    };
    if clients.len() == 0 {
        assert(noted(clients, from, now) =~= expected);
    } else if i == 0 {
        assert(noted(clients, from, now) =~= expected);
    } else {
        assert(clients[0].0 != from);
        let rest = clients.drop_first();
        assert forall|j: int| 0 <= j < i - 1 implies (#[trigger] rest[j]).0 != from by {
            assert(rest[j] == clients[j + 1]);
        }
        law_noted_changes_one_client(rest, from, now, i - 1);
        assert(noted(clients, from, now) =~= expected);
    }
}

/// Clients are forgotten one by one: a client stays, in its place among the others, exactly if less
/// than two minutes have gone by since it was heard of.
pub proof fn law_forgotten_after_two_minutes(
    a: Clients,
    b: Clients,
    client: (SocketAddr, nat),
    now: nat,
)
    ensures
        recent(a + b, now) == recent(a, now) + recent(b, now),
        recent(Seq::empty(), now) == Seq::<(SocketAddr, nat)>::empty(),
        recent(seq![client], now) == if now - client.1 < 120_000_000_000 {
            seq![client]
        } else {
            Seq::empty()
        },
{
    let keep = |c: (SocketAddr, nat)| now < c.1 + FORGET_AFTER * 1_000_000_000;
    Seq::filter_distributes_over_add(a, b, keep);
    reveal_with_fuel(Seq::filter, 2);
    assert(seq![client].drop_last() =~= Seq::empty());
    assert(recent(seq![client], now) =~= if now - client.1 < 120_000_000_000 {
        seq![client]
    } else {
        Seq::empty()
    });
}

/// The addresses are those of the clients, in their order.
pub proof fn law_addresses(clients: Clients, i: int)
    requires
        0 <= i < clients.len(),
    ensures
        addresses(clients).len() == clients.len(),
        addresses(clients)[i] == clients[i].0,
{
}

/// A datagram is a search exactly if its first eight bytes spell `M-SEARCH`.
pub proof fn law_search_bytes(rest: Seq<u8>, datagram: Seq<u8>)
    ensures
        is_search(encode_utf8("M-SEARCH"@) + rest),
        is_search(datagram) ==> datagram.len() >= 8 && datagram.take(8) == encode_utf8(
            "M-SEARCH"@,
        ),
{
    let word = seq![77u8, 45u8, 83u8, 69u8, 65u8, 82u8, 67u8, 72u8];
    reveal_strlit("M-SEARCH");
    let text = "M-SEARCH"@;
    assert(is_ascii_chars(text));
    is_ascii_chars_encode_utf8(text);
    assert(encode_utf8(text) =~= word);
    assert((word + rest).subrange(0, 8) =~= word);
    if is_search(datagram) {
        assert(datagram.take(8) =~= datagram.subrange(0, 8));
    }
}

/// Every frame of a client makes the relay know the client from then on, though it carries nothing.
/// What it carries goes to the address in front of it, unchanged. What is no frame does nothing.
pub proof fn law_frames_go_up(clients: Clients, datagram: Seq<u8>, from: SocketAddr, now: nat)
    ensures
        ({
            let (after, sent) = upward(clients, datagram, from, now);
            &&& datagram.len() < 6 ==> after == clients && sent is None
            &&& datagram.len() >= 6 ==> after.contains((from, now))
            &&& sent is Some <==> datagram.len() > 6
            &&& sent matches Some((to, payload)) ==> framed(to, payload) == datagram
        }),
{
    law_every_long_datagram_is_a_frame(datagram);
    if datagram.len() >= 6 {
        law_heard_client_is_known(clients, from, now);
    }
}

/// A search goes to each client that was heard of less than two minutes ago, and to no other, in
/// front of it the address of the searcher. Nothing else that comes from the LAN goes anywhere or
/// makes the relay forget a client.
pub proof fn law_searches_go_down(
    clients: Clients,
    datagram: Seq<u8>,
    from: SocketAddr,
    now: nat,
    i: int,
)
    requires
        0 <= i < clients.len(),
        distinct(clients),
    ensures
        ({
            let (after, sent) = downward(clients, datagram, from, now);
            &&& sent is Some <==> is_search(datagram)
            &&& sent is None ==> after == clients
            &&& sent matches Some((frame, to)) ==> {
                &&& frame.skip(6) == datagram
                &&& from is V4 ==> unframed(frame) == Some((from, datagram))
                &&& to.len() == after.len()
                &&& to.contains(clients[i].0) <==> now - clients[i].1 < 120_000_000_000
                &&& after.contains(clients[i]) <==> now - clients[i].1 < 120_000_000_000
            }
        }),
{
    law_frame_bytes(from, datagram);
    law_frame_round_trip(from, datagram);
    let keep = |c: (SocketAddr, nat)| now < c.1 + FORGET_AFTER * 1_000_000_000;
    let kept = recent(clients, now);
    lemma_kept(clients, keep);
    if keep(clients[i]) {
        clients.lemma_filter_contains(keep, i);
        let j = choose|j: int| 0 <= j < kept.len() && kept[j] == clients[i];
        assert(addresses(kept)[j] == clients[i].0);
    } else {
        if kept.contains(clients[i]) {
            let j = choose|j: int| 0 <= j < kept.len() && kept[j] == clients[i];
            clients.lemma_filter_pred(keep, j);
            assert(keep(kept[j]));
        }
        if addresses(kept).contains(clients[i].0) {
            let j = choose|j: int|
                0 <= j < addresses(kept).len() && addresses(kept)[j] == clients[i].0;
            assert(kept[j].0 == clients[i].0);
            assert(clients.contains(kept[j]));
            let k = choose|k: int| 0 <= k < clients.len() && clients[k] == kept[j];
            clients.lemma_filter_pred(keep, j);
            assert(keep(kept[j]));
            if k < i {
                assert(clients[k].0 != clients[i].0);
            }
            if i < k {
                assert(clients[i].0 != clients[k].0);
            }
        }
    }
}

/// A new relay knows nobody, so a search goes nowhere.
pub proof fn law_new_relay_knows_nobody(relay: Relay, search: Seq<u8>, from: SocketAddr, now: nat)
    requires
        call_ensures(Relay::new, (), relay),
        is_search(search),
    ensures
        relay@.len() == 0,
        downward(relay@, search, from, now).1 matches Some((_, to)) && to.len() == 0,
{
    reveal(Seq::filter);
}

} // verus!
