//! The sockets and the interface of the TCP/IP stack, as the HTTP client uses
//! them.
//!
//! What a socket set holds is modelled as a map from handles to [`TcpSocket`]s:
//! the connection state and the bytes in the two buffers. Packets move only
//! while the interface is polled, which happens outside of this module; every
//! call here works on the buffers alone.
use vstd::prelude::*;

use smoltcp::iface::{Interface, SocketHandle, SocketSet};
use smoltcp::socket::{dhcpv4, tcp};
use smoltcp::wire::{IpAddress, IpCidr, IpEndpoint};

verus! {

/// An IPv4 address, its four bytes in the order in which they are written.
#[derive(Debug, Clone, Copy, PartialEq, Eq, Structural)]
pub struct Ipv4Address {
    pub a: u8,
    pub b: u8,
    pub c: u8,
    pub d: u8,
}

/// The states of a TCP connection.
#[derive(Debug, Clone, Copy, PartialEq, Eq, Structural)]
pub enum TcpState {
    Closed,
    Listen,
    SynSent,
    SynReceived,
    Established,
    FinWait1,
    FinWait2,
    CloseWait,
    Closing,
    LastAck,
    TimeWait,
}

/// Why a connection could not be begun.
#[derive(Debug, Clone, Copy, PartialEq, Eq, Structural)]
pub enum ConnectError {
    InvalidState,
    Unaddressable,
}

/// What DHCP has to report.
#[derive(Debug, Clone, Copy, PartialEq, Eq, Structural)]
pub enum DhcpEvent {
    /// A lease: the address, the length of its prefix, and the router.
    Configured { ip: Ipv4Address, prefix: u8, router: Option<Ipv4Address> },
    /// The lease is gone.
    Deconfigured,
}

/// The two ends of a connection: the address and the port of the other side, and
/// the port of this one.
pub struct Endpoints {
    pub ip: Ipv4Address,
    pub port: u16,
    pub local_port: u16,
}

/// A TCP socket: its state, the ends of its connection, the bytes that came and
/// were not yet taken, the bytes that wait to be acknowledged, and how many of
/// those it has room for.
pub struct TcpSocket {
    pub state: TcpState,
    pub ends: Option<Endpoints>,
    pub received: Seq<u8>,
    pub queued: Seq<u8>,
    pub room: nat,
}

impl TcpSocket {
    /// The socket is not free for a new connection.
    pub open spec fn is_open(self) -> bool {
        !(self.state is Closed || self.state is TimeWait)
    }

    /// The sending half of the connection is open.
    pub open spec fn may_send(self) -> bool {
        self.state is Established || self.state is CloseWait
    }

    /// The receiving half is open, or there is something to take.
    pub open spec fn may_recv(self) -> bool {
        self.state is Established || self.state is FinWait1 || self.state is FinWait2
            || self.received.len() > 0
    }

    /// The socket in another state.
    pub open spec fn with_state(self, state: TcpState) -> TcpSocket {
        TcpSocket { state, ..self }
    }

    /// The state once the sending half was closed.
    pub open spec fn closing(self) -> TcpState {
        match self.state {
            TcpState::Listen => TcpState::Closed,
            TcpState::SynSent => TcpState::Closed,
            TcpState::SynReceived => TcpState::FinWait1,
            TcpState::Established => TcpState::FinWait1,
            TcpState::CloseWait => TcpState::LastAck,
            other => other,
        }
    }
}

// ---------- Outside types ----------

/// `smoltcp::iface::SocketSet`: the sockets of the stack.
#[verifier::external_type_specification]
#[verifier::external_body]
pub struct ExSocketSet<'a>(SocketSet<'a>);

/// `smoltcp::iface::SocketHandle`: names one socket of a set.
#[verifier::external_type_specification]
#[verifier::external_body]
pub struct ExSocketHandle(SocketHandle);

/// `smoltcp::iface::Interface`: the network interface.
#[verifier::external_type_specification]
#[verifier::external_body]
pub struct ExInterface(Interface);

/// The TCP sockets that a socket set holds.
pub uninterp spec fn tcp_sockets(set: SocketSet<'static>) -> Map<SocketHandle, TcpSocket>;

/// The DHCP sockets that a socket set holds, each with what it has to report.
pub uninterp spec fn dhcp_sockets(set: SocketSet<'static>) -> Map<SocketHandle, Option<DhcpEvent>>;

/// The storage of a socket set is a vector, and not of a fixed size.
pub uninterp spec fn growable(set: SocketSet<'static>) -> bool;

/// The IPv4 addresses that an interface has, with the lengths of their prefixes.
pub uninterp spec fn ip_addresses(iface: Interface) -> Seq<(Ipv4Address, u8)>;

/// The gateways of the default IPv4 routes that an interface has, in the order
/// of its table.
pub uninterp spec fn default_gateways(iface: Interface) -> Seq<Ipv4Address>;

/// How many routes an interface has.
pub uninterp spec fn route_count(iface: Interface) -> nat;

/// The set with one TCP socket changed: the others, and the DHCP sockets, are as
/// they were.
pub open spec fn socket_changed(
    before: SocketSet<'static>,
    after: SocketSet<'static>,
    h: SocketHandle,
    socket: TcpSocket,
) -> bool {
    &&& tcp_sockets(after) == tcp_sockets(before).insert(h, socket)
    &&& dhcp_sockets(after) == dhcp_sockets(before)
}

// ---------- The socket set ----------

/// `SocketSet::new` over an empty vector makes a set without sockets, which keeps
/// the vector as its storage.
#[verifier::external_body]
pub(crate) fn new_socket_set() -> (r: SocketSet<'static>)
    ensures
        tcp_sockets(r).dom() == Set::<SocketHandle>::empty(),
        dhcp_sockets(r).dom() == Set::<SocketHandle>::empty(),
        growable(r),
{
    SocketSet::new(Vec::new())
}

/// `SocketSet::add` puts a new `dhcpv4::Socket` into a free place of the set and
/// returns its handle. A set over a vector grows where there is no free place, and
/// stays one over a vector; a set of a fixed size, which panics there, is not taken.
/// What a new socket has to report is that there is no lease.
#[verifier::external_body]
pub(crate) fn add_dhcp_socket(set: &mut SocketSet<'static>) -> (r: SocketHandle)
    requires
        growable(*old(set)),
    ensures
        growable(*final(set)),
        !tcp_sockets(*old(set)).contains_key(r),
        !dhcp_sockets(*old(set)).contains_key(r),
        tcp_sockets(*final(set)) == tcp_sockets(*old(set)),
        dhcp_sockets(*final(set)) == dhcp_sockets(*old(set)).insert(
            r,
            Some(DhcpEvent::Deconfigured),
        ),
{
    set.add(dhcpv4::Socket::new())
}

/// `SocketSet::add` puts a new `tcp::Socket` with the two buffers into a free
/// place of the set and returns its handle. A set over a vector grows where there
/// is no free place, and stays one over a vector; a set of a fixed size, which
/// panics there, is not taken. The socket is closed and both buffers are empty; it has room for as many
/// bytes to send as the second buffer is long. `tcp::Socket::new` does not take
/// a receive buffer of more than a gigabyte.
#[verifier::external_body]
pub(crate) fn add_tcp_socket(
    set: &mut SocketSet<'static>,
    rx: Vec<u8>,
    tx: Vec<u8>,
) -> (r: SocketHandle)
    requires
        growable(*old(set)),
        rx@.len() <= 0x4000_0000,
    ensures
        growable(*final(set)),
        !tcp_sockets(*old(set)).contains_key(r),
        !dhcp_sockets(*old(set)).contains_key(r),
        socket_changed(
            *old(set),
            *final(set),
            r,
            (TcpSocket {
                state: TcpState::Closed,
                ends: None,
                received: Seq::empty(),
                queued: Seq::empty(),
                room: tx@.len(),
            }),
        ),
{
    set.add(tcp::Socket::new(tcp::SocketBuffer::new(rx), tcp::SocketBuffer::new(tx)))
}

// ---------- A TCP socket ----------

/// `tcp::Socket::state` tells the state of the connection.
#[verifier::external_body]
pub(crate) fn tcp_state(set: &SocketSet<'static>, h: SocketHandle) -> (r: TcpState)
    requires
        tcp_sockets(*set).contains_key(h),
    ensures
        r == tcp_sockets(*set)[h].state,
{
    match set.get::<tcp::Socket>(h).state() {
        tcp::State::Closed => TcpState::Closed,
        tcp::State::Listen => TcpState::Listen,
        tcp::State::SynSent => TcpState::SynSent,
        tcp::State::SynReceived => TcpState::SynReceived,
        tcp::State::Established => TcpState::Established,
        tcp::State::FinWait1 => TcpState::FinWait1,
        tcp::State::FinWait2 => TcpState::FinWait2,
        tcp::State::CloseWait => TcpState::CloseWait,
        tcp::State::Closing => TcpState::Closing,
        tcp::State::LastAck => TcpState::LastAck,
        tcp::State::TimeWait => TcpState::TimeWait,
    }
}

/// `tcp::Socket::is_open` tells whether the state is neither closed nor waiting
/// for stray packets after closing.
#[verifier::external_body]
pub(crate) fn tcp_is_open(set: &SocketSet<'static>, h: SocketHandle) -> (r: bool)
    requires
        tcp_sockets(*set).contains_key(h),
    ensures
        r == tcp_sockets(*set)[h].is_open(),
{
    set.get::<tcp::Socket>(h).is_open()
}

/// `tcp::Socket::may_send` tells whether the sending half is open.
#[verifier::external_body]
pub(crate) fn tcp_may_send(set: &SocketSet<'static>, h: SocketHandle) -> (r: bool)
    requires
        tcp_sockets(*set).contains_key(h),
    ensures
        r == tcp_sockets(*set)[h].may_send(),
{
    set.get::<tcp::Socket>(h).may_send()
}

/// `tcp::Socket::can_send` tells whether the sending half is open and there is
/// room in the buffer.
#[verifier::external_body]
pub(crate) fn tcp_can_send(set: &SocketSet<'static>, h: SocketHandle) -> (r: bool)
    requires
        tcp_sockets(*set).contains_key(h),
    ensures
        r == (tcp_sockets(*set)[h].may_send() && tcp_sockets(*set)[h].queued.len()
            < tcp_sockets(*set)[h].room),
{
    set.get::<tcp::Socket>(h).can_send()
}

/// `tcp::Socket::can_recv` tells whether there are bytes to take.
#[verifier::external_body]
pub(crate) fn tcp_can_recv(set: &SocketSet<'static>, h: SocketHandle) -> (r: bool)
    requires
        tcp_sockets(*set).contains_key(h),
    ensures
        r == (tcp_sockets(*set)[h].received.len() > 0),
{
    set.get::<tcp::Socket>(h).can_recv()
}

/// `tcp::Socket::recv_queue` counts the bytes to take.
#[verifier::external_body]
pub(crate) fn tcp_recv_queue(set: &SocketSet<'static>, h: SocketHandle) -> (r: usize)
    requires
        tcp_sockets(*set).contains_key(h),
    ensures
        r == tcp_sockets(*set)[h].received.len(),
{
    set.get::<tcp::Socket>(h).recv_queue()
}

/// `tcp::Socket::abort` closes the connection at once. The buffers stay as they
/// are.
#[verifier::external_body]
pub(crate) fn tcp_abort(set: &mut SocketSet<'static>, h: SocketHandle)
    requires
        tcp_sockets(*old(set)).contains_key(h),
    ensures
        socket_changed(
            *old(set),
            *final(set),
            h,
            tcp_sockets(*old(set))[h].with_state(TcpState::Closed),
        ),
{
    set.get_mut::<tcp::Socket>(h).abort()
}

/// `tcp::Socket::close` closes the sending half. The buffers stay as they are.
#[verifier::external_body]
pub(crate) fn tcp_close(set: &mut SocketSet<'static>, h: SocketHandle)
    requires
        tcp_sockets(*old(set)).contains_key(h),
    ensures
        socket_changed(
            *old(set),
            *final(set),
            h,
            tcp_sockets(*old(set))[h].with_state(tcp_sockets(*old(set))[h].closing()),
        ),
{
    set.get_mut::<tcp::Socket>(h).close()
}

/// `tcp::Socket::connect` begins a connection between the given ends: the buffers
/// are emptied and the state is that of a request sent. It is refused on a socket
/// that is open, and where an address or a port is missing: a remote address that
/// begins with a zero byte, a port of zero, or an interface without an address. A
/// refusal leaves the socket as it was. The addresses and the routes of the
/// interface stay as they are.
#[verifier::external_body]
pub(crate) fn tcp_connect(
    iface: &mut Interface,
    set: &mut SocketSet<'static>,
    h: SocketHandle,
    ip: Ipv4Address,
    port: u16,
    local_port: u16,
) -> (r: Result<(), ConnectError>)
    requires
        tcp_sockets(*old(set)).contains_key(h),
    ensures
        ip_addresses(*final(iface)) == ip_addresses(*old(iface)),
        default_gateways(*final(iface)) == default_gateways(*old(iface)),
        route_count(*final(iface)) == route_count(*old(iface)),
        r == (if tcp_sockets(*old(set))[h].is_open() {
            Err::<(), ConnectError>(ConnectError::InvalidState)
        } else if port == 0 || ip.a == 0 || local_port == 0 || ip_addresses(*old(iface)).len() == 0 {
            Err(ConnectError::Unaddressable)
        } else {
            Ok(())
        }),
        r is Ok ==> socket_changed(
            *old(set),
            *final(set),
            h,
            (TcpSocket {
                state: TcpState::SynSent,
                ends: Some(Endpoints { ip, port, local_port }),
                received: Seq::empty(),
                queued: Seq::empty(),
                room: tcp_sockets(*old(set))[h].room,
            }),
        ),
        r is Err ==> socket_changed(*old(set), *final(set), h, tcp_sockets(*old(set))[h]),
{
    let to = IpEndpoint::new(IpAddress::v4(ip.a, ip.b, ip.c, ip.d), port);
    match set.get_mut::<tcp::Socket>(h).connect(iface.context(), to, local_port) {
        Ok(()) => Ok(()),
        Err(tcp::ConnectError::InvalidState) => Err(ConnectError::InvalidState),
        Err(tcp::ConnectError::Unaddressable) => Err(ConnectError::Unaddressable),
    }
}

/// `tcp::Socket::send_slice` queues as many bytes of `data` as there is room for
/// and returns how many those were, or fails where the sending half is not open.
#[verifier::external_body]
pub(crate) fn tcp_send(set: &mut SocketSet<'static>, h: SocketHandle, data: &[u8]) -> (r: Option<
    usize,
>)
    requires
        tcp_sockets(*old(set)).contains_key(h),
    ensures
        r is None <==> !tcp_sockets(*old(set))[h].may_send(),
        r is None ==> socket_changed(*old(set), *final(set), h, tcp_sockets(*old(set))[h]),
        r matches Some(n) ==> {
            let s = tcp_sockets(*old(set))[h];
            &&& n <= data@.len()
            &&& s.queued.len() + n <= s.room
            &&& n < data@.len() ==> s.queued.len() + n == s.room
            &&& socket_changed(
                *old(set),
                *final(set),
                h,
                (TcpSocket { queued: s.queued + data@.take(n as int), ..s }),
            )
        },
{
    match set.get_mut::<tcp::Socket>(h).send_slice(data) {
        Ok(n) => Some(n),
        Err(tcp::SendError::InvalidState) => None,
    }
}

/// `tcp::Socket::recv_slice` takes the first bytes that came, as many as fit into
/// `data`, and returns how many those were, or fails where nothing can come any
/// more. The bytes of `data` behind those stay as they are.
#[verifier::external_body]
pub(crate) fn tcp_recv(
    set: &mut SocketSet<'static>,
    h: SocketHandle,
    data: &mut Vec<u8>,
) -> (r: Option<usize>)
    requires
        tcp_sockets(*old(set)).contains_key(h),
    ensures
        final(data)@.len() == old(data)@.len(),
        r is None <==> !tcp_sockets(*old(set))[h].may_recv(),
        r is None ==> socket_changed(*old(set), *final(set), h, tcp_sockets(*old(set))[h]),
        r is None ==> final(data)@ == old(data)@,
        r matches Some(n) ==> {
            let s = tcp_sockets(*old(set))[h];
            &&& n == if s.received.len() < old(data)@.len() {
                s.received.len()
            } else {
                old(data)@.len()
            }
            &&& final(data)@ == s.received.take(n as int) + old(data)@.skip(n as int)
            &&& socket_changed(
                *old(set),
                *final(set),
                h,
                (TcpSocket { received: s.received.skip(n as int), ..s }),
            )
        },
{
    match set.get_mut::<tcp::Socket>(h).recv_slice(data.as_mut_slice()) {
        Ok(n) => Some(n),
        Err(tcp::RecvError::InvalidState) => None,
        Err(tcp::RecvError::Finished) => None,
    }
}

// ---------- DHCP and the interface ----------

/// An address that one host can have: not of the reserved blocks that begin with
/// a zero byte or hold the multicast addresses, and not the broadcast address.
pub open spec fn is_unicast(ip: Ipv4Address) -> bool {
    &&& ip.a != 0
    &&& ip.a & 0xf0 != 224
    &&& !(ip.a == 255 && ip.b == 255 && ip.c == 255 && ip.d == 255)
}

/// `dhcpv4::Socket::poll` hands out what the socket has to report, after which it
/// has nothing to report until the lease changes again. Which leases come depends
/// on the network; the address of a lease is always a unicast address, and its
/// prefix has at most 32 bits. The sockets of the set stay where they are, and the
/// others stay as they are.
#[verifier::external_body]
pub(crate) fn dhcp_poll(set: &mut SocketSet<'static>, h: SocketHandle) -> (r: Option<DhcpEvent>)
    requires
        dhcp_sockets(*old(set)).contains_key(h),
    ensures
        tcp_sockets(*final(set)) == tcp_sockets(*old(set)),
        r == dhcp_sockets(*old(set))[h],
        dhcp_sockets(*final(set)) == dhcp_sockets(*old(set)).insert(h, None),
        r matches Some(DhcpEvent::Configured { ip, prefix, router }) ==> is_unicast(ip) && prefix
            <= 32,
{
    match set.get_mut::<dhcpv4::Socket>(h).poll() {
        None => None,
        Some(dhcpv4::Event::Deconfigured) => Some(DhcpEvent::Deconfigured),
        Some(dhcpv4::Event::Configured(lease)) => {
            let [a, b, c, d] = lease.address.address().0;
            let router = lease.router.map(
                |ip| Ipv4Address { a: ip.0[0], b: ip.0[1], c: ip.0[2], d: ip.0[3] },
            );
            let prefix = lease.address.prefix_len();
            Some(DhcpEvent::Configured { ip: Ipv4Address { a, b, c, d }, prefix, router })
        },
    }
}

/// `Interface::update_ip_addrs`, told to empty the list of addresses and to put
/// one address into it. It does not take an address that is neither unicast nor
/// of the block that begins with a zero byte, and `IpCidr::new` does not take
/// a prefix of more than 32 bits. The routes stay as they are.
#[verifier::external_body]
pub(crate) fn set_address(iface: &mut Interface, ip: Ipv4Address, prefix: u8)
    requires
        is_unicast(ip) || ip.a == 0,
        prefix <= 32,
    ensures
        ip_addresses(*final(iface)) == seq![(ip, prefix)],
        default_gateways(*final(iface)) == default_gateways(*old(iface)),
        route_count(*final(iface)) == route_count(*old(iface)),
{
    let cidr = IpCidr::new(IpAddress::v4(ip.a, ip.b, ip.c, ip.d), prefix);
    iface.update_ip_addrs(
        |addrs| {
            addrs.clear();
            let _ = addrs.push(cidr);
        },
    )
}

/// `Interface::update_ip_addrs`, told to empty the list of addresses. The routes
/// stay as they are.
#[verifier::external_body]
pub(crate) fn clear_addresses(iface: &mut Interface)
    ensures
        ip_addresses(*final(iface)) == Seq::<(Ipv4Address, u8)>::empty(),
        default_gateways(*final(iface)) == default_gateways(*old(iface)),
        route_count(*final(iface)) == route_count(*old(iface)),
{
    iface.update_ip_addrs(|addrs| addrs.clear())
}

/// The gateways without the first.
pub open spec fn without_first(gateways: Seq<Ipv4Address>) -> Seq<Ipv4Address> {
    if gateways.len() > 0 {
        gateways.skip(1)
    } else {
        gateways
    }
}

/// How many routes are left without the first default route.
pub open spec fn count_without_first(routes: nat, gateways: Seq<Ipv4Address>) -> nat {
    if gateways.len() > 0 {
        (routes - 1) as nat
    } else {
        routes
    }
}

/// `Routes::add_default_ipv4_route` takes the first default route out and puts
/// one through `gateway` at the end of the table, or returns false where the
/// table is full of other routes. It is not where it was empty, nor where a
/// default route made room. The addresses stay as they are. How many routes fit
/// into the table is settled when the stack is built, and not said here.
#[verifier::external_body]
pub(crate) fn add_default_route(iface: &mut Interface, gateway: Ipv4Address) -> (r: bool)
    ensures
        ip_addresses(*final(iface)) == ip_addresses(*old(iface)),
        default_gateways(*final(iface)) == if r {
            without_first(default_gateways(*old(iface))).push(gateway)
        } else {
            without_first(default_gateways(*old(iface)))
        },
        route_count(*final(iface)) == count_without_first(
            route_count(*old(iface)),
            default_gateways(*old(iface)),
        ) + if r {
            1nat
        } else {
            0nat
        },
        route_count(*old(iface)) == 0 || default_gateways(*old(iface)).len() > 0 ==> r,
{
    let via = smoltcp::wire::Ipv4Address::new(gateway.a, gateway.b, gateway.c, gateway.d);
    iface.routes_mut().add_default_ipv4_route(via).is_ok()
}

/// `Routes::remove_default_ipv4_route` takes the first default route out, if
/// there is one. The addresses stay as they are.
#[verifier::external_body]
pub(crate) fn remove_default_route(iface: &mut Interface)
    ensures
        ip_addresses(*final(iface)) == ip_addresses(*old(iface)),
        default_gateways(*final(iface)) == without_first(default_gateways(*old(iface))),
        route_count(*final(iface)) == count_without_first(
            route_count(*old(iface)),
            default_gateways(*old(iface)),
        ),
{
    iface.routes_mut().remove_default_ipv4_route();
}

} // verus!
