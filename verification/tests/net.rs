use std::collections::VecDeque;

use aioc::browser::{
    self, build_body_lines, build_status_line, link_status_line, parse_url, wrap_body, Browser,
};
use aioc::net::{
    drive_dhcp, http_get, http_reset, http_state, link_state, parse_ipv4, parse_status_line, poll,
    push_ipv4, strip_headers, tick_ms, HttpState, LinkState, Stack,
};
use aioc::sockets::{DhcpEvent, Ipv4Address};
use aioc::vga_buffer::{Buffer, Color, ColorCode, Writer};
use smoltcp::iface::{Config, Interface, SocketHandle};
use smoltcp::phy::{ChecksumCapabilities, Device, DeviceCapabilities, Medium, RxToken, TxToken};
use smoltcp::socket::tcp;
use smoltcp::time::Instant;
use smoltcp::wire::{
    DhcpMessageType, DhcpPacket, DhcpRepr, EthernetAddress, EthernetFrame, EthernetProtocol,
    EthernetRepr, HardwareAddress, IpAddress, IpCidr, IpProtocol, Ipv4Packet, Ipv4Repr, UdpPacket,
    UdpRepr,
};
use volatile::Volatile;

const HERE: Ipv4Address = Ipv4Address { a: 10, b: 0, c: 2, d: 15 };
const ROUTER: Ipv4Address = Ipv4Address { a: 10, b: 0, c: 2, d: 2 };
const MAC: [u8; 6] = [0x52, 0x54, 0, 0x12, 0x34, 0x56];

fn wire_ip(ip: Ipv4Address) -> smoltcp::wire::Ipv4Address {
    smoltcp::wire::Ipv4Address::new(ip.a, ip.b, ip.c, ip.d)
}

/// A wire that hands every frame back, and answers those that ask for a lease.
struct Wire {
    frames: VecDeque<Vec<u8>>,
    leases: bool,
}

impl Wire {
    fn new() -> Wire {
        Wire { frames: VecDeque::new(), leases: false }
    }

    fn sent(&mut self, frame: Vec<u8>) {
        match dhcp_answer(&frame) {
            Some(answer) if self.leases => self.frames.push_back(answer),
            Some(_) => {}
            None => self.frames.push_back(frame),
        }
    }
}

struct Rx(Vec<u8>);

impl RxToken for Rx {
    fn consume<R, F: FnOnce(&mut [u8]) -> R>(mut self, f: F) -> R {
        f(&mut self.0)
    }
}

struct Tx<'a>(&'a mut Wire);

impl<'a> TxToken for Tx<'a> {
    fn consume<R, F: FnOnce(&mut [u8]) -> R>(self, len: usize, f: F) -> R {
        let mut frame = vec![0; len];
        let r = f(&mut frame);
        self.0.sent(frame);
        r
    }
}

impl Device for Wire {
    type RxToken<'a> = Rx;
    type TxToken<'a> = Tx<'a>;

    fn receive(&mut self, _now: Instant) -> Option<(Rx, Tx<'_>)> {
        let frame = self.frames.pop_front()?;
        Some((Rx(frame), Tx(self)))
    }

    fn transmit(&mut self, _now: Instant) -> Option<Tx<'_>> {
        Some(Tx(self))
    }

    fn capabilities(&self) -> DeviceCapabilities {
        let mut caps = DeviceCapabilities::default();
        caps.medium = Medium::Ethernet;
        caps.max_transmission_unit = 1500;
        caps
    }
}

fn dhcp_answer(frame: &[u8]) -> Option<Vec<u8>> {
    let frame = EthernetFrame::new_checked(frame).ok()?;
    if frame.ethertype() != EthernetProtocol::Ipv4 {
        return None;
    }
    let packet = Ipv4Packet::new_checked(frame.payload()).ok()?;
    if packet.next_header() != IpProtocol::Udp {
        return None;
    }
    let datagram = UdpPacket::new_checked(packet.payload()).ok()?;
    if datagram.dst_port() != 67 {
        return None;
    }
    let asked_packet = DhcpPacket::new_checked(datagram.payload()).ok()?;
    let asked = DhcpRepr::parse(&asked_packet).ok()?;
    let dhcp = DhcpRepr {
        message_type: match asked.message_type {
            DhcpMessageType::Discover => DhcpMessageType::Offer,
            _ => DhcpMessageType::Ack,
        },
        transaction_id: asked.transaction_id,
        secs: 0,
        client_hardware_address: asked.client_hardware_address,
        client_ip: wire_ip(Ipv4Address { a: 0, b: 0, c: 0, d: 0 }),
        your_ip: wire_ip(HERE),
        server_ip: wire_ip(ROUTER),
        router: Some(wire_ip(ROUTER)),
        subnet_mask: Some(smoltcp::wire::Ipv4Address::new(255, 255, 255, 0)),
        relay_agent_ip: wire_ip(Ipv4Address { a: 0, b: 0, c: 0, d: 0 }),
        broadcast: false,
        requested_ip: None,
        client_identifier: None,
        server_identifier: Some(wire_ip(ROUTER)),
        parameter_request_list: None,
        dns_servers: None,
        max_size: None,
        lease_duration: Some(3600),
        renew_duration: None,
        rebind_duration: None,
        additional_options: &[],
    };
    let udp = UdpRepr { src_port: 67, dst_port: 68 };
    let ip = Ipv4Repr {
        src_addr: wire_ip(ROUTER),
        dst_addr: smoltcp::wire::Ipv4Address::BROADCAST,
        next_header: IpProtocol::Udp,
        payload_len: udp.header_len() + dhcp.buffer_len(),
        hop_limit: 64,
    };
    let ethernet = EthernetRepr {
        src_addr: EthernetAddress([2, 0, 0, 0, 0, 1]),
        dst_addr: EthernetAddress::BROADCAST,
        ethertype: EthernetProtocol::Ipv4,
    };
    let sums = ChecksumCapabilities::default();
    let mut answer = vec![0u8; ethernet.buffer_len() + ip.buffer_len() + ip.payload_len];
    let mut frame = EthernetFrame::new_unchecked(&mut answer[..]);
    ethernet.emit(&mut frame);
    let mut packet = Ipv4Packet::new_unchecked(frame.payload_mut());
    ip.emit(&mut packet, &sums);
    let mut datagram = UdpPacket::new_unchecked(packet.payload_mut());
    udp.emit(
        &mut datagram,
        &IpAddress::Ipv4(ip.src_addr),
        &IpAddress::Ipv4(ip.dst_addr),
        dhcp.buffer_len(),
        |payload| {
            let mut packet = DhcpPacket::new_unchecked(payload);
            dhcp.emit(&mut packet).unwrap();
        },
        &sums,
    );
    Some(answer)
}

struct Machine {
    wire: Wire,
    stack: Option<Stack>,
    now: u64,
}

impl Machine {
    fn new() -> Machine {
        let mut wire = Wire::new();
        let config = Config::new(HardwareAddress::Ethernet(EthernetAddress(MAC)));
        let iface = Interface::new(config, &mut wire, Instant::from_millis(0));
        Machine { wire, stack: Some(Stack::new(iface)), now: 0 }
    }

    fn up() -> Machine {
        let mut m = Machine::new();
        m.turn();
        let lease = DhcpEvent::Configured { ip: HERE, prefix: 24, router: Some(ROUTER) };
        m.stack.as_mut().unwrap().apply_lease(lease);
        m
    }

    fn turn(&mut self) {
        tick_ms(&mut self.now, 10);
        let s = self.stack.as_mut().unwrap();
        s.iface.poll(Instant::from_millis(self.now as i64), &mut self.wire, &mut s.sockets);
        poll(&mut self.stack, self.now);
    }

    fn serve(&mut self) -> SocketHandle {
        let mut server = tcp::Socket::new(
            tcp::SocketBuffer::new(vec![0u8; 4096]),
            tcp::SocketBuffer::new(vec![0u8; 65536]),
        );
        server.listen(8080).unwrap();
        self.stack.as_mut().unwrap().sockets.add(server)
    }

    fn server(&mut self, h: SocketHandle) -> &mut tcp::Socket<'static> {
        self.stack.as_mut().unwrap().sockets.get_mut::<tcp::Socket>(h)
    }

    /// Answers the request with a page, and says what was asked and which states
    /// the request went through.
    fn fetch(&mut self, h: SocketHandle, page: &[u8]) -> (Vec<u8>, Vec<&'static str>) {
        let mut asked = Vec::new();
        let mut states = Vec::new();
        let mut answered = 0;
        for _ in 0..2000 {
            let name = match http_state(&self.stack) {
                HttpState::Idle => "idle",
                HttpState::Connecting { .. } => "connecting",
                HttpState::Sending => "sending",
                HttpState::Receiving { .. } => "receiving",
                HttpState::Done { .. } => "done",
                HttpState::Error(_) => "error",
            };
            if states.last() != Some(&name) {
                states.push(name);
            }
            if name == "done" || name == "error" {
                break;
            }
            self.turn();
            let server = self.server(h);
            while server.can_recv() {
                server
                    .recv(|bytes| {
                        asked.extend_from_slice(bytes);
                        (bytes.len(), ())
                    })
                    .unwrap();
            }
            if asked.ends_with(b"\r\n\r\n") && answered < page.len() && server.can_send() {
                answered += server.send_slice(&page[answered..]).unwrap();
                if answered == page.len() {
                    server.close();
                }
            }
        }
        (asked, states)
    }
}

// ---------- Texts ----------

#[test]
fn addresses_as_text() {
    let mut s = String::from("ip ");
    push_ipv4(&mut s, HERE);
    assert_eq!(s, "ip 10.0.2.15");
    assert_eq!(parse_ipv4("10.0.2.15"), Some(HERE));
    assert_eq!(parse_ipv4("255.255.255.255").map(|ip| ip.d), Some(255));
}

#[test]
fn addresses_are_parsed_like_those_of_the_standard_library() {
    let cases = [
        "", "1.2.3", "1.2.3.4", "1.2.3.4.5", "256.1.1.1", "01.2.3.4", "0.0.0.0", "1..2.3", "a.b.c.d",
        " 1.2.3.4", "1.2.3.4 ", "+1.2.3.4", "1.2.3.00", "1.2.3.0", "999.0.0.1", "1.2.3.0004",
    ];
    for s in cases {
        let std_ip = s.parse::<core::net::Ipv4Addr>().ok().map(|ip| {
            let o = ip.octets();
            Ipv4Address { a: o[0], b: o[1], c: o[2], d: o[3] }
        });
        assert_eq!(parse_ipv4(s), std_ip, "{s:?}");
    }
}

#[test]
fn status_lines() {
    assert_eq!(parse_status_line(&b"HTTP/1.0 200 OK\r\n\r\n".to_vec()), Some(200));
    assert_eq!(parse_status_line(&b"HTTP/1.1  404\nx".to_vec()), Some(404));
    assert_eq!(parse_status_line(&b"HTTP/1.0 200 OK".to_vec()), None);
    assert_eq!(parse_status_line(&b"HTTP/1.0\n".to_vec()), None);
    assert_eq!(parse_status_line(&b"HTTP/1.0 many\n".to_vec()), None);
    assert_eq!(parse_status_line(&b"HTTP/1.0 200 \xff\n".to_vec()), None);
    assert_eq!(parse_status_line(&Vec::new()), None);
}

#[test]
fn bodies() {
    assert_eq!(strip_headers(&b"a\r\nb\r\n\r\nbody\r\n\r\n".to_vec()), b"body\r\n\r\n".to_vec());
    assert_eq!(strip_headers(&b"a\nb\n\nbody".to_vec()), b"body".to_vec());
    assert_eq!(strip_headers(&b"a\n\nb\r\n\r\nc".to_vec()), b"c".to_vec());
    assert_eq!(strip_headers(&b"no headers".to_vec()), b"no headers".to_vec());
    assert_eq!(strip_headers(&b"\r\n\r\n".to_vec()), Vec::<u8>::new());
}

#[test]
fn the_clock_wraps_around() {
    let mut now = u64::MAX;
    tick_ms(&mut now, 10);
    assert_eq!(now, 9);
}

// ---------- The stack ----------

#[test]
fn without_a_card() {
    let mut none: Option<Stack> = None;
    assert_eq!(link_state(&none), LinkState::NoNic);
    assert!(matches!(http_state(&none), HttpState::Idle));
    assert_eq!(http_get(&mut none, "h", HERE, 80, "/"), Err("net not initialised"));
    http_reset(&mut none);
    poll(&mut none, 5);
    assert!(none.is_none());
}

#[test]
fn a_lease_is_acquired() {
    let mut m = Machine::new();
    assert_eq!(link_state(&m.stack), LinkState::Dhcp);
    m.turn();
    assert_eq!(link_state(&m.stack), LinkState::Dhcp);
    assert_eq!(
        http_get(&mut m.stack, "h", HERE, 80, "/"),
        Err("network is still acquiring an IP via DHCP")
    );
    m.wire.leases = true;
    for _ in 0..3000 {
        m.turn();
    }
    assert_eq!(link_state(&m.stack), LinkState::Up { ip: HERE, gateway: Some(ROUTER) });
    let s = m.stack.as_mut().unwrap();
    assert_eq!(s.iface.ip_addrs(), [IpCidr::new(IpAddress::Ipv4(wire_ip(HERE)), 24)]);
    drive_dhcp(s);
    assert_eq!(link_state(&m.stack), LinkState::Up { ip: HERE, gateway: Some(ROUTER) });
}

#[test]
fn a_change_of_the_lease_is_reported_once() {
    let lease = DhcpEvent::Configured { ip: HERE, prefix: 24, router: None };
    let up = LinkState::Up { ip: HERE, gateway: None };
    let mut m = Machine::new();
    let s = m.stack.as_mut().unwrap();
    s.apply_lease(lease);
    drive_dhcp(s);
    assert_eq!(link_state(&m.stack), LinkState::Dhcp);
    let s = m.stack.as_mut().unwrap();
    s.apply_lease(lease);
    drive_dhcp(s);
    assert_eq!(link_state(&m.stack), up);
}

#[test]
fn a_lease_is_applied_and_lost() {
    let mut m = Machine::new();
    let s = m.stack.as_mut().unwrap();
    s.apply_lease(DhcpEvent::Configured { ip: HERE, prefix: 8, router: None });
    assert_eq!(s.iface.ip_addrs(), [IpCidr::new(IpAddress::Ipv4(wire_ip(HERE)), 8)]);
    assert_eq!(link_state(&m.stack), LinkState::Up { ip: HERE, gateway: None });
    let s = m.stack.as_mut().unwrap();
    assert!(s.iface.routes_mut().remove_default_ipv4_route().is_none());
    for last in [2, 3] {
        let router = Some(Ipv4Address { d: last, ..ROUTER });
        s.apply_lease(DhcpEvent::Configured { ip: HERE, prefix: 8, router });
    }
    let route = s.iface.routes_mut().remove_default_ipv4_route().unwrap();
    assert_eq!(route.via_router, IpAddress::v4(10, 0, 2, 3));
    assert!(s.iface.routes_mut().remove_default_ipv4_route().is_none());
    s.apply_lease(DhcpEvent::Configured { ip: HERE, prefix: 8, router: Some(ROUTER) });
    s.apply_lease(DhcpEvent::Deconfigured);
    assert!(s.iface.routes_mut().remove_default_ipv4_route().is_none());
    assert!(s.iface.ip_addrs().is_empty());
    assert_eq!(link_state(&m.stack), LinkState::Dhcp);
}

#[test]
fn a_page_is_fetched() {
    let mut m = Machine::up();
    let server = m.serve();
    let body: Vec<u8> = (0..20000u32).map(|i| b'a' + (i % 26) as u8).collect();
    let mut page = b"HTTP/1.0 200 OK\r\nServer: test\r\n\r\n".to_vec();
    page.extend_from_slice(&body);
    assert_eq!(http_get(&mut m.stack, "10.0.2.15", HERE, 8080, "/hello.txt"), Ok(()));
    assert_eq!(
        http_get(&mut m.stack, "10.0.2.15", HERE, 8080, "/other"),
        Err("another request is already in flight")
    );
    let (asked, states) = m.fetch(server, &page);
    assert_eq!(
        String::from_utf8(asked).unwrap(),
        "GET /hello.txt HTTP/1.0\r\nHost: 10.0.2.15\r\nUser-Agent: ConsoleOS/0.1\r\nAccept: */*\r\nConnection: close\r\n\r\n"
    );
    assert_eq!(states, vec!["connecting", "sending", "receiving", "done"]);
    match http_state(&m.stack).clone() {
        HttpState::Done { status, body: got } => {
            assert_eq!(status, 200);
            assert_eq!(got, body);
        }
        other => panic!("{other:?}"),
    }
    http_reset(&mut m.stack);
    assert!(matches!(http_state(&m.stack), HttpState::Idle));
}

#[test]
fn a_long_request_is_sent_piece_by_piece() {
    let mut m = Machine::up();
    let server = m.serve();
    let path = format!("/{}", "p".repeat(10000));
    assert_eq!(http_get(&mut m.stack, "h", HERE, 8080, &path), Ok(()));
    let (asked, states) = m.fetch(server, b"HTTP/1.0 414 Too Long\r\n\r\nno");
    let expected = format!(
        "GET {path} HTTP/1.0\r\nHost: h\r\nUser-Agent: ConsoleOS/0.1\r\nAccept: */*\r\nConnection: close\r\n\r\n"
    );
    assert_eq!(String::from_utf8(asked).unwrap(), expected);
    assert_eq!(states.last(), Some(&"done"));
    assert!(matches!(http_state(&m.stack), HttpState::Done { status: 414, body } if body == b"no"));
}

#[test]
fn nobody_answers_at_a_port() {
    let mut m = Machine::up();
    assert_eq!(http_get(&mut m.stack, "10.0.2.15", HERE, 81, "/"), Ok(()));
    for _ in 0..200 {
        m.turn();
    }
    assert!(matches!(http_state(&m.stack), HttpState::Error(e) if e == "connection refused"));
}

#[test]
fn a_client_at_rest_stays_as_it_is() {
    let mut m = Machine::up();
    let server = m.serve();
    let turns = |m: &mut Machine| (0..20).for_each(|_| m.turn());
    turns(&mut m);
    assert!(matches!(http_state(&m.stack), HttpState::Idle));
    assert_eq!(http_get(&mut m.stack, "h", HERE, 8080, "/"), Ok(()));
    m.fetch(server, b"HTTP/1.0 200 OK\r\n\r\nyes");
    turns(&mut m);
    assert!(matches!(http_state(&m.stack), HttpState::Done { status: 200, body } if body == b"yes"));
    assert_eq!(http_get(&mut m.stack, "h", HERE, 0, "/"), Ok(()));
    turns(&mut m);
    let failed = "connect error: Unaddressable";
    assert!(matches!(http_state(&m.stack), HttpState::Error(e) if e == failed));
}

#[test]
fn an_address_that_cannot_be_connected_to() {
    let mut m = Machine::up();
    assert_eq!(http_get(&mut m.stack, "h", HERE, 0, "/"), Ok(()));
    m.turn();
    match http_state(&m.stack) {
        HttpState::Error(e) => assert_eq!(e, "connect error: Unaddressable"),
        other => panic!("{other:?}"),
    }
    assert_eq!(http_get(&mut m.stack, "h", HERE, 80, "/"), Ok(()));
}

#[test]
fn a_request_that_waits_outlives_a_reset() {
    let mut m = Machine::up();
    let server = m.serve();
    assert_eq!(http_get(&mut m.stack, "h", HERE, 8080, "/kept"), Ok(()));
    http_reset(&mut m.stack);
    assert!(matches!(http_state(&m.stack), HttpState::Idle));
    let (asked, states) = m.fetch(server, b"HTTP/1.0 200 OK\r\n\r\n");
    assert!(asked.starts_with(b"GET /kept HTTP/1.0\r\n"));
    assert_eq!(states.last(), Some(&"done"));
}

#[test]
fn a_request_is_taken_back() {
    let mut m = Machine::up();
    let server = m.serve();
    assert_eq!(http_get(&mut m.stack, "h", HERE, 8080, "/a"), Ok(()));
    for _ in 0..3 {
        m.turn();
    }
    http_reset(&mut m.stack);
    assert!(matches!(http_state(&m.stack), HttpState::Idle));
    m.server(server).abort();
    for _ in 0..50 {
        m.turn();
    }
    m.server(server).listen(8080).unwrap();
    assert_eq!(http_get(&mut m.stack, "h", HERE, 8080, "/b"), Ok(()));
    let (asked, states) = m.fetch(server, b"HTTP/1.0 204 Gone\n\n");
    assert!(asked.starts_with(b"GET /b HTTP/1.0\r\n"));
    assert_eq!(states.last(), Some(&"done"));
    assert!(matches!(http_state(&m.stack), HttpState::Done { status: 204, body } if body.is_empty()));
}

// ---------- The browser ----------

fn writer() -> Writer {
    let buffer: Box<Buffer> =
        Box::new(std::array::from_fn(|_| std::array::from_fn(|_| Volatile::new(0x0720u16))));
    Writer::new(buffer)
}

fn text(w: &Writer, r: usize, from: usize, to: usize) -> String {
    (from..to).map(|c| w.read_cell(r, c).0 as char).collect()
}

fn outside(w: &Writer) -> Vec<(u8, ColorCode)> {
    (0..25)
        .flat_map(|r| (0..80).map(move |c| (r, c)))
        .filter(|&(r, c)| !(4..=21).contains(&r) || c == 0 || c == 79)
        .map(|(r, c)| w.read_cell(r, c))
        .collect()
}

fn url(host: &str, port: u16, path: &str) -> Option<(String, u16, String)> {
    Some((host.to_string(), port, path.to_string()))
}

#[test]
fn urls() {
    assert_eq!(parse_url("http://10.0.2.2:8080/hello.txt"), url("10.0.2.2", 8080, "/hello.txt"));
    assert_eq!(parse_url("  example.org "), url("example.org", 80, "/"));
    assert_eq!(parse_url("http://a/b:c/d"), url("a", 80, "/b:c/d"));
    assert_eq!(parse_url("https://a/"), None);
    assert_eq!(parse_url("http://:80/"), None);
    assert_eq!(parse_url("http://a:/"), None);
    assert_eq!(parse_url("http://a:70000/"), None);
    assert_eq!(parse_url("http:///x"), None);
    assert_eq!(parse_url(""), None);
}

#[test]
fn lines_for_the_link() {
    assert_eq!(
        link_status_line(&LinkState::NoNic),
        "no nic detected \u{2014} network unavailable"
    );
    assert_eq!(link_status_line(&LinkState::Dhcp), "acquiring DHCP lease...");
    let up = LinkState::Up { ip: HERE, gateway: Some(ROUTER) };
    assert_eq!(link_status_line(&up), "link up: ip 10.0.2.15 gw 10.0.2.2");
    let alone = LinkState::Up { ip: HERE, gateway: None };
    assert_eq!(link_status_line(&alone), "link up: ip 10.0.2.15 (no gateway)");
}

#[test]
fn lines_for_the_request() {
    let line = |http: HttpState| build_status_line(&http, &LinkState::Dhcp);
    assert_eq!(line(HttpState::Idle), "acquiring DHCP lease...");
    assert_eq!(line(HttpState::Connecting { host: "h".to_string() }), "connecting to h...");
    assert_eq!(line(HttpState::Sending), "sending request...");
    assert_eq!(line(HttpState::Receiving { bytes: 12 }), "receiving... 12 bytes");
    assert_eq!(
        line(HttpState::Done { status: 404, body: vec![1, 2] }),
        "done. HTTP 404 - 2 bytes received"
    );
    assert_eq!(line(HttpState::Error("oops".to_string())), "error: oops");
}

#[test]
fn bodies_are_wrapped() {
    let long: String = (0..170u32).map(|i| (b'0' + (i % 10) as u8) as char).collect();
    let rows = wrap_body(&format!("one\n\n{long}\r\nt\tz\u{e9}"));
    assert_eq!(rows.len(), 6);
    assert_eq!((rows[0].as_str(), rows[1].as_str()), ("one", ""));
    assert_eq!(rows[2].len(), 78);
    assert_eq!(rows[2..5].concat(), long);
    assert_eq!(rows[5], "t.z.");
    assert_eq!(wrap_body(&"x".repeat(156)).len(), 2);
}

#[test]
fn only_a_page_that_is_there_has_rows() {
    let done = |body: &[u8]| build_body_lines(&HttpState::Done { status: 200, body: body.to_vec() });
    assert_eq!(done(b"a\nb"), vec!["a", "b"]);
    assert_eq!(done(b"x\xff\xc3y\x80"), vec!["x..y."]);
    assert_eq!(build_body_lines(&HttpState::Receiving { bytes: 3 }), Vec::<String>::new());
    assert_eq!(build_body_lines(&HttpState::Idle), Vec::<String>::new());
}

#[test]
fn the_browser_opens_and_closes() {
    let mut w = writer();
    let before = outside(&w);
    let mut b = Browser::new();
    let mut none: Option<Stack> = None;
    assert!(!browser::is_open(&b));
    assert!(!browser::handle_char(&mut b, &mut none, &mut w, 'x'));
    browser::open(&mut b, &none, &mut w);
    assert!(browser::is_open(&b));
    assert_eq!(text(&w, 4, 1, 37), " URL http://10.0.2.2:8080/hello.txt_");
    assert_eq!(text(&w, 5, 1, 79), "-".repeat(78));
    assert_eq!(text(&w, 7, 3, 18), "(no page loaded");
    assert_eq!(text(&w, 21, 1, 28), "[browser] no nic detected \u{e2}");
    assert_eq!(w.read_cell(4, 1).1, ColorCode::new(Color::Black, Color::Cyan));
    assert_eq!(w.read_cell(21, 11).1, ColorCode::new(Color::LightCyan, Color::DarkGray));
    assert_eq!(outside(&w), before);
    assert!(browser::handle_char(&mut b, &mut none, &mut w, '\x1b'));
    assert!(!browser::is_open(&b));
    browser::close(&mut b);
    assert!(!browser::is_open(&b));
}

#[test]
fn the_address_is_edited() {
    let mut w = writer();
    let mut b = Browser::new();
    let mut none: Option<Stack> = None;
    browser::open(&mut b, &none, &mut w);
    for _ in 0..9 {
        assert!(browser::handle_char(&mut b, &mut none, &mut w, '\x08'));
    }
    assert!(browser::handle_char(&mut b, &mut none, &mut w, '!'));
    assert!(browser::handle_char(&mut b, &mut none, &mut w, '\u{e9}'));
    assert_eq!(text(&w, 4, 6, 30), "http://10.0.2.2:8080/!_ ");
    for _ in 0..100 {
        browser::handle_char(&mut b, &mut none, &mut w, 'z');
    }
    assert_eq!(text(&w, 4, 76, 80), "zz_ ");
}

#[test]
fn requests_that_cannot_be_made() {
    let mut w = writer();
    let mut b = Browser::new();
    let mut none: Option<Stack> = None;
    browser::open(&mut b, &none, &mut w);
    browser::handle_char(&mut b, &mut none, &mut w, '\n');
    assert_eq!(text(&w, 21, 11, 31), "net not initialised ");
    for _ in 0..80 {
        browser::handle_char(&mut b, &mut none, &mut w, '\x08');
    }
    browser::handle_char(&mut b, &mut none, &mut w, '\n');
    assert_eq!(text(&w, 21, 11, 18), "bad URL");
    for c in "http://example.org/".chars() {
        browser::handle_char(&mut b, &mut none, &mut w, c);
    }
    browser::handle_char(&mut b, &mut none, &mut w, '\n');
    assert_eq!(text(&w, 21, 11, 29), "hostname needs DNS");
}

#[test]
fn a_page_is_shown() {
    let mut m = Machine::up();
    let server = m.serve();
    let mut w = writer();
    let before = outside(&w);
    let mut b = Browser::new();
    browser::open(&mut b, &m.stack, &mut w);
    assert_eq!(text(&w, 21, 11, 44), "link up: ip 10.0.2.15 gw 10.0.2.2");
    for _ in 0..30 {
        browser::handle_char(&mut b, &mut m.stack, &mut w, '\x08');
    }
    for c in "10.0.2.15:8080/page".chars() {
        browser::handle_char(&mut b, &mut m.stack, &mut w, c);
    }
    assert!(browser::handle_char(&mut b, &mut m.stack, &mut w, '\n'));
    assert_eq!(text(&w, 21, 11, 25), "connecting... ");
    assert!(browser::tick(&mut b, &m.stack, &mut w));
    assert_eq!(text(&w, 21, 11, 37), "connecting to 10.0.2.15...");
    assert!(!browser::tick(&mut b, &m.stack, &mut w));
    let (asked, _) = m.fetch(server, b"HTTP/1.0 200 OK\r\n\r\nHello\nworld");
    assert!(asked.starts_with(b"GET /page HTTP/1.0\r\nHost: 10.0.2.15\r\n"));
    assert!(browser::tick(&mut b, &m.stack, &mut w));
    assert_eq!(text(&w, 6, 1, 8), "Hello  ");
    assert_eq!(text(&w, 7, 1, 8), "world  ");
    assert_eq!(text(&w, 21, 11, 45), "done. HTTP 200 - 11 bytes received");
    assert!(!browser::tick(&mut b, &m.stack, &mut w));
    assert_eq!(outside(&w), before);
    browser::close(&mut b);
    assert!(!browser::tick(&mut b, &m.stack, &mut w));
}
