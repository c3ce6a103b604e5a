//! The network stack's own logic: the lease of the link, and an HTTP/1.0 client
//! that runs one request at a time over one TCP socket.
//!
//! Whoever runs the stack polls the interface for packets and then calls
//! [`poll`], which looks at the sockets and takes the next step.
use vstd::prelude::*;
use vstd::slice::slice_subrange;
use vstd::utf8::{decode_utf8, encode_utf8, valid_utf8};

use smoltcp::iface::{Interface, SocketHandle, SocketSet};

use crate::sockets::{
    add_default_route, add_dhcp_socket, add_tcp_socket, clear_addresses, count_without_first,
    default_gateways, dhcp_poll, dhcp_sockets, ip_addresses, is_unicast, new_socket_set,
    remove_default_route, route_count, set_address, tcp_abort, tcp_can_recv, tcp_can_send,
    tcp_close, tcp_connect, tcp_is_open, tcp_may_send, tcp_recv, tcp_recv_queue, tcp_send,
    tcp_sockets, tcp_state, without_first, ConnectError, DhcpEvent, Endpoints, Ipv4Address,
    TcpSocket, TcpState,
};
use crate::text::{
    copy_range, decimal, is_space, joined, law_decimal_digits, law_decimal_value,
    law_joined_split, law_lines, law_one_word, law_parse_number, law_split_joined, law_words_apart,
    lemma_canonical, lemma_decimal_ascii, lemma_decimal_canonical, lemma_decimal_len,
    lemma_no_line_feed, parse_u16, parsed_u16, push_decimal, split, split_on, split_whitespace,
    text_lines, views, words,
};

verus! {

// ---------- The clock ----------

/// Advances the stack's clock, which counts milliseconds and wraps around.
pub fn tick_ms(now: &mut u64, delta: u64)
    ensures
        *final(now) == (*old(now) + delta) % 0x1_0000_0000_0000_0000,
{
    *now = now.wrapping_add(delta);
}

// ---------- Addresses ----------

/// The text of an address: four numbers with dots between them.
pub open spec fn ipv4_text(ip: Ipv4Address) -> Seq<char> {
    joined(
        seq![
            decimal(ip.a as nat),
            decimal(ip.b as nat),
            decimal(ip.c as nat),
            decimal(ip.d as nat),
        ],
        seq!['.'],
    )
}

/// Appends the text of an address.
pub fn push_ipv4(out: &mut String, ip: Ipv4Address)
    ensures
        final(out)@ == old(out)@ + ipv4_text(ip),
{
    push_decimal(out, ip.a as u64);
    out.push('.');
    push_decimal(out, ip.b as u64);
    out.push('.');
    push_decimal(out, ip.c as u64);
    out.push('.');
    push_decimal(out, ip.d as u64);
    proof {
        let parts = seq![
            decimal(ip.a as nat),
            decimal(ip.b as nat),
            decimal(ip.c as nat),
            decimal(ip.d as nat),
        ];
        reveal_with_fuel(joined, 4);
        assert(parts.drop_last() =~= seq![parts[0], parts[1], parts[2]]);
        assert(parts.drop_last().drop_last() =~= seq![parts[0], parts[1]]);
        assert(parts.drop_last().drop_last().drop_last() =~= seq![parts[0]]);
        assert(out@ =~= old(out)@ + ipv4_text(ip));
    }
}

/// Reads one number of an address: up to three digits without a needless zero
/// in front, at most 255.
fn parse_octet(s: &String) -> (r: Option<u8>)
    ensures
        match r {
            Some(v) => s@ == decimal(v as nat),
            None => forall|v: u8| s@ != #[trigger] decimal(v as nat),
        },
{
    let chars = crate::text::chars_of(s.as_str());
    proof {
        assert forall|v: u8| s@ == #[trigger] decimal(v as nat) implies 1 <= s@.len() <= 3 && (
        s@.len() == 1 || s@[0] != '0') && parsed_u16(s@) == Some(v as u16) by {
            reveal_with_fuel(crate::text::pow10, 4);
            lemma_decimal_len(v as nat, 3);
            lemma_decimal_canonical(v as nat);
            law_decimal_value(v as nat);
            assert('0' <= decimal(v as nat)[0] <= '9');
        }
    }
    if chars.len() == 0 || chars.len() > 3 || (chars.len() > 1 && chars[0] == '0') || chars[0]
        == '+' {
        proof {
            assert forall|v: u8| s@ != #[trigger] decimal(v as nat) by {
                if s@ == decimal(v as nat) {
                    lemma_decimal_ascii(v as nat);
                    assert('0' <= decimal(v as nat)[0] <= '9');
                }
            }
        }
        return None;
    }
    match parse_u16(s.as_str()) {
        Some(v) if v <= 255 => {
            proof {
                lemma_canonical(s@);
            }
            Some(v as u8)
        },
        _ => None,
    }
}

/// Reads an address. Only the text that writing it gives is accepted.
pub fn parse_ipv4(s: &str) -> (r: Option<Ipv4Address>)
    ensures
        match r {
            Some(ip) => s@ == ipv4_text(ip),
            None => forall|ip: Ipv4Address| s@ != #[trigger] ipv4_text(ip),
        },
{
    let parts = split(s, '.');
    let ghost ps = views(parts@);
    proof {
        law_joined_split(s@, '.');
        assert forall|ip: Ipv4Address| s@ == #[trigger] ipv4_text(ip) implies ps == seq![
            decimal(ip.a as nat),
            decimal(ip.b as nat),
            decimal(ip.c as nat),
            decimal(ip.d as nat),
        ] by {
            lemma_ipv4_split(ip);
        }
    }
    if parts.len() != 4 {
        return None;
    }
    proof {
        assert(ps[0] == parts@[0]@ && ps[1] == parts@[1]@ && ps[2] == parts@[2]@ && ps[3]
            == parts@[3]@);
    }
    match (
        parse_octet(&parts[0]),
        parse_octet(&parts[1]),
        parse_octet(&parts[2]),
        parse_octet(&parts[3]),
    ) {
        (Some(a), Some(b), Some(c), Some(d)) => {
            let ip = Ipv4Address { a, b, c, d };
            proof {
                assert(ps =~= seq![
                    decimal(a as nat),
                    decimal(b as nat),
                    decimal(c as nat),
                    decimal(d as nat),
                ]);
            }
            Some(ip)
        },
        _ => {
            proof {
                assert forall|ip: Ipv4Address| s@ != #[trigger] ipv4_text(ip) by {
                    if s@ == ipv4_text(ip) {
                        assert(ps[0] == decimal(ip.a as nat));
                        assert(ps[1] == decimal(ip.b as nat));
                        assert(ps[2] == decimal(ip.c as nat));
                        assert(ps[3] == decimal(ip.d as nat));
                    }
                }
            }
            None
        },
    }
}

proof fn lemma_ipv4_split(ip: Ipv4Address)
    ensures
        split_on(ipv4_text(ip), '.') == seq![
            decimal(ip.a as nat),
            decimal(ip.b as nat),
            decimal(ip.c as nat),
            decimal(ip.d as nat),
        ],
{
    let parts = seq![
        decimal(ip.a as nat),
        decimal(ip.b as nat),
        decimal(ip.c as nat),
        decimal(ip.d as nat),
    ];
    lemma_decimal_ascii(ip.a as nat);
    lemma_decimal_ascii(ip.b as nat);
    lemma_decimal_ascii(ip.c as nat);
    lemma_decimal_ascii(ip.d as nat);
    assert forall|i: int| 0 <= i < parts.len() implies !(#[trigger] parts[i]).contains('.') by {
        assert(i == 0 || i == 1 || i == 2 || i == 3);
    }
    law_split_joined(parts, '.');
}

/// The text of an address is its four numbers from the first to the last, with a
/// dot after each but the last, and nothing else.
pub proof fn law_ipv4_text(ip: Ipv4Address)
    ensures
        ({
            let t = ipv4_text(ip);
            let (a, b, c, d) = (
                decimal(ip.a as nat),
                decimal(ip.b as nat),
                decimal(ip.c as nat),
                decimal(ip.d as nat),
            );
            &&& t == a + seq!['.'] + b + seq!['.'] + c + seq!['.'] + d
            &&& t.len() >= 7
            &&& forall|i: int| 0 <= i < t.len() ==> '0' <= #[trigger] t[i] <= '9' || t[i] == '.'
            &&& !t.contains('/')
            &&& !t.contains(':')
            &&& !is_space(t[0])
            &&& !is_space(t.last())
        }),
{
    let parts = seq![
        decimal(ip.a as nat),
        decimal(ip.b as nat),
        decimal(ip.c as nat),
        decimal(ip.d as nat),
    ];
    let t = ipv4_text(ip);
    reveal_with_fuel(joined, 5);
    assert(parts.drop_last() =~= seq![parts[0], parts[1], parts[2]]);
    assert(parts.drop_last().drop_last() =~= seq![parts[0], parts[1]]);
    assert(parts.drop_last().drop_last().drop_last() =~= seq![parts[0]]);
    assert(t =~= parts[0] + seq!['.'] + parts[1] + seq!['.'] + parts[2] + seq!['.'] + parts[3]);
    lemma_decimal_ascii(ip.a as nat);
    lemma_decimal_ascii(ip.b as nat);
    lemma_decimal_ascii(ip.c as nat);
    lemma_decimal_ascii(ip.d as nat);
    law_decimal_digits(ip.a as nat);
    law_decimal_digits(ip.b as nat);
    law_decimal_digits(ip.c as nat);
    law_decimal_digits(ip.d as nat);
    assert forall|i: int| 0 <= i < t.len() implies '0' <= #[trigger] t[i] <= '9' || t[i] == '.' by {
        let x = parts[0].len() as int;
        let y = x + 1 + parts[1].len();
        let z = y + 1 + parts[2].len();
        if i < x {
            assert(t[i] == parts[0][i]);
        } else if x < i < y {
            assert(t[i] == parts[1][i - x - 1]);
        } else if y < i < z {
            assert(t[i] == parts[2][i - y - 1]);
        } else if z < i {
            assert(t[i] == parts[3][i - z - 1]);
        }
    }
    assert(t[0] == parts[0][0]);
    assert(t.last() == parts[3].last());
}

/// Two addresses with the same text are the same address.
pub proof fn law_ipv4_text_unique(x: Ipv4Address, y: Ipv4Address)
    requires
        ipv4_text(x) == ipv4_text(y),
    ensures
        x == y,
{
    lemma_ipv4_split(x);
    lemma_ipv4_split(y);
    let p = split_on(ipv4_text(x), '.');
    law_decimal_value(x.a as nat);
    law_decimal_value(x.b as nat);
    law_decimal_value(x.c as nat);
    law_decimal_value(x.d as nat);
    law_decimal_value(y.a as nat);
    law_decimal_value(y.b as nat);
    law_decimal_value(y.c as nat);
    law_decimal_value(y.d as nat);
    assert(p[0] == decimal(x.a as nat) && p[0] == decimal(y.a as nat));
    assert(p[1] == decimal(x.b as nat) && p[1] == decimal(y.b as nat));
    assert(p[2] == decimal(x.c as nat) && p[2] == decimal(y.c as nat));
    assert(p[3] == decimal(x.d as nat) && p[3] == decimal(y.d as nat));
}

// ---------- Responses ----------

/// `pat` stands in `buf` at `k`.
pub open spec fn stands_at(buf: Seq<u8>, pat: Seq<u8>, k: int) -> bool {
    0 <= k && k + pat.len() <= buf.len() && buf.subrange(k, k + pat.len()) == pat
}

/// `pat` stands in `buf` somewhere.
pub open spec fn occurs(buf: Seq<u8>, pat: Seq<u8>) -> bool {
    exists|k: int| stands_at(buf, pat, k)
}

/// The first place where `pat` stands in `buf`.
pub open spec fn first_place(buf: Seq<u8>, pat: Seq<u8>) -> int {
    choose|k: int|
        stands_at(buf, pat, k) && forall|j: int| 0 <= j < k ==> !#[trigger] stands_at(buf, pat, j)
}

/// The first place where `pat` stands in `buf`, if it does.
fn find_bytes(buf: &Vec<u8>, pat: &Vec<u8>) -> (r: Option<usize>)
    requires
        pat@.len() > 0,
    ensures
        match r {
            Some(k) => stands_at(buf@, pat@, k as int) && (forall|j: int|
                0 <= j < k ==> !#[trigger] stands_at(buf@, pat@, j)) && occurs(buf@, pat@) && k
                == first_place(buf@, pat@),
            None => !occurs(buf@, pat@),
        },
{
    let mut k: usize = 0;
    let n: usize = buf.len();
    while k < n && pat.len() <= n - k
        invariant
            k <= n,
            n == buf@.len(),
            pat@.len() > 0,
            forall|j: int| 0 <= j < k ==> !#[trigger] stands_at(buf@, pat@, j),
        decreases n - k,
    {
        let mut i: usize = 0;
        while i < pat.len() && buf[k + i] == pat[i]
            invariant
                i <= pat@.len(),
                k + pat@.len() <= n,
                n == buf@.len(),
                forall|j: int| 0 <= j < i ==> buf@[k + j] == #[trigger] pat@[j],
            decreases pat.len() - i,
        {
            i += 1;
        }
        if i == pat.len() {
            proof {
                assert(buf@.subrange(k as int, k + pat@.len()) =~= pat@);
                assert(stands_at(buf@, pat@, k as int));
                let f = first_place(buf@, pat@);
                assert(stands_at(buf@, pat@, f));
                if f < k {
                    assert(!stands_at(buf@, pat@, f));
                } else if k < f {
                    assert(!stands_at(buf@, pat@, k as int));
                }
            }
            return Some(k);
        }
        proof {
            assert(buf@.subrange(k as int, k + pat@.len())[i as int] == buf@[k + i]);
        }
        k += 1;
    }
    proof {
        assert forall|j: int| !stands_at(buf@, pat@, j) by {
            if stands_at(buf@, pat@, j) {
                assert(j + pat@.len() <= n);
            }
        }
    }
    None
}

/// The bytes of an empty line between the headers and the body.
pub open spec fn blank_line() -> Seq<u8> {
    seq![0x0du8, 0x0au8, 0x0du8, 0x0au8]
}

/// The bytes of an empty line where lines end without a carriage return.
pub open spec fn bare_blank_line() -> Seq<u8> {
    seq![0x0au8, 0x0au8]
}

/// The status code in the first line of a response: the second word of the line.
pub open spec fn status_code(buf: Seq<u8>) -> Option<u16> {
    if !occurs(buf, seq![0x0au8]) {
        None
    } else {
        let line = buf.take(first_place(buf, seq![0x0au8]));
        if !valid_utf8(line) || words(decode_utf8(line)).len() < 2 {
            None
        } else {
            parsed_u16(words(decode_utf8(line))[1])
        }
    }
}

/// The status code in the first line of a response.
pub fn parse_status_line(buf: &Vec<u8>) -> (r: Option<u16>)
    ensures
        r == status_code(buf@),
{
    let eol = vec![0x0au8];
    assert(eol@ =~= seq![0x0au8]);
    match find_bytes(buf, &eol) {
        None => None,
        Some(k) => {
            let line = copy_range(buf.as_slice(), 0, k);
            assert(line@ =~= buf@.take(k as int));
            match crate::text::utf8_text(line.as_slice()) {
                None => None,
                Some(text) => {
                    let parts = split_whitespace(text.as_str());
                    assert(views(parts@) == words(decode_utf8(line@)));
                    if parts.len() < 2 {
                        None
                    } else {
                        assert(views(parts@)[1] == parts@[1]@);
                        parse_u16(parts[1].as_str())
                    }
                },
            }
        },
    }
}

/// What follows the headers of a response: all of it where there are none.
pub open spec fn body_of(buf: Seq<u8>) -> Seq<u8> {
    if occurs(buf, blank_line()) {
        buf.skip(first_place(buf, blank_line()) + 4)
    } else if occurs(buf, bare_blank_line()) {
        buf.skip(first_place(buf, bare_blank_line()) + 2)
    } else {
        buf
    }
}

/// What follows the headers of a response.
pub fn strip_headers(buf: &Vec<u8>) -> (r: Vec<u8>)
    ensures
        r@ == body_of(buf@),
{
    let blank = vec![0x0du8, 0x0au8, 0x0du8, 0x0au8];
    let bare = vec![0x0au8, 0x0au8];
    assert(blank@ =~= blank_line());
    assert(bare@ =~= bare_blank_line());
    let n: usize = buf.len();
    match find_bytes(buf, &blank) {
        Some(k) => {
            let r = copy_range(buf.as_slice(), k + 4, n);
            assert(r@ =~= buf@.skip(k + 4));
            r
        },
        None => match find_bytes(buf, &bare) {
            Some(k) => {
                let r = copy_range(buf.as_slice(), k + 2, n);
                assert(r@ =~= buf@.skip(k + 2));
                r
            },
            None => {
                let r = copy_range(buf.as_slice(), 0, n);
                assert(r@ =~= buf@);
                r
            },
        },
    }
}

/// A response made of headers without an empty line in them, an empty line, and
/// a body gives that body back.
pub proof fn law_body_after_headers(headers: Seq<u8>, body: Seq<u8>)
    requires
        forall|k: int|
            0 <= k < headers.len() ==> !#[trigger] stands_at(
                headers + blank_line() + body,
                blank_line(),
                k,
            ),
    ensures
        body_of(headers + blank_line() + body) == body,
{
    let buf = headers + blank_line() + body;
    let k = headers.len() as int;
    assert(buf.subrange(k, k + 4) =~= blank_line());
    assert(stands_at(buf, blank_line(), k));
    let f = first_place(buf, blank_line());
    assert(stands_at(buf, blank_line(), f));
    if f < k {
        assert(!stands_at(buf, blank_line(), f));
    } else if k < f {
        assert(!stands_at(buf, blank_line(), k));
    }
    assert(buf.skip(k + 4) =~= body);
}

/// A response that begins with a line without line feeds is read by that line.
proof fn lemma_first_line(line: Seq<char>, rest: Seq<u8>)
    requires
        forall|i: int| 0 <= i < line.len() ==> #[trigger] line[i] != '\n',
    ensures
        status_code(encode_utf8(line) + seq![0x0au8] + rest) == if words(line).len() < 2 {
            None
        } else {
            parsed_u16(words(line)[1])
        },
{
    let head = encode_utf8(line);
    let eol = seq![0x0au8];
    let buf = head + eol + rest;
    let k = head.len() as int;
    lemma_no_line_feed(line);
    assert(buf.subrange(k, k + 1) =~= eol);
    assert(stands_at(buf, eol, k));
    let f = first_place(buf, eol);
    assert(forall|j: int| 0 <= j < k ==> !#[trigger] stands_at(buf, eol, j)) by {
        assert forall|j: int| 0 <= j < k implies !#[trigger] stands_at(buf, eol, j) by {
            assert(buf.subrange(j, j + 1)[0] == head[j]);
            assert(eol[0] == 0x0a);
        }
    }
    assert(stands_at(buf, eol, f));
    if f < k {
        assert(!stands_at(buf, eol, f));
    } else if k < f {
        assert(!stands_at(buf, eol, k));
    }
    assert(buf.take(k) =~= head);
    vstd::utf8::encode_utf8_valid_utf8(line);
    vstd::utf8::encode_utf8_decode_utf8(line);
}

/// The status code is the second word of the first line, whatever the version in
/// front of it is, however wide the gap between them, and whatever follows the code
/// on the line and behind it.
pub proof fn law_status_second_word(
    version: Seq<char>,
    gap: Seq<char>,
    code: Seq<char>,
    tail: Seq<char>,
    rest: Seq<u8>,
)
    requires
        version.len() > 0,
        gap.len() > 0,
        code.len() > 0,
        forall|i: int| 0 <= i < version.len() ==> !is_space(#[trigger] version[i]),
        forall|i: int| 0 <= i < gap.len() ==> is_space(#[trigger] gap[i]) && gap[i] != '\n',
        forall|i: int| 0 <= i < code.len() ==> !is_space(#[trigger] code[i]),
        tail.len() > 0 ==> is_space(tail[0]),
        forall|i: int| 0 <= i < tail.len() ==> #[trigger] tail[i] != '\n',
    ensures
        status_code(encode_utf8(version + gap + code + tail) + seq![0x0au8] + rest) == parsed_u16(
            code,
        ),
{
    let line = version + gap + code + tail;
    assert forall|i: int| 0 <= i < line.len() implies #[trigger] line[i] != '\n' by {
        let a = version.len() as int;
        let b = a + gap.len();
        let c = b + code.len();
        if i < a {
            assert(line[i] == version[i]);
        } else if i < b {
            assert(line[i] == gap[i - a]);
        } else if i < c {
            assert(line[i] == code[i - b]);
        } else {
            assert(line[i] == tail[i - c]);
        }
    }
    lemma_first_line(line, rest);
    assert(is_space(gap[0]));
    assert(is_space(gap[gap.len() - 1]));
    law_words_apart(version, gap);
    assert((version + gap).last() == gap.last());
    law_words_apart(version + gap, code);
    law_words_apart(version + gap + code, tail);
    law_one_word(version);
    law_one_word(gap);
    law_one_word(code);
    assert(words(line)[0] == version);
    assert(words(line)[1] == code);
}

/// The code in the first line of a response is its status code, whatever the
/// reason phrase behind it says and however many words that has.
pub proof fn law_status_any_reason(version: Seq<char>, n: nat, reason: Seq<char>, rest: Seq<u8>)
    requires
        version.len() > 0,
        forall|i: int| 0 <= i < version.len() ==> !is_space(#[trigger] version[i]),
        forall|i: int| 0 <= i < reason.len() ==> #[trigger] reason[i] != '\n',
        n < 65536,
    ensures
        status_code(
            encode_utf8(version + seq![' '] + decimal(n) + (seq![' '] + reason)) + seq![0x0au8]
                + rest,
        ) == Some(n as u16),
        status_code(
            encode_utf8(version + seq![' '] + decimal(n) + seq!['\r']) + seq![0x0au8] + rest,
        ) == Some(n as u16),
{
    let gap = seq![' '];
    let code = decimal(n);
    law_decimal_digits(n);
    lemma_decimal_ascii(n);
    law_parse_number(n, code, 0);
    assert(seq!['\r'][0] == '\r');
    law_status_second_word(version, gap, code, gap + reason, rest);
    law_status_second_word(version, gap, code, seq!['\r'], rest);
}

/// A first line with fewer than two words has no status code, nor has one whose
/// second word is not a number, nor a response without a whole line.
pub proof fn law_status_missing(line: Seq<char>, rest: Seq<u8>)
    requires
        forall|i: int| 0 <= i < line.len() ==> #[trigger] line[i] != '\n',
    ensures
        words(line).len() < 2 ==> status_code(encode_utf8(line) + seq![0x0au8] + rest) is None,
        words(line).len() >= 2 && (exists|i: int|
            0 <= i < words(line)[1].len() && !('0' <= #[trigger] words(line)[1][i] <= '9' || (i
                == 0 && words(line)[1][i] == '+'))) ==> status_code(
            encode_utf8(line) + seq![0x0au8] + rest,
        ) is None,
        status_code(encode_utf8(line)) is None,
{
    lemma_first_line(line, rest);
    lemma_no_line_feed(line);
    let buf = encode_utf8(line);
    if occurs(buf, seq![0x0au8]) {
        let k = choose|k: int| stands_at(buf, seq![0x0au8], k);
        assert(buf.subrange(k, k + 1)[0] == buf[k]);
        assert(seq![0x0au8][0] == 0x0a);
    }
    if words(line).len() >= 2 {
        let w = words(line)[1];
        if exists|i: int|
            0 <= i < w.len() && !('0' <= #[trigger] w[i] <= '9' || (i == 0 && w[i] == '+')) {
            let i = choose|i: int|
                0 <= i < w.len() && !('0' <= #[trigger] w[i] <= '9' || (i == 0 && w[i] == '+'));
            law_parse_number(0, w, i);
        }
    }
}

/// A response without the usual empty line, made of headers, an empty line of two
/// line feeds that is the first one, and a body gives that body back; one without
/// an empty line is all body.
pub proof fn law_body_after_bare_headers(headers: Seq<u8>, body: Seq<u8>)
    requires
        forall|k: int|
            0 <= k < headers.len() ==> !#[trigger] stands_at(
                headers + bare_blank_line() + body,
                bare_blank_line(),
                k,
            ),
    ensures
        !occurs(headers + seq![0x0au8, 0x0au8] + body, seq![0x0du8, 0x0au8, 0x0du8, 0x0au8])
            ==> body_of(headers + seq![0x0au8, 0x0au8] + body) == body,
        !occurs(body, seq![0x0du8, 0x0au8, 0x0du8, 0x0au8]) && !occurs(body, seq![0x0au8, 0x0au8])
            ==> body_of(body) == body,
{
    let bare = bare_blank_line();
    let buf = headers + bare + body;
    let k = headers.len() as int;
    assert(buf.subrange(k, k + 2) =~= bare);
    assert(stands_at(buf, bare, k));
    let f = first_place(buf, bare);
    assert(stands_at(buf, bare, f));
    if f < k {
        assert(!stands_at(buf, bare, f));
    } else if k < f {
        assert(!stands_at(buf, bare, k));
    }
    assert(buf.skip(k + 2) =~= body);
}

/// The empty lines that end the headers are those of the protocol.
pub proof fn law_blank_lines()
    ensures
        blank_line() == encode_utf8(seq!['\r', '\n', '\r', '\n']),
        bare_blank_line() == encode_utf8(seq!['\n', '\n']),
{
    let a = seq!['\r', '\n', '\r', '\n'];
    let b = seq!['\n', '\n'];
    vstd::utf8::is_ascii_chars_encode_utf8(a);
    vstd::utf8::is_ascii_chars_encode_utf8(b);
    assert(blank_line() =~= encode_utf8(a));
    assert(bare_blank_line() =~= encode_utf8(b));
}

// ---------- States ----------

/// Where the link stands.
#[derive(Debug, Clone, Copy, PartialEq, Eq, Structural)]
pub enum LinkState {
    /// No network card was found.
    NoNic,
    /// There is a card, and no lease yet.
    Dhcp,
    /// There is a lease.
    Up { ip: Ipv4Address, gateway: Option<Ipv4Address> },
}

/// Where the HTTP client stands.
#[derive(Debug)]
pub enum HttpState {
    Idle,
    Connecting { host: String },
    Sending,
    Receiving { bytes: usize },
    Done { status: u16, body: Vec<u8> },
    Error(String),
}

/// What the state of the HTTP client is.
pub enum HttpModel {
    Idle,
    Connecting(Seq<char>),
    Sending,
    Receiving(nat),
    Done(u16, Seq<u8>),
    Error(Seq<char>),
}

impl View for HttpState {
    type V = HttpModel;

    open spec fn view(&self) -> HttpModel {
        match *self {
            HttpState::Idle => HttpModel::Idle,
            HttpState::Connecting { host } => HttpModel::Connecting(host@),
            HttpState::Sending => HttpModel::Sending,
            HttpState::Receiving { bytes } => HttpModel::Receiving(bytes as nat),
            HttpState::Done { status, body } => HttpModel::Done(status, body@),
            HttpState::Error(e) => HttpModel::Error(e@),
        }
    }
}

impl HttpModel {
    /// No request is being made.
    pub open spec fn is_free(self) -> bool {
        self is Idle || self is Done || self is Error
    }
}

impl Clone for HttpState {
    fn clone(&self) -> (r: HttpState)
        ensures
            r@ == self@,
    {
        match self {
            HttpState::Idle => HttpState::Idle,
            HttpState::Connecting { host } => HttpState::Connecting { host: host.clone() },
            HttpState::Sending => HttpState::Sending,
            HttpState::Receiving { bytes } => HttpState::Receiving { bytes: *bytes },
            HttpState::Done { status, body } => HttpState::Done {
                status: *status,
                body: body.clone(),
            },
            HttpState::Error(e) => HttpState::Error(e.clone()),
        }
    }
}

/// A request that waits for the socket.
#[derive(Debug)]
pub struct Request {
    pub host: String,
    pub ip: Ipv4Address,
    pub port: u16,
    pub path: String,
}

/// What a request is.
pub struct RequestModel {
    pub host: Seq<char>,
    pub ip: Ipv4Address,
    pub port: u16,
    pub path: Seq<char>,
}

impl View for Request {
    type V = RequestModel;

    open spec fn view(&self) -> RequestModel {
        RequestModel { host: self.host@, ip: self.ip, port: self.port, path: self.path@ }
    }
}

/// The stack: the interface and its sockets, the lease, and the request. The
/// interface and the sockets are open to whoever moves the packets: polling the
/// interface changes what the sockets hold and takes none of them out of the set.
pub struct Stack {
    pub iface: Interface,
    pub sockets: SocketSet<'static>,
    pub dhcp: SocketHandle,
    pub tcp: SocketHandle,
    link: LinkState,
    http: HttpState,
    pending_req: Option<Request>,
    req_sent: usize,
    req_bytes: Vec<u8>,
    resp_buf: Vec<u8>,
}

/// What a stack is: the lease, the client's state, the request that waits, the
/// bytes of the request and how many of them were handed over, the bytes of the
/// response, the socket, what DHCP has to report, and the addresses, the default
/// gateways and the number of routes of the interface.
pub struct StackModel {
    pub link: LinkState,
    pub http: HttpModel,
    pub pending: Option<RequestModel>,
    pub req_sent: nat,
    pub req_bytes: Seq<u8>,
    pub resp: Seq<u8>,
    pub tcp: TcpSocket,
    pub news: Option<DhcpEvent>,
    pub addresses: Seq<(Ipv4Address, u8)>,
    pub gateways: Seq<Ipv4Address>,
    pub routes: nat,
}

impl View for Stack {
    type V = StackModel;

    closed spec fn view(&self) -> StackModel {
        StackModel {
            link: self.link,
            http: self.http@,
            pending: match self.pending_req {
                Some(req) => Some(req@),
                None => None,
            },
            req_sent: self.req_sent as nat,
            req_bytes: self.req_bytes@,
            resp: self.resp_buf@,
            tcp: tcp_sockets(self.sockets)[self.tcp],
            news: dhcp_sockets(self.sockets)[self.dhcp],
            addresses: ip_addresses(self.iface),
            gateways: default_gateways(self.iface),
            routes: route_count(self.iface),
        }
    }
}

impl Stack {
    /// The handles name sockets of the set, and no more of the request was handed
    /// over than there is.
    pub closed spec fn wf(&self) -> bool {
        &&& tcp_sockets(self.sockets).contains_key(self.tcp)
        &&& dhcp_sockets(self.sockets).contains_key(self.dhcp)
        &&& self.req_sent <= self.req_bytes@.len()
    }

    /// A stack over an interface, without a lease and without a request.
    pub fn new(iface: Interface) -> (r: Stack)
        ensures
            r.wf(),
            r@ == (StackModel {
                link: LinkState::Dhcp,
                http: HttpModel::Idle,
                pending: None,
                req_sent: 0,
                req_bytes: Seq::empty(),
                resp: Seq::empty(),
                tcp: TcpSocket {
                    state: TcpState::Closed,
                    ends: None,
                    received: Seq::empty(),
                    queued: Seq::empty(),
                    room: 4096,
                },
                news: Some(DhcpEvent::Deconfigured),
                addresses: ip_addresses(iface),
                gateways: default_gateways(iface),
                routes: route_count(iface),
            }),
    {
        let mut sockets = new_socket_set();
        let dhcp = add_dhcp_socket(&mut sockets);
        let tcp = add_tcp_socket(&mut sockets, vec![0u8; 4096], vec![0u8; 4096]);
        Stack {
            iface,
            sockets,
            dhcp,
            tcp,
            link: LinkState::Dhcp,
            http: HttpState::Idle,
            pending_req: None,
            req_sent: 0,
            req_bytes: Vec::new(),
            resp_buf: Vec::new(),
        }
    }
}

// ---------- The lease ----------

/// What DHCP can report: an address that one host can have, with a prefix that it
/// has bits for, or nothing.
pub open spec fn is_lease(event: DhcpEvent) -> bool {
    event matches DhcpEvent::Configured { ip, prefix, router } ==> is_unicast(ip) && prefix <= 32
}

/// The default gateways and the number of routes once the first default route was
/// taken out and one through `gw` was added, if there was room for it. There is
/// where the table was empty or had a default route.
pub open spec fn routed(before: StackModel, gw: Ipv4Address, after: StackModel) -> bool {
    let rest = without_first(before.gateways);
    let left = count_without_first(before.routes, before.gateways);
    ||| after.gateways == rest.push(gw) && after.routes == left + 1
    ||| before.routes > 0 && before.gateways.len() == 0 && after.gateways == rest && after.routes
        == left
}

/// The default gateways and the number of routes once the first default route was
/// taken out.
pub open spec fn unrouted(before: StackModel, after: StackModel) -> bool {
    &&& after.gateways == without_first(before.gateways)
    &&& after.routes == count_without_first(before.routes, before.gateways)
}

/// What DHCP reported was applied: a lease gives the interface its address and its
/// router, and losing it takes both away. Nothing else changes.
pub open spec fn lease_applied(before: StackModel, event: DhcpEvent, after: StackModel) -> bool {
    &&& after == (StackModel {
        link: after.link,
        addresses: after.addresses,
        gateways: after.gateways,
        routes: after.routes,
        ..before
    })
    &&& match event {
        DhcpEvent::Configured { ip, prefix, router } => {
            &&& after.link == (LinkState::Up { ip, gateway: router })
            &&& after.addresses == seq![(ip, prefix)]
            &&& match router {
                Some(gw) => routed(before, gw, after),
                None => unrouted(before, after),
            }
        },
        DhcpEvent::Deconfigured => {
            &&& after.link == LinkState::Dhcp
            &&& after.addresses == Seq::<(Ipv4Address, u8)>::empty()
            &&& unrouted(before, after)
        },
    }
}

/// What asking DHCP comes to: what it has to report is applied and reported no
/// more, and where it has nothing to report, nothing changes.
pub open spec fn lease_driven(before: StackModel, after: StackModel) -> bool {
    match before.news {
        None => after == before,
        Some(event) => is_lease(event) && lease_applied(
            StackModel { news: None, ..before },
            event,
            after,
        ),
    }
}

impl Stack {
    /// Takes what DHCP has to report.
    pub fn apply_lease(&mut self, event: DhcpEvent)
        requires
            old(self).wf(),
            is_lease(event),
        ensures
            final(self).wf(),
            lease_applied(old(self)@, event, final(self)@),
    {
        match event {
            DhcpEvent::Configured { ip, prefix, router } => {
                set_address(&mut self.iface, ip, prefix);
                match router {
                    Some(gw) => {
                        let _added = add_default_route(&mut self.iface, gw);
                    },
                    None => {
                        remove_default_route(&mut self.iface);
                    },
                }
                self.link = LinkState::Up { ip, gateway: router };
            },
            DhcpEvent::Deconfigured => {
                clear_addresses(&mut self.iface);
                remove_default_route(&mut self.iface);
                self.link = LinkState::Dhcp;
            },
        }
    }
}

/// Asks DHCP what has changed and applies it. What DHCP has to report is up to the
/// network, and changes only while the interface is polled.
pub fn drive_dhcp(stack: &mut Stack)
    requires
        old(stack).wf(),
    ensures
        final(stack).wf(),
        lease_driven(old(stack)@, final(stack)@),
{
    match dhcp_poll(&mut stack.sockets, stack.dhcp) {
        None => {},
        Some(event) => stack.apply_lease(event),
    }
}

// ---------- The HTTP client ----------

/// The text of a request.
pub open spec fn request_text(path: Seq<char>, host: Seq<char>) -> Seq<char> {
    "GET "@ + path + " HTTP/1.0\r\nHost: "@ + host
        + "\r\nUser-Agent: ConsoleOS/0.1\r\nAccept: */*\r\nConnection: close\r\n\r\n"@
}

/// The bytes of a request.
fn build_request(path: &str, host: &str) -> (r: Vec<u8>)
    ensures
        r@ == encode_utf8(request_text(path@, host@)),
{
    let mut s = String::new();
    s.append("GET ");
    s.append(path);
    s.append(" HTTP/1.0\r\nHost: ");
    s.append(host);
    s.append("\r\nUser-Agent: ConsoleOS/0.1\r\nAccept: */*\r\nConnection: close\r\n\r\n");
    assert(s@ =~= request_text(path@, host@));
    let bytes = s.as_str().as_bytes();
    let r = copy_range(bytes, 0, bytes.len());
    assert(r@ =~= bytes@);
    r
}

/// The port that a connection goes out from: one of the 8192 that begin at
/// 49152, picked by the clock.
pub open spec fn local_port(now: u64) -> int {
    49152 + now % 8192
}

/// What becomes of an attempt to connect the socket.
pub open spec fn connect_outcome(m: StackModel, req: RequestModel) -> Result<(), ConnectError> {
    if m.tcp.is_open() {
        Err(ConnectError::InvalidState)
    } else if req.port == 0 || req.ip.a == 0 || m.addresses.len() == 0 {
        Err(ConnectError::Unaddressable)
    } else {
        Ok(())
    }
}

/// What the client says of a failed attempt to connect.
pub open spec fn connect_error_text(e: ConnectError) -> Seq<char> {
    match e {
        ConnectError::InvalidState => "connect error: InvalidState"@,
        ConnectError::Unaddressable => "connect error: Unaddressable"@,
    }
}

/// The stack once the waiting request `req` was taken up with a free socket at
/// the time `now`.
pub open spec fn begun(m: StackModel, req: RequestModel, now: u64) -> StackModel {
    let base = StackModel {
        pending: None,
        req_bytes: encode_utf8(request_text(req.path, req.host)),
        req_sent: 0,
        resp: Seq::empty(),
        http: HttpModel::Connecting(req.host),
        ..m
    };
    match connect_outcome(m, req) {
        Err(e) => StackModel { http: HttpModel::Error(connect_error_text(e)), ..base },
        Ok(_) => StackModel {
            tcp: TcpSocket {
                state: TcpState::SynSent,
                ends: Some(
                    Endpoints { ip: req.ip, port: req.port, local_port: local_port(now) as u16 },
                ),
                received: Seq::empty(),
                queued: Seq::empty(),
                room: m.tcp.room,
            },
            ..base
        },
    }
}

/// How many more bytes of the request the socket takes now.
pub open spec fn sendable(m: StackModel) -> nat {
    let rest = m.req_bytes.len() - m.req_sent;
    let room = m.tcp.room - m.tcp.queued.len();
    if !m.tcp.may_send() || room <= 0 {
        0
    } else if rest < room {
        rest as nat
    } else {
        room as nat
    }
}

/// Nothing more will come from the other side.
pub open spec fn is_terminal(state: TcpState) -> bool {
    state is Closed || state is TimeWait || state is CloseWait
}

/// The stack after the client looked at its socket.
pub open spec fn advanced(m: StackModel) -> StackModel {
    match m.http {
        HttpModel::Connecting(_) => if m.tcp.may_send() {
            StackModel { http: HttpModel::Sending, ..m }
        } else if m.tcp.state is Closed {
            StackModel { http: HttpModel::Error("connection refused"@), ..m }
        } else {
            m
        },
        HttpModel::Sending => {
            let sent = m.req_sent + sendable(m);
            let tcp = TcpSocket {
                queued: m.tcp.queued + m.req_bytes.subrange(m.req_sent as int, sent as int),
                ..m.tcp
            };
            if sent == m.req_bytes.len() {
                StackModel {
                    http: HttpModel::Receiving(0),
                    req_sent: sent,
                    tcp: tcp.with_state(tcp.closing()),
                    ..m
                }
            } else {
                StackModel { req_sent: sent, tcp, ..m }
            }
        },
        HttpModel::Receiving(_) => {
            let resp = m.resp + m.tcp.received;
            StackModel {
                resp,
                tcp: TcpSocket { received: Seq::empty(), ..m.tcp },
                http: if is_terminal(m.tcp.state) {
                    HttpModel::Done(
                        match status_code(resp) {
                            Some(code) => code,
                            None => 0,
                        },
                        body_of(resp),
                    )
                } else if m.tcp.received.len() > 0 {
                    HttpModel::Receiving(resp.len())
                } else {
                    m.http
                },
                ..m
            }
        },
        _ => m,
    }
}

/// The stack after one step of the client at the time `now`. A waiting request is
/// taken up once the socket is free; a socket that is not is closed first.
pub open spec fn http_driven(m: StackModel, now: u64) -> StackModel {
    match m.pending {
        None => advanced(m),
        Some(req) => if m.tcp.is_open() {
            StackModel { tcp: m.tcp.with_state(TcpState::Closed), ..m }
        } else {
            let b = begun(m, req, now);
            if b.http is Error {
                b
            } else {
                advanced(b)
            }
        },
    }
}

impl Stack {
    /// Takes all bytes that came from the socket.
    fn drain(&mut self) -> (r: bool)
        requires
            old(self).wf(),
        ensures
            final(self).wf(),
            r == (old(self)@.tcp.received.len() > 0),
            final(self)@ == (StackModel {
                resp: old(self)@.resp + old(self)@.tcp.received,
                tcp: TcpSocket { received: Seq::empty(), ..old(self)@.tcp },
                ..old(self)@
            }),
    {
        let mut any = false;
        let ghost m = self@;
        while tcp_can_recv(&self.sockets, self.tcp)
            invariant
                self.wf(),
                self.tcp == old(self).tcp,
                any == (self@.tcp.received.len() < m.tcp.received.len()),
                self@ == (StackModel { resp: self@.resp, tcp: self@.tcp, ..m }),
                self@.tcp == (TcpSocket { received: self@.tcp.received, ..m.tcp }),
                self@.resp + self@.tcp.received == m.resp + m.tcp.received,
                self@.tcp.received.len() <= m.tcp.received.len(),
            ensures
                self@.tcp.received.len() == 0,
            decreases self@.tcp.received.len(),
        {
            let ghost before = self@;
            let mut tmp = vec![0u8; 1024];
            match tcp_recv(&mut self.sockets, self.tcp, &mut tmp) {
                Some(n) if n > 0 => {
                    tmp.truncate(n);
                    proof {
                        assert(tmp@ =~= before.tcp.received.take(n as int));
                        assert((before.resp + before.tcp.received.take(n as int))
                            + before.tcp.received.skip(n as int) =~= before.resp
                            + before.tcp.received);
                    }
                    self.resp_buf.append(&mut tmp);
                    any = true;
                },
                _ => {
                    break;
                },
            }
        }
        assert(self@.tcp.received =~= Seq::empty());
        assert(self@.resp =~= m.resp + m.tcp.received);
        any
    }
}

/// Takes the next step of the HTTP client, at the given time of the stack's
/// clock.
pub fn drive_http(stack: &mut Stack, now: u64)
    requires
        old(stack).wf(),
    ensures
        final(stack).wf(),
        final(stack)@ == http_driven(old(stack)@, now),
{
    let ghost m = stack@;
    if let Some(req) = stack.pending_req.take() {
        if tcp_is_open(&stack.sockets, stack.tcp) {
            tcp_abort(&mut stack.sockets, stack.tcp);
            stack.pending_req = Some(req);
            return;
        }
        stack.req_bytes = build_request(req.path.as_str(), req.host.as_str());
        stack.req_sent = 0;
        stack.resp_buf.clear();
        let ip = req.ip;
        let port: u16 = req.port;
        stack.http = HttpState::Connecting { host: req.host };
        let low: u16 = now as u16 & 0x1FFF;
        assert(now as u16 & 0x1FFF == now % 8192) by (bit_vector);
        let from: u16 = 49_152 + low;
        assert(from == local_port(now));
        if let Err(e) = tcp_connect(
            &mut stack.iface,
            &mut stack.sockets,
            stack.tcp,
            ip,
            port,
            from,
        ) {
            let text = match e {
                ConnectError::InvalidState => "connect error: InvalidState",
                ConnectError::Unaddressable => "connect error: Unaddressable",
            };
            stack.http = HttpState::Error(text.to_owned());
            return;
        }
        assert(stack@ == begun(m, m.pending->0, now));
    }
    let ghost b = stack@;
    let state = tcp_state(&stack.sockets, stack.tcp);
    match &stack.http {
        HttpState::Connecting { host: _ } => {
            if tcp_may_send(&stack.sockets, stack.tcp) {
                stack.http = HttpState::Sending;
            } else if state == TcpState::Closed {
                stack.http = HttpState::Error("connection refused".to_owned());
            }
        },
        HttpState::Sending => {
            if tcp_can_send(&stack.sockets, stack.tcp) && stack.req_sent < stack.req_bytes.len() {
                let n: usize = stack.req_bytes.len();
                let remaining = slice_subrange(stack.req_bytes.as_slice(), stack.req_sent, n);
                if let Some(k) = tcp_send(&mut stack.sockets, stack.tcp, remaining) {
                    proof {
                        assert(remaining@.take(k as int) =~= b.req_bytes.subrange(
                            b.req_sent as int,
                            b.req_sent + k,
                        ));
                    }
                    stack.req_sent += k;
                }
            } else {
                assert(b.tcp.queued + b.req_bytes.subrange(b.req_sent as int, b.req_sent as int)
                    =~= b.tcp.queued);
            }
            if stack.req_sent == stack.req_bytes.len() {
                tcp_close(&mut stack.sockets, stack.tcp);
                stack.http = HttpState::Receiving { bytes: 0 };
            }
        },
        HttpState::Receiving { bytes: _ } => {
            if stack.drain() {
                stack.http = HttpState::Receiving { bytes: stack.resp_buf.len() };
            }
            let terminal = state == TcpState::Closed || state == TcpState::TimeWait || state
                == TcpState::CloseWait;
            if terminal && tcp_recv_queue(&stack.sockets, stack.tcp) == 0 {
                let _late = stack.drain();
                assert(b.resp + b.tcp.received + Seq::<u8>::empty() =~= b.resp + b.tcp.received);
                let status: u16 = match parse_status_line(&stack.resp_buf) {
                    Some(code) => code,
                    None => 0,
                };
                let body = strip_headers(&stack.resp_buf);
                stack.http = HttpState::Done { status, body };
            }
        },
        _ => {},
    }
}

/// Takes the next step of the stack after its interface was polled: the lease
/// first, then the HTTP client. Without a stack nothing happens.
pub fn poll(stack: &mut Option<Stack>, now: u64)
    requires
        *old(stack) matches Some(s) ==> s.wf(),
    ensures
        *old(stack) is None ==> *final(stack) is None,
        *old(stack) matches Some(s) ==> {
            &&& *final(stack) matches Some(t)
            &&& t.wf()
            &&& exists|leased: StackModel|
                lease_driven(s@, leased) && t@ == #[trigger] http_driven(leased, now)
        },
{
    match stack {
        None => {},
        Some(s) => {
            drive_dhcp(s);
            let ghost leased = s@;
            drive_http(s, now);
            assert(s@ == http_driven(leased, now));
        },
    }
}

/// Why a request is refused, if it is.
pub open spec fn get_check(stack: Option<StackModel>) -> Result<(), Seq<char>> {
    match stack {
        None => Err("net not initialised"@),
        Some(m) => if !(m.link is Up) {
            Err("network is still acquiring an IP via DHCP"@)
        } else if !m.http.is_free() {
            Err("another request is already in flight"@)
        } else {
            Ok(())
        },
    }
}

/// The stack with a request waiting.
pub open spec fn requested(m: StackModel, req: RequestModel) -> StackModel {
    StackModel {
        pending: Some(req),
        http: HttpModel::Connecting(req.host),
        tcp: if m.tcp.is_open() {
            m.tcp.with_state(TcpState::Closed)
        } else {
            m.tcp
        },
        ..m
    }
}

/// What the stack is, if there is one.
pub open spec fn model_of(stack: Option<Stack>) -> Option<StackModel> {
    match stack {
        Some(s) => Some(s@),
        None => None,
    }
}

/// Asks for a page. It is refused without a stack, without a lease, and while
/// another request is being made.
pub fn http_get(
    stack: &mut Option<Stack>,
    host: &str,
    ip: Ipv4Address,
    port: u16,
    path: &str,
) -> (r: Result<(), &'static str>)
    requires
        *old(stack) matches Some(s) ==> s.wf(),
    ensures
        *final(stack) matches Some(s) ==> s.wf(),
        match get_check(model_of(*old(stack))) {
            Err(text) => (r matches Err(e) && e@ == text) && model_of(*final(stack)) == model_of(
                *old(stack),
            ),
            Ok(_) => r is Ok && model_of(*final(stack)) == Some(
                requested(
                    model_of(*old(stack))->0,
                    (RequestModel { host: host@, ip, port, path: path@ }),
                ),
            ),
        },
{
    match stack {
        None => Err("net not initialised"),
        Some(s) => {
            match s.link {
                LinkState::Up { ip: _, gateway: _ } => {},
                _ => return Err("network is still acquiring an IP via DHCP"),
            }
            match &s.http {
                HttpState::Idle => {},
                HttpState::Done { status: _, body: _ } => {},
                HttpState::Error(_) => {},
                _ => return Err("another request is already in flight"),
            }
            if tcp_is_open(&s.sockets, s.tcp) {
                tcp_abort(&mut s.sockets, s.tcp);
            }
            s.pending_req = Some(
                Request { host: host.to_owned(), ip, port, path: path.to_owned() },
            );
            s.http = HttpState::Connecting { host: host.to_owned() };
            Ok(())
        },
    }
}

/// Where the link stands.
pub fn link_state(stack: &Option<Stack>) -> (r: LinkState)
    ensures
        r == match model_of(*stack) {
            Some(m) => m.link,
            None => LinkState::NoNic,
        },
{
    match stack {
        Some(s) => s.link,
        None => LinkState::NoNic,
    }
}

/// Where the HTTP client stands.
pub fn http_state(stack: &Option<Stack>) -> (r: HttpState)
    ensures
        r@ == match model_of(*stack) {
            Some(m) => m.http,
            None => HttpModel::Idle,
        },
{
    match stack {
        Some(s) => s.http.clone(),
        None => HttpState::Idle,
    }
}

/// The stack after the client was reset: what was taken up is given up, what waits
/// is kept.
pub open spec fn http_cleared(m: StackModel) -> StackModel {
    StackModel {
        http: HttpModel::Idle,
        resp: Seq::empty(),
        req_bytes: Seq::empty(),
        req_sent: 0,
        tcp: if m.tcp.is_open() {
            m.tcp.with_state(TcpState::Closed)
        } else {
            m.tcp
        },
        ..m
    }
}

/// Sets the client back to idle, so that a fresh request can be made. A request
/// that is not yet taken up still waits, unless a fresh one takes its place.
pub fn http_reset(stack: &mut Option<Stack>)
    requires
        *old(stack) matches Some(s) ==> s.wf(),
    ensures
        *final(stack) matches Some(s) ==> s.wf(),
        model_of(*final(stack)) == match model_of(*old(stack)) {
            Some(m) => Some(http_cleared(m)),
            None => None,
        },
{
    match stack {
        None => {},
        Some(s) => {
            s.http = HttpState::Idle;
            s.resp_buf.clear();
            s.req_bytes.clear();
            s.req_sent = 0;
            if tcp_is_open(&s.sockets, s.tcp) {
                tcp_abort(&mut s.sockets, s.tcp);
            }
        },
    }
}

// ---------- Laws ----------

impl Stack {
    /// No more of a request was handed over than there is.
    pub proof fn law_request_bounded(&self)
        requires
            self.wf(),
        ensures
            self@.req_sent <= self@.req_bytes.len(),
    {
    }
}

/// With no request waiting, the client goes only along these steps, and else stays
/// where it is: from connecting to sending once the socket may send, or to an error
/// where the connection was refused; from sending to receiving once the whole
/// request was handed over; from receiving on to more bytes, or to its end. An idle
/// client, one that is done and one that has failed never change, and what was
/// handed over of the request never falls and is never more than there is.
pub proof fn law_http_steps(m: StackModel, now: u64)
    requires
        m.pending is None,
        m.req_sent <= m.req_bytes.len(),
    ensures
        ({
            let after = http_driven(m, now);
            &&& after.pending is None
            &&& after.req_bytes == m.req_bytes
            &&& m.req_sent <= after.req_sent <= m.req_bytes.len()
            &&& match m.http {
                HttpModel::Connecting(_) => after.http == if m.tcp.may_send() {
                    HttpModel::Sending
                } else if m.tcp.state is Closed {
                    HttpModel::Error("connection refused"@)
                } else {
                    m.http
                },
                HttpModel::Sending => after.http == if after.req_sent == m.req_bytes.len() {
                    HttpModel::Receiving(0)
                } else {
                    HttpModel::Sending
                },
                HttpModel::Receiving(_) => if is_terminal(m.tcp.state) {
                    after.http is Done
                } else if m.tcp.received.len() > 0 {
                    after.http == HttpModel::Receiving(after.resp.len())
                } else {
                    after.http == m.http
                },
                _ => after == m,
            }
            &&& !(m.http is Sending) ==> after.req_sent == m.req_sent
        }),
{
}

/// While a request is sent, each step hands over the bytes that follow those
/// already handed over, in their order, and answers are awaited only once all of
/// them were.
pub proof fn law_request_in_order(m: StackModel, now: u64)
    requires
        m.pending is None,
        m.http is Sending,
        m.req_sent <= m.req_bytes.len(),
    ensures
        ({
            let after = http_driven(m, now);
            &&& m.req_sent <= after.req_sent <= m.req_bytes.len()
            &&& after.req_bytes == m.req_bytes
            &&& after.tcp.queued == m.tcp.queued + m.req_bytes.subrange(
                m.req_sent as int,
                after.req_sent as int,
            )
            &&& after.http is Receiving <==> after.req_sent == m.req_bytes.len()
            &&& after.http is Sending <==> after.req_sent < m.req_bytes.len()
        }),
{
}

/// A response is over only when the other side has closed, and its body is what
/// follows the headers in all the bytes that came for it.
pub proof fn law_body_of_all_bytes(m: StackModel, now: u64)
    requires
        m.pending is None,
        m.http is Receiving,
    ensures
        ({
            let after = http_driven(m, now);
            &&& after.resp == m.resp + m.tcp.received
            &&& after.http is Done <==> is_terminal(m.tcp.state)
            &&& after.http matches HttpModel::Done(status, body) ==> body == body_of(after.resp)
        }),
{
}

/// The stack after a step for each of the sockets: what the interface has made of
/// the socket between two steps is up to the network.
pub open spec fn stepped(m: StackModel, sockets: Seq<TcpSocket>, now: u64) -> StackModel
    decreases sockets.len(),
{
    if sockets.len() == 0 {
        m
    } else {
        let before = stepped(m, sockets.drop_last(), now);
        http_driven(StackModel { tcp: sockets.last(), ..before }, now)
    }
}

/// All that came with the sockets, in order.
pub open spec fn all_received(sockets: Seq<TcpSocket>) -> Seq<u8>
    decreases sockets.len(),
{
    if sockets.len() == 0 {
        Seq::empty()
    } else {
        all_received(sockets.drop_last()) + sockets.last().received
    }
}

proof fn lemma_receiving(m: StackModel, sockets: Seq<TcpSocket>, now: u64)
    requires
        m.pending is None,
        m.http is Receiving,
        forall|i: int| 0 <= i < sockets.len() ==> !is_terminal((#[trigger] sockets[i]).state),
    ensures
        stepped(m, sockets, now).pending is None,
        stepped(m, sockets, now).http is Receiving,
        stepped(m, sockets, now).resp == m.resp + all_received(sockets),
    decreases sockets.len(),
{
    if sockets.len() > 0 {
        let init = sockets.drop_last();
        assert forall|i: int| 0 <= i < init.len() implies !is_terminal(
            (#[trigger] init[i]).state,
        ) by {
            assert(init[i] == sockets[i]);
        }
        lemma_receiving(m, init, now);
        assert(!is_terminal(sockets[sockets.len() - 1].state));
        assert(m.resp + all_received(init) + sockets.last().received =~= m.resp + all_received(
            sockets,
        ));
    } else {
        assert(m.resp + all_received(sockets) =~= m.resp);
    }
}

/// However a response is cut into pieces on its way, it is over at the step at
/// which the other side has closed and not before, and then the body is what
/// follows the headers in all of it.
pub proof fn law_whole_response(m: StackModel, sockets: Seq<TcpSocket>, now: u64)
    requires
        m.pending is None,
        m.http is Receiving,
        sockets.len() > 0,
        forall|i: int|
            0 <= i < sockets.len() - 1 ==> !is_terminal((#[trigger] sockets[i]).state),
    ensures
        stepped(m, sockets, now).http is Done <==> is_terminal(sockets.last().state),
        stepped(m, sockets, now).http matches HttpModel::Done(status, body) ==> {
            let all = m.resp + all_received(sockets);
            &&& body == body_of(all)
            &&& status == match status_code(all) {
                Some(code) => code,
                None => 0,
            }
        },
{
    let init = sockets.drop_last();
    assert forall|i: int| 0 <= i < init.len() implies !is_terminal((#[trigger] init[i]).state) by {
        assert(init[i] == sockets[i]);
    }
    lemma_receiving(m, init, now);
    assert(m.resp + all_received(init) + sockets.last().received =~= m.resp + all_received(sockets));
}

/// All that was handed over to the sockets, in order: what each has more to send
/// after its step than before.
pub open spec fn all_handed_over(m: StackModel, sockets: Seq<TcpSocket>, now: u64) -> Seq<u8>
    decreases sockets.len(),
{
    if sockets.len() == 0 {
        Seq::empty()
    } else {
        let socket = sockets.last();
        all_handed_over(m, sockets.drop_last(), now) + stepped(m, sockets, now).tcp.queued.skip(
            socket.queued.len() as int,
        )
    }
}

/// However little room there is at each step: while a request is sent, what was
/// handed over is a beginning of it, and at the step after which the answer is
/// awaited it is all of it.
#[verifier::rlimit(60)]
#[verifier::spinoff_prover]
pub proof fn law_whole_request(m: StackModel, sockets: Seq<TcpSocket>, now: u64)
    requires
        m.pending is None,
        m.http is Sending,
        m.req_sent == 0,
        forall|i: int|
            0 <= i < sockets.len() ==> (#[trigger] sockets[i]).queued.len() <= sockets[i].room,
        stepped(m, sockets, now).http is Sending || (stepped(m, sockets, now).http is Receiving
            && stepped(m, sockets.drop_last(), now).http is Sending),
    ensures
        stepped(m, sockets, now).req_bytes == m.req_bytes,
        stepped(m, sockets, now).req_sent <= m.req_bytes.len(),
        all_handed_over(m, sockets, now) == m.req_bytes.take(
            stepped(m, sockets, now).req_sent as int,
        ),
        stepped(m, sockets, now).http is Receiving ==> all_handed_over(m, sockets, now)
            == m.req_bytes,
    decreases sockets.len(),
{
    if sockets.len() > 0 {
        let init = sockets.drop_last();
        let before = stepped(m, init, now);
        lemma_sending_before(m, sockets, now);
        lemma_sending_before(m, init, now);
        assert forall|i: int| 0 <= i < init.len() implies (#[trigger] init[i]).queued.len()
            <= init[i].room by {
            assert(init[i] == sockets[i]);
        }
        law_whole_request(m, init, now);
        let socket = sockets.last();
        assert(socket == sockets[sockets.len() - 1]);
        let at = StackModel { tcp: socket, ..before };
        let after = http_driven(at, now);
        law_request_in_order(at, now);
        let part = m.req_bytes.subrange(before.req_sent as int, after.req_sent as int);
        assert(after.tcp.queued.skip(socket.queued.len() as int) =~= part);
        assert(m.req_bytes.take(before.req_sent as int) + part =~= m.req_bytes.take(
            after.req_sent as int,
        ));
        assert(m.req_bytes.take(m.req_bytes.len() as int) =~= m.req_bytes);
    } else {
        assert(all_handed_over(m, sockets, now) =~= m.req_bytes.take(0));
    }
}

proof fn lemma_sending_before(m: StackModel, sockets: Seq<TcpSocket>, now: u64)
    requires
        m.pending is None,
        m.http is Sending,
    ensures
        stepped(m, sockets, now).pending is None,
        ({
            let http = stepped(m, sockets, now).http;
            http is Sending || http is Receiving || http is Done
        }),
        sockets.len() > 0 && stepped(m, sockets, now).http is Sending ==> stepped(
            m,
            sockets.drop_last(),
            now,
        ).http is Sending,
    decreases sockets.len(),
{
    if sockets.len() > 0 {
        lemma_sending_before(m, sockets.drop_last(), now);
    }
}

/// While a request is being made, another one is refused.
pub proof fn law_one_request(m: StackModel, req: RequestModel)
    requires
        get_check(Some(m)) is Ok,
    ensures
        get_check(Some(requested(m, req))) is Err,
{
}

/// After a reset a request is accepted whenever there is a lease.
pub proof fn law_reset_frees(m: StackModel)
    requires
        m.link is Up,
    ensures
        get_check(Some(http_cleared(m))) is Ok,
{
}

/// A request that waits is taken up at the next step once its socket is free: a
/// connection to its address and port is begun, its bytes are those of the
/// request, none of them is handed over, and nothing of an earlier response is
/// left.
pub proof fn law_request_taken_up(m: StackModel, req: RequestModel, now: u64)
    requires
        m.pending == Some(req),
        !m.tcp.is_open(),
        req.port != 0,
        req.ip.a != 0,
        m.addresses.len() > 0,
    ensures
        ({
            let after = http_driven(m, now);
            &&& after.pending is None
            &&& after.req_bytes == encode_utf8(request_text(req.path, req.host))
            &&& after.req_sent == 0
            &&& after.resp == Seq::<u8>::empty()
            &&& after.http == HttpModel::Connecting(req.host)
            &&& after.tcp.state is SynSent
            &&& after.tcp.ends matches Some(ends) && ends.ip == req.ip && ends.port == req.port
                && 49152 <= ends.local_port < 57344
        }),
{
}

// ---------- Laws of the client ----------

/// A request asks for the path in its first line and names the host in its second,
/// tells the server to close the connection, and ends with the first empty line in
/// it.
pub proof fn law_request_lines(path: Seq<char>, host: Seq<char>)
    requires
        forall|i: int| 0 <= i < path.len() ==> #[trigger] path[i] != '\n',
        forall|i: int| 0 <= i < host.len() ==> #[trigger] host[i] != '\n',
    ensures
        ({
            let t = request_text(path, host);
            let ls = text_lines(t);
            &&& ls.len() == 6
            &&& ls[0] == "GET "@ + path + " HTTP/1.0"@
            &&& ls[1] == "Host: "@ + host
            &&& ls[4] == "Connection: close"@
            &&& ls[2].len() > 0 && ls[3].len() > 0
            &&& ls[5].len() == 0
            &&& t.len() >= 4
            &&& t[t.len() - 4] == '\r' && t[t.len() - 3] == '\n' && t[t.len() - 2] == '\r'
                && t[t.len() - 1] == '\n'
        }),
{
    let t = request_text(path, host);
    let a = "GET "@ + path + " HTTP/1.0"@;
    let b = "Host: "@ + host;
    let c = "User-Agent: ConsoleOS/0.1"@;
    let d = "Accept: */*"@;
    let e = "Connection: close"@;
    let none = Seq::<char>::empty();
    reveal_strlit("GET ");
    reveal_strlit(" HTTP/1.0");
    reveal_strlit("Host: ");
    reveal_strlit("User-Agent: ConsoleOS/0.1");
    reveal_strlit("Accept: */*");
    reveal_strlit("Connection: close");
    reveal_strlit(" HTTP/1.0\r\nHost: ");
    reveal_strlit("\r\nUser-Agent: ConsoleOS/0.1\r\nAccept: */*\r\nConnection: close\r\n\r\n");
    assert forall|i: int| 0 <= i < a.len() implies a[i] != '\n' by {
        if 4 <= i < 4 + path.len() {
            assert(a[i] == path[i - 4]);
        }
    }
    assert forall|i: int| 0 <= i < b.len() implies b[i] != '\n' by {
        if 6 <= i {
            assert(b[i] == host[i - 6]);
        }
    }
    let t5 = none.push('\r').push('\n') + none;
    let t4 = e.push('\r').push('\n') + t5;
    let t3 = d.push('\r').push('\n') + t4;
    let t2 = c.push('\r').push('\n') + t3;
    let t1 = b.push('\r').push('\n') + t2;
    assert("\r\nUser-Agent: ConsoleOS/0.1\r\nAccept: */*\r\nConnection: close\r\n\r\n"@
        =~= seq!['\r', '\n'] + t2);
    assert(" HTTP/1.0\r\nHost: "@ =~= " HTTP/1.0"@ + seq!['\r', '\n'] + "Host: "@);
    assert(t =~= a.push('\r').push('\n') + t1);
    law_lines(none, none);
    law_lines(e, t5);
    law_lines(d, t4);
    law_lines(c, t3);
    law_lines(b, t2);
    law_lines(a, t1);
    let ls = text_lines(t);
    assert(ls =~= seq![a, b, c, d, e, none]);
}

/// A connection goes out from one of the ports for that, and two that begin less
/// than 8192 milliseconds apart go out from different ones.
pub proof fn law_local_port(now: u64, later: u64)
    ensures
        49152 <= local_port(now) < 57344,
        now < later < now + 8192 ==> local_port(now) != local_port(later),
{
}

/// A request is accepted once there is a lease and none is being made; a client that
/// is connecting, sending or receiving is making one, and no other is.
pub proof fn law_request_accepted(m: StackModel)
    ensures
        get_check(Some(m)) is Ok <==> (m.link is Up && !(m.http is Connecting) && !(
        m.http is Sending) && !(m.http is Receiving)),
        get_check(None) is Err,
{
}

/// A lease that DHCP reports opens the way for requests: the interface has its
/// address and no other, a new router is the last of its default gateways or finds
/// no room, and the link shows both. One that is gone closes it: no address is left.
/// Neither changes anything of the request that is being made.
pub proof fn law_lease(before: StackModel, event: DhcpEvent, after: StackModel)
    requires
        lease_applied(before, event, after),
        before.http is Idle,
    ensures
        event is Configured ==> get_check(Some(after)) is Ok,
        event is Deconfigured ==> get_check(Some(after)) is Err && after.addresses.len() == 0,
        event matches DhcpEvent::Configured { ip, prefix, router } ==> {
            &&& after.addresses.len() == 1
            &&& after.addresses[0].0 == ip
            &&& after.addresses[0].1 == prefix
            &&& after.link == (LinkState::Up { ip, gateway: router })
            &&& router matches Some(gw) ==> (before.gateways.len() <= 1 && before.routes
                == before.gateways.len() ==> after.gateways == seq![gw])
            &&& router is None && before.gateways.len() <= 1 ==> after.gateways.len() == 0
        },
        event is Deconfigured && before.gateways.len() <= 1 ==> after.gateways.len() == 0,
        after.http == before.http,
        after.tcp == before.tcp,
        after.pending == before.pending,
        after.req_bytes == before.req_bytes,
        after.resp == before.resp,
{
    if let DhcpEvent::Configured { ip, prefix, router } = event {
        if let Some(gw) = router {
            if before.gateways.len() <= 1 && before.routes == before.gateways.len() {
                assert(without_first(before.gateways) =~= Seq::empty());
                assert(after.gateways =~= seq![gw]);
            }
        }
    }
}

/// The response is over when the other side has closed its half of the connection,
/// or the connection is gone, and not while it may still send.
pub proof fn law_response_over(m: StackModel, now: u64)
    requires
        m.pending is None,
        m.http is Receiving,
    ensures
        ({
            let after = http_driven(m, now);
            let all = m.resp + m.tcp.received;
            &&& after.http is Done <==> (m.tcp.state is CloseWait || m.tcp.state is Closed
                || m.tcp.state is TimeWait)
            &&& after.resp == all
            &&& after.tcp.received.len() == 0
            &&& after.http matches HttpModel::Done(code, body) ==> {
                &&& body == body_of(all)
                &&& status_code(all) matches Some(c) ==> code == c
                &&& status_code(all) is None ==> code == 0
            }
        }),
{
}

/// A whole page: once a response of a first line, headers, an empty line and a body
/// has come and the other side has closed, the client is done with the code of the
/// line and with the body, however many words the reason has.
pub proof fn law_page_received(
    m: StackModel,
    version: Seq<char>,
    n: nat,
    reason: Seq<char>,
    headers: Seq<u8>,
    body: Seq<u8>,
    now: u64,
)
    requires
        m.pending is None,
        m.http is Receiving,
        m.tcp.state is CloseWait || m.tcp.state is Closed || m.tcp.state is TimeWait,
        version.len() > 0,
        forall|i: int| 0 <= i < version.len() ==> !is_space(#[trigger] version[i]),
        forall|i: int| 0 <= i < reason.len() ==> #[trigger] reason[i] != '\n',
        n < 65536,
        ({
            let line = version + seq![' '] + decimal(n) + (seq![' '] + reason);
            let head = encode_utf8(line) + seq![0x0au8] + headers;
            &&& m.resp + m.tcp.received == head + blank_line() + body
            &&& forall|k: int|
                0 <= k < head.len() ==> !#[trigger] stands_at(
                    head + blank_line() + body,
                    blank_line(),
                    k,
                )
        }),
    ensures
        http_driven(m, now).http == HttpModel::Done(n as u16, body),
{
    lemma_response_read(version, n, reason, headers, body);
    law_response_over(m, now);
}

proof fn lemma_response_read(
    version: Seq<char>,
    n: nat,
    reason: Seq<char>,
    headers: Seq<u8>,
    body: Seq<u8>,
)
    requires
        version.len() > 0,
        forall|i: int| 0 <= i < version.len() ==> !is_space(#[trigger] version[i]),
        forall|i: int| 0 <= i < reason.len() ==> #[trigger] reason[i] != '\n',
        n < 65536,
        ({
            let line = version + seq![' '] + decimal(n) + (seq![' '] + reason);
            let head = encode_utf8(line) + seq![0x0au8] + headers;
            forall|k: int|
                0 <= k < head.len() ==> !#[trigger] stands_at(
                    head + blank_line() + body,
                    blank_line(),
                    k,
                )
        }),
    ensures
        ({
            let line = version + seq![' '] + decimal(n) + (seq![' '] + reason);
            let head = encode_utf8(line) + seq![0x0au8] + headers;
            let buf = head + blank_line() + body;
            body_of(buf) == body && status_code(buf) == Some(n as u16)
        }),
{
    let line = version + seq![' '] + decimal(n) + (seq![' '] + reason);
    let rest = headers + blank_line() + body;
    law_status_any_reason(version, n, reason, rest);
    lemma_read_parts(encode_utf8(line) + seq![0x0au8], headers, body, Some(n as u16));
}

proof fn lemma_read_parts(first: Seq<u8>, headers: Seq<u8>, body: Seq<u8>, code: Option<u16>)
    requires
        status_code(first + (headers + blank_line() + body)) == code,
        forall|k: int|
            0 <= k < (first + headers).len() ==> !#[trigger] stands_at(
                first + headers + blank_line() + body,
                blank_line(),
                k,
            ),
    ensures
        body_of(first + headers + blank_line() + body) == body,
        status_code(first + headers + blank_line() + body) == code,
{
    law_body_after_headers(first + headers, body);
    lemma_in_one(first, headers, blank_line(), body);
}

proof fn lemma_in_one(a: Seq<u8>, b: Seq<u8>, c: Seq<u8>, d: Seq<u8>)
    ensures
        a + b + c + d == a + (b + c + d),
{
    assert(a + b + c + d =~= a + (b + c + d));
}

/// While a request is sent over an open connection, as much of it is handed over as
/// there is room for, and once all of it is, this side of the connection is closed.
pub proof fn law_sends_what_fits(m: StackModel, now: u64)
    requires
        m.pending is None,
        m.http is Sending,
        m.tcp.state is Established,
        m.req_sent <= m.req_bytes.len(),
        m.tcp.queued.len() <= m.tcp.room,
    ensures
        ({
            let after = http_driven(m, now);
            &&& after.req_sent == m.req_bytes.len() || after.tcp.queued.len() == m.tcp.room
            &&& after.tcp.queued == m.tcp.queued + m.req_bytes.subrange(
                m.req_sent as int,
                after.req_sent as int,
            )
            &&& after.req_sent == m.req_bytes.len() ==> after.tcp.state is FinWait1
            &&& after.req_sent < m.req_bytes.len() ==> after.tcp.state is Established
        }),
{
}

/// A request that was asked for waits as it was asked for, and nothing else of the
/// stack but the socket and what the client says of itself changes.
pub proof fn law_request_waits(m: StackModel, req: RequestModel)
    ensures
        requested(m, req).pending == Some(req),
        requested(m, req).http is Connecting,
        !requested(m, req).tcp.is_open(),
        requested(m, req).link == m.link,
        requested(m, req).addresses == m.addresses,
        requested(m, req).gateways == m.gateways,
        requested(m, req).news == m.news,
{
}

/// A request to nowhere fails when it is taken up: to port zero, to an address of
/// the reserved block, or without an address of one's own. It is then no longer
/// waiting.
pub proof fn law_request_to_nowhere(m: StackModel, req: RequestModel, now: u64)
    requires
        m.pending == Some(req),
        !m.tcp.is_open(),
        req.port == 0 || req.ip.a == 0 || m.addresses.len() == 0,
    ensures
        http_driven(m, now).http is Error,
        http_driven(m, now).pending is None,
        http_driven(m, now).tcp == m.tcp,
{
}

/// A request that finds its socket in use waits for one step more, in which the
/// socket is freed, and is then taken up.
pub proof fn law_request_frees_socket(m: StackModel, now: u64)
    requires
        m.pending is Some,
        m.tcp.is_open(),
    ensures
        http_driven(m, now).pending == m.pending,
        http_driven(m, now).http == m.http,
        !http_driven(m, now).tcp.is_open(),
        http_driven(http_driven(m, now), now).pending is None,
{
}

/// A reset leaves nothing of a request that was taken up: the client is idle, its
/// socket is free, and no byte of the request or of its response is left. The lease
/// stays.
pub proof fn law_reset_clears(m: StackModel)
    ensures
        http_cleared(m).http is Idle,
        !http_cleared(m).tcp.is_open(),
        http_cleared(m).req_bytes.len() == 0,
        http_cleared(m).req_sent == 0,
        http_cleared(m).resp.len() == 0,
        http_cleared(m).link == m.link,
        http_cleared(m).addresses == m.addresses,
        http_cleared(m).pending == m.pending,
{
}

} // verus!
