//! A text-mode page viewer on top of the HTTP client: a line for the address, a
//! body that shows the response as plain text, and a status line.
use vstd::prelude::*;
use vstd::utf8::{decode_utf8, encode_utf8, valid_utf8};

use crate::net::{
    get_check, http_cleared, http_get, http_reset, http_state, ipv4_text, law_ipv4_text_unique,
    link_state, model_of, parse_ipv4, push_ipv4, requested, HttpModel, HttpState, LinkState,
    RequestModel, Stack, StackModel,
};
use crate::sockets::Ipv4Address;
use crate::text::{
    chars_of, decimal, is_space, law_decimal_digits, law_space, lemma_decimal_ascii,
    lemma_encode_concat, lemma_views_push, lines, lossy, lossy_text, parse_u16, parsed_u16,
    push_decimal, same_text, string_of, text_lines, trim, trimmed, views,
};
use crate::vga_buffer::{dotted, filled, glyph, on_screen, Color, ScreenChar, Writer, WriterModel};

verus! {

pub const URL_BAR_ROW: usize = 4;

pub const SEP_ROW: usize = 5;

pub const STATUS_ROW: usize = 21;

pub const BODY_TOP: usize = 6;

pub const BODY_BOT: usize = 20;

pub const BODY_LEFT: usize = 1;

pub const BODY_WIDTH: usize = 78;

// ---------- Addresses of pages ----------

/// The text begins with `prefix`.
pub open spec fn has_prefix(s: Seq<char>, prefix: Seq<char>) -> bool {
    prefix.len() <= s.len() && s.take(prefix.len() as int) == prefix
}

/// Where `c` stands first in `s`, or the length of `s`.
pub open spec fn place_of(s: Seq<char>, c: char) -> int
    decreases s.len(),
{
    if s.len() == 0 {
        0
    } else if s[0] == c {
        0
    } else {
        1 + place_of(s.skip(1), c)
    }
}

/// The parts of a page's address: host, port and path. The scheme may be left
/// out, the port is 80 and the path is `/` unless given; there is none for an
/// address without a host, with a port that is not a number of 16 bits, or for
/// another protocol than plain HTTP.
pub open spec fn url_parts(input: Seq<char>) -> Option<(Seq<char>, u16, Seq<char>)> {
    let s = trimmed(input);
    if !has_prefix(s, "http://"@) && has_prefix(s, "https://"@) {
        None
    } else {
        let rest = if has_prefix(s, "http://"@) {
            s.skip(7)
        } else {
            s
        };
        let slash = place_of(rest, '/');
        let place = rest.take(slash);
        let path = if slash < rest.len() {
            rest.skip(slash)
        } else {
            seq!['/']
        };
        let colon = place_of(place, ':');
        let host = place.take(colon);
        let port = if colon < place.len() {
            parsed_u16(place.skip(colon + 1))
        } else {
            Some(80u16)
        };
        match port {
            Some(p) if host.len() > 0 => Some((host, p, path)),
            _ => None,
        }
    }
}

fn place_in(chars: &Vec<char>, from: usize, to: usize, c: char) -> (r: usize)
    requires
        from <= to <= chars@.len(),
    ensures
        from <= r <= to,
        r - from == place_of(chars@.subrange(from as int, to as int), c),
{
    let ghost part = chars@.subrange(from as int, to as int);
    let mut i: usize = from;
    while i < to && chars[i] != c
        invariant
            from <= i <= to <= chars@.len(),
            place_of(part, c) == (i - from) + place_of(chars@.subrange(i as int, to as int), c),
        decreases to - i,
    {
        assert(chars@.subrange(i as int, to as int).skip(1) =~= chars@.subrange(i + 1, to as int));
        i += 1;
    }
    i
}

fn starts_with_text(chars: &Vec<char>, prefix: &str) -> (r: bool)
    ensures
        r == has_prefix(chars@, prefix@),
{
    let p = chars_of(prefix);
    if p.len() > chars.len() {
        return false;
    }
    let mut i: usize = 0;
    while i < p.len()
        invariant
            p@ == prefix@,
            i <= p@.len() <= chars@.len(),
            forall|j: int| 0 <= j < i ==> chars@[j] == p@[j],
        decreases p.len() - i,
    {
        if chars[i] != p[i] {
            assert(chars@.take(p@.len() as int)[i as int] != prefix@[i as int]);
            return false;
        }
        i += 1;
    }
    assert(chars@.take(p@.len() as int) =~= prefix@);
    true
}

/// Splits a page's address into host, port and path.
pub fn parse_url(input: &str) -> (r: Option<(String, u16, String)>)
    ensures
        match url_parts(input@) {
            Some(parts) => r matches Some(t) && t.0@ == parts.0 && t.1 == parts.1 && t.2@
                == parts.2,
            None => r is None,
        },
{
    let text = trim(input);
    let s = chars_of(text.as_str());
    proof {
        reveal_strlit("http://");
    }
    let plain = starts_with_text(&s, "http://");
    if !plain && starts_with_text(&s, "https://") {
        return None;
    }
    let n: usize = s.len();
    let from: usize = if plain {
        7
    } else {
        0
    };
    let ghost rest = if plain {
        s@.skip(7)
    } else {
        s@
    };
    assert(rest =~= s@.subrange(from as int, n as int));
    let slash: usize = place_in(&s, from, n, '/');
    let ghost place = rest.take(slash - from);
    assert(place =~= s@.subrange(from as int, slash as int));
    let path = if slash < n {
        let p = string_of(s.as_slice(), slash, n);
        assert(p@ =~= rest.skip(slash - from));
        p
    } else {
        let mut p = String::new();
        p.push('/');
        assert(p@ =~= seq!['/']);
        p
    };
    let colon: usize = place_in(&s, from, slash, ':');
    let port: Option<u16> = if colon < slash {
        let digits = string_of(s.as_slice(), colon + 1, slash);
        assert(digits@ =~= place.skip(colon - from + 1));
        parse_u16(digits.as_str())
    } else {
        Some(80)
    };
    let host = string_of(s.as_slice(), from, colon);
    assert(host@ =~= place.take(colon - from));
    match port {
        Some(p) => {
            if colon > from {
                Some((host, p, path))
            } else {
                None
            }
        },
        None => None,
    }
}

// ---------- Status lines ----------

/// What the status line says of the link.
pub open spec fn link_text(link: LinkState) -> Seq<char> {
    match link {
        LinkState::NoNic => "no nic detected — network unavailable"@,
        LinkState::Dhcp => "acquiring DHCP lease..."@,
        LinkState::Up { ip, gateway } => match gateway {
            Some(gw) => "link up: ip "@ + ipv4_text(ip) + " gw "@ + ipv4_text(gw),
            None => "link up: ip "@ + ipv4_text(ip) + " (no gateway)"@,
        },
    }
}

/// What the status line says of the link.
pub fn link_status_line(link: &LinkState) -> (r: String)
    ensures
        r@ == link_text(*link),
{
    match link {
        LinkState::NoNic => "no nic detected — network unavailable".to_owned(),
        LinkState::Dhcp => "acquiring DHCP lease...".to_owned(),
        LinkState::Up { ip, gateway } => {
            let mut s = "link up: ip ".to_owned();
            push_ipv4(&mut s, *ip);
            match gateway {
                Some(gw) => {
                    s.append(" gw ");
                    push_ipv4(&mut s, *gw);
                },
                None => {
                    s.append(" (no gateway)");
                },
            }
            s
        },
    }
}

/// What the status line says of the request, or of the link while there is none.
pub open spec fn status_text(http: HttpModel, link: LinkState) -> Seq<char> {
    match http {
        HttpModel::Idle => link_text(link),
        HttpModel::Connecting(host) => "connecting to "@ + host + "..."@,
        HttpModel::Sending => "sending request..."@,
        HttpModel::Receiving(bytes) => "receiving... "@ + decimal(bytes) + " bytes"@,
        HttpModel::Done(status, body) => "done. HTTP "@ + decimal(status as nat) + " - "@ + decimal(
            body.len(),
        ) + " bytes received"@,
        HttpModel::Error(e) => "error: "@ + e,
    }
}

/// What the status line says of the request, or of the link while there is none.
pub fn build_status_line(http: &HttpState, link: &LinkState) -> (r: String)
    ensures
        r@ == status_text(http@, *link),
{
    match http {
        HttpState::Idle => link_status_line(link),
        HttpState::Connecting { host } => {
            let mut s = "connecting to ".to_owned();
            s.append(host.as_str());
            s.append("...");
            s
        },
        HttpState::Sending => "sending request...".to_owned(),
        HttpState::Receiving { bytes } => {
            let mut s = "receiving... ".to_owned();
            push_decimal(&mut s, *bytes as u64);
            s.append(" bytes");
            s
        },
        HttpState::Done { status, body } => {
            let mut s = "done. HTTP ".to_owned();
            push_decimal(&mut s, *status as u64);
            s.append(" - ");
            push_decimal(&mut s, body.len() as u64);
            s.append(" bytes received");
            s
        },
        HttpState::Error(e) => {
            let mut s = "error: ".to_owned();
            s.append(e.as_str());
            s
        },
    }
}

// ---------- The body ----------

/// The character that the body shows: printable ASCII as it is, a dot for
/// anything else.
pub open spec fn plain(c: char) -> char {
    if (c as u32) < 0x20 || (c as u32) > 0x7e {
        '.'
    } else {
        c
    }
}

/// A run of characters in rows of the body's width.
pub open spec fn rows_of(s: Seq<char>) -> Seq<Seq<char>>
    decreases s.len(),
{
    if s.len() <= 78 {
        seq![s]
    } else {
        seq![s.take(78)] + rows_of(s.skip(78))
    }
}

/// One line of a page as rows of the body.
pub open spec fn line_rows(line: Seq<char>) -> Seq<Seq<char>> {
    rows_of(line.map_values(|c: char| plain(c)))
}

/// Lines of a page as rows of the body.
pub open spec fn lines_rows(ls: Seq<Seq<char>>) -> Seq<Seq<char>>
    decreases ls.len(),
{
    if ls.len() == 0 {
        Seq::empty()
    } else {
        lines_rows(ls.drop_last()) + line_rows(ls.last())
    }
}

/// A page as rows of the body.
pub open spec fn page_rows(text: Seq<char>) -> Seq<Seq<char>> {
    lines_rows(text_lines(text))
}

/// Appends the rows of one line.
fn push_rows(out: &mut Vec<String>, line: &str)
    ensures
        views(final(out)@) == views(old(out)@) + line_rows(line@),
{
    let chars = chars_of(line);
    let ghost all = line@.map_values(|c: char| plain(c));
    let ghost before = views(out@);
    let mut cur = String::new();
    let mut count: usize = 0;
    let mut i: usize = 0;
    if chars.len() == 0 {
        proof {
            lemma_views_push(out@, cur);
            assert(all =~= cur@);
            assert(before + rows_of(all) =~= before.push(cur@));
        }
        out.push(cur);
        return;
    }
    assert(all.skip(0) =~= all);
    while i < chars.len()
        invariant
            chars@ == line@,
            all == line@.map_values(|c: char| plain(c)),
            all.len() == chars@.len(),
            chars@.len() > 0,
            count <= i <= chars@.len(),
            count < 78,
            count == cur@.len(),
            cur@ == all.subrange(i - count, i as int),
            i - count < chars@.len() ==> views(out@) + rows_of(all.skip(i - count)) == before
                + rows_of(all),
            i - count == chars@.len() ==> views(out@) == before + rows_of(all),
        decreases chars.len() - i,
    {
        let c = chars[i];
        let ch = if (c as u32) < 0x20 || (c as u32) > 0x7e {
            '.'
        } else {
            c
        };
        let ghost start = i - count;
        proof {
            assert(all[i as int] == ch);
            assert(all.subrange(start, i + 1) =~= cur@.push(ch));
        }
        cur.push(ch);
        count += 1;
        i += 1;
        if count >= 78 {
            proof {
                lemma_views_push(out@, cur);
                let rest = all.skip(start);
                assert(rest.take(78) =~= cur@);
                if rest.len() > 78 {
                    assert(rest.skip(78) =~= all.skip(i as int));
                    assert(views(out@) + rows_of(rest) =~= views(out@).push(cur@) + rows_of(
                        all.skip(i as int),
                    ));
                } else {
                    assert(rest =~= cur@);
                    assert(views(out@) + rows_of(rest) =~= views(out@).push(cur@));
                }
            }
            out.push(cur);
            cur = String::new();
            count = 0;
        }
    }
    if count > 0 {
        proof {
            lemma_views_push(out@, cur);
            let rest = all.skip(i - count);
            assert(rest =~= cur@);
            assert(views(out@) + rows_of(rest) =~= views(out@).push(cur@));
        }
        out.push(cur);
    }
}

/// Breaks a page into rows of the body.
pub fn wrap_body(text: &str) -> (r: Vec<String>)
    ensures
        views(r@) == page_rows(text@),
{
    let ls = lines(text);
    let ghost all = views(ls@);
    let mut out: Vec<String> = Vec::new();
    let mut i: usize = 0;
    assert(all.take(0) =~= Seq::empty());
    assert(views(out@) =~= Seq::empty());
    while i < ls.len()
        invariant
            i <= ls@.len(),
            all == views(ls@),
            views(out@) == lines_rows(all.take(i as int)),
        decreases ls.len() - i,
    {
        proof {
            assert(all.take(i + 1).drop_last() =~= all.take(i as int));
            assert(all.take(i + 1).last() == ls@[i as int]@);
        }
        push_rows(&mut out, ls[i].as_str());
        i += 1;
    }
    assert(all.take(all.len() as int) =~= all);
    out
}

/// The rows that the body shows for the state of the client: those of the page
/// once it is there, and none before.
pub open spec fn body_rows(http: HttpModel) -> Seq<Seq<char>> {
    match http {
        HttpModel::Done(_, body) => page_rows(lossy_text(body)),
        _ => Seq::empty(),
    }
}

/// The rows that the body shows for the state of the client.
pub fn build_body_lines(http: &HttpState) -> (r: Vec<String>)
    ensures
        views(r@) == body_rows(http@),
        http@ matches HttpModel::Done(_, body) ==> (valid_utf8(body) ==> views(r@) == page_rows(
            decode_utf8(body),
        )),
{
    match http {
        HttpState::Done { status: _, body } => {
            let text = lossy(body.as_slice());
            wrap_body(text.as_str())
        },
        _ => {
            let none: Vec<String> = Vec::new();
            assert(views(none@) =~= Seq::empty());
            none
        },
    }
}

/// No row of a page is wider than the body, and every character in it is
/// printable ASCII.
pub proof fn law_rows_fit(text: Seq<char>)
    ensures
        forall|i: int|
            0 <= i < page_rows(text).len() ==> (#[trigger] page_rows(text)[i]).len() <= 78,
        forall|i: int, k: int|
            0 <= i < page_rows(text).len() && 0 <= k < page_rows(text)[i].len() ==> ' '
                <= #[trigger] page_rows(text)[i][k] <= '~',
{
    lemma_lines_fit(text_lines(text));
}

proof fn lemma_lines_fit(ls: Seq<Seq<char>>)
    ensures
        forall|i: int| 0 <= i < lines_rows(ls).len() ==> (#[trigger] lines_rows(ls)[i]).len() <= 78,
        forall|i: int, k: int|
            0 <= i < lines_rows(ls).len() && 0 <= k < lines_rows(ls)[i].len() ==> ' '
                <= #[trigger] lines_rows(ls)[i][k] <= '~',
    decreases ls.len(),
{
    if ls.len() > 0 {
        lemma_lines_fit(ls.drop_last());
        let shown = ls.last().map_values(|c: char| plain(c));
        lemma_rows_fit(shown);
        let before = lines_rows(ls.drop_last());
        let all = lines_rows(ls);
        assert forall|i: int| 0 <= i < all.len() implies (#[trigger] all[i]).len() <= 78 && (forall|
            k: int,
        | 0 <= k < all[i].len() ==> ' ' <= #[trigger] all[i][k] <= '~') by {
            if i < before.len() {
                assert(all[i] == before[i]);
            } else {
                assert(all[i] == rows_of(shown)[i - before.len()]);
            }
        }
    }
}

proof fn lemma_rows_fit(s: Seq<char>)
    requires
        forall|k: int| 0 <= k < s.len() ==> ' ' <= #[trigger] s[k] <= '~',
    ensures
        forall|i: int| 0 <= i < rows_of(s).len() ==> (#[trigger] rows_of(s)[i]).len() <= 78,
        forall|i: int, k: int|
            0 <= i < rows_of(s).len() && 0 <= k < rows_of(s)[i].len() ==> ' ' <= #[trigger] rows_of(
                s,
            )[i][k] <= '~',
    decreases s.len(),
{
    if s.len() > 78 {
        assert forall|k: int| 0 <= k < s.skip(78).len() implies ' ' <= #[trigger] s.skip(78)[k]
            <= '~' by {
            assert(s.skip(78)[k] == s[k + 78]);
        }
        lemma_rows_fit(s.skip(78));
        let all = rows_of(s);
        assert forall|i: int| 0 <= i < all.len() implies (#[trigger] all[i]).len() <= 78 && (forall|
            k: int,
        | 0 <= k < all[i].len() ==> ' ' <= #[trigger] all[i][k] <= '~') by {
            if i > 0 {
                assert(all[i] == rows_of(s.skip(78))[i - 1]);
            }
        }
    }
}

proof fn lemma_rows_whole(s: Seq<char>)
    ensures
        crate::text::joined(rows_of(s), Seq::empty()) == s,
    decreases s.len(),
{
    if s.len() > 78 {
        let rest = rows_of(s.skip(78));
        lemma_rows_whole(s.skip(78));
        lemma_joined_front(s.take(78), rest);
        assert(s.take(78) + s.skip(78) =~= s);
    }
}

proof fn lemma_joined_front(first: Seq<char>, rest: Seq<Seq<char>>)
    requires
        rest.len() > 0,
    ensures
        crate::text::joined(seq![first] + rest, Seq::empty()) == first + crate::text::joined(
            rest,
            Seq::empty(),
        ),
    decreases rest.len(),
{
    let all = seq![first] + rest;
    let nothing = Seq::<char>::empty();
    if rest.len() == 1 {
        assert(all.drop_last() =~= seq![first]);
        assert(crate::text::joined(seq![first], nothing) == first);
        assert(first + nothing + rest[0] =~= first + rest[0]);
    } else {
        assert(all.drop_last() =~= seq![first] + rest.drop_last());
        lemma_joined_front(first, rest.drop_last());
        assert(all.last() == rest.last());
        let before = crate::text::joined(rest.drop_last(), nothing);
        assert((first + before) + nothing + rest.last() =~= first + (before + nothing
            + rest.last()));
    }
}

/// Breaking a line into rows loses nothing: the rows put together are the line,
/// with a dot for each character that cannot be shown.
pub proof fn law_rows_lose_nothing(line: Seq<char>)
    ensures
        crate::text::joined(line_rows(line), Seq::empty()) == line.map_values(|c: char| plain(c)),
{
    lemma_rows_whole(line.map_values(|c: char| plain(c)));
}

/// Every character of a line is shown in its place: the one with number `i` is in
/// row `i / 78`, at column `i % 78`. Printable ASCII, blanks among it, is shown as it
/// is, and any other character as a dot. All rows but the last are full, and an
/// empty line is an empty row.
pub proof fn law_rows_in_place(line: Seq<char>)
    ensures
        ({
            let rows = line_rows(line);
            let n = line.len() as int;
            &&& rows.len() == if n == 0 {
                1
            } else {
                (n + 77) / 78
            }
            &&& forall|k: int| 0 <= k < rows.len() - 1 ==> (#[trigger] rows[k]).len() == 78
            &&& rows.last().len() == n - 78 * (rows.len() - 1)
            &&& forall|i: int|
                0 <= i < n ==> #[trigger] rows[i / 78][i % 78] == if ' ' <= line[i] <= '~' {
                    line[i]
                } else {
                    '.'
                }
        }),
{
    let shown = line.map_values(|c: char| plain(c));
    lemma_rows_in_place(shown);
    let rows = line_rows(line);
    assert forall|i: int| 0 <= i < line.len() implies #[trigger] rows[i / 78][i % 78] == if ' '
        <= line[i] <= '~' {
        line[i]
    } else {
        '.'
    } by {
        assert(rows[i / 78][i % 78] == shown[i]);
    }
}

proof fn lemma_rows_in_place(s: Seq<char>)
    ensures
        ({
            let rows = rows_of(s);
            let n = s.len() as int;
            &&& rows.len() == if n == 0 {
                1
            } else {
                (n + 77) / 78
            }
            &&& forall|k: int| 0 <= k < rows.len() - 1 ==> (#[trigger] rows[k]).len() == 78
            &&& rows.last().len() == n - 78 * (rows.len() - 1)
            &&& forall|i: int| 0 <= i < n ==> #[trigger] rows[i / 78][i % 78] == s[i]
        }),
    decreases s.len(),
{
    let rows = rows_of(s);
    if s.len() > 78 {
        let rest = s.skip(78);
        lemma_rows_in_place(rest);
        let below = rows_of(rest);
        assert forall|k: int| 0 <= k < rows.len() - 1 implies (#[trigger] rows[k]).len() == 78 by {
            if k > 0 {
                assert(rows[k] == below[k - 1]);
            }
        }
        assert(rows.last() == below.last());
        assert forall|i: int| 0 <= i < s.len() implies #[trigger] rows[i / 78][i % 78] == s[i] by {
            if i >= 78 {
                let j = i - 78;
                assert(j / 78 == i / 78 - 1 && j % 78 == i % 78);
                assert(below[j / 78][j % 78] == rest[j]);
                assert(rows[i / 78] == below[j / 78]);
            } else {
                assert(i / 78 == 0 && i % 78 == i);
            }
        }
    } else {
        assert forall|i: int| 0 <= i < s.len() implies #[trigger] rows[i / 78][i % 78] == s[i] by {
            if i == 78 {
            } else {
                assert(i / 78 == 0 && i % 78 == i);
            }
        }
    }
}

/// A line of printable ASCII is shown unchanged: its rows put together are the line.
pub proof fn law_printable_unchanged(line: Seq<char>)
    requires
        forall|i: int| 0 <= i < line.len() ==> ' ' <= #[trigger] line[i] <= '~',
    ensures
        crate::text::joined(line_rows(line), Seq::empty()) == line,
{
    law_rows_lose_nothing(line);
    assert(line.map_values(|c: char| plain(c)) =~= line);
}

proof fn lemma_lines_rows_front(first: Seq<char>, rest: Seq<Seq<char>>)
    ensures
        lines_rows(seq![first] + rest) == line_rows(first) + lines_rows(rest),
    decreases rest.len(),
{
    let all = seq![first] + rest;
    if rest.len() == 0 {
        assert(all.drop_last() =~= Seq::empty());
        assert(all.last() == first);
        assert(lines_rows(all.drop_last()) =~= Seq::empty());
        assert(lines_rows(rest) =~= Seq::empty());
        assert(lines_rows(all) =~= line_rows(first) + lines_rows(rest));
    } else {
        lemma_lines_rows_front(first, rest.drop_last());
        assert(all.drop_last() =~= seq![first] + rest.drop_last());
        assert(all.last() == rest.last());
        assert(lines_rows(all) =~= line_rows(first) + lines_rows(rest));
    }
}

/// A page is shown line by line: first the rows of its first line, then those of
/// what follows it. Lines may end with a carriage return in front of the line feed,
/// and the last one may do without.
pub proof fn law_page_by_lines(line: Seq<char>, rest: Seq<char>)
    requires
        !line.contains('\n'),
    ensures
        line.len() == 0 || line.last() != '\r' ==> page_rows(line + seq!['\n'] + rest) == line_rows(
            line,
        ) + page_rows(rest),
        page_rows(line + seq!['\r', '\n'] + rest) == line_rows(line) + page_rows(rest),
        line.len() > 0 ==> page_rows(line) == line_rows(line),
        page_rows(Seq::empty()).len() == 0,
{
    crate::text::law_lines(line, rest);
    crate::text::law_lines(Seq::empty(), rest);
    lemma_lines_rows_front(line, text_lines(rest));
    lemma_lines_rows_front(line, Seq::empty());
    assert(line + seq!['\n'] + rest =~= line.push('\n') + rest);
    assert(line + seq!['\r', '\n'] + rest =~= line.push('\r').push('\n') + rest);
    assert(seq![line] + Seq::<Seq<char>>::empty() =~= seq![line]);
    assert(line_rows(line) + Seq::<Seq<char>>::empty() =~= line_rows(line));
}

// ---------- The viewer ----------

/// The viewer: whether it is shown, the address in its bar, the rows of its
/// body, how far the body is scrolled, the status line, and whether an answer is
/// awaited.
pub struct Browser {
    open: bool,
    url: String,
    lines: Vec<String>,
    scroll: usize,
    status: String,
    waiting: bool,
}

/// What the viewer is.
#[verifier::ext_equal]
pub struct BrowserModel {
    pub open: bool,
    pub url: Seq<char>,
    pub lines: Seq<Seq<char>>,
    pub scroll: nat,
    pub status: Seq<char>,
    pub waiting: bool,
}

impl View for Browser {
    type V = BrowserModel;

    closed spec fn view(&self) -> BrowserModel {
        BrowserModel {
            open: self.open,
            url: self.url@,
            lines: views(self.lines@),
            scroll: self.scroll as nat,
            status: self.status@,
            waiting: self.waiting,
        }
    }
}

impl Browser {
    /// A viewer that is not shown and has no page.
    pub fn new() -> (r: Browser)
        ensures
            r@ == (BrowserModel {
                open: false,
                url: Seq::empty(),
                lines: Seq::empty(),
                scroll: 0,
                status: Seq::empty(),
                waiting: false,
            }),
    {
        let r = Browser {
            open: false,
            url: String::new(),
            lines: Vec::new(),
            scroll: 0,
            status: String::new(),
            waiting: false,
        };
        assert(views(r.lines@) =~= Seq::empty());
        assert(r.url@ =~= Seq::empty());
        assert(r.status@ =~= Seq::empty());
        r
    }
}

/// Whether the viewer is shown.
pub fn is_open(b: &Browser) -> (r: bool)
    ensures
        r == b@.open,
{
    b.open
}

/// Stops showing the viewer. What is on the screen stays.
pub fn close(b: &mut Browser)
    ensures
        final(b)@ == (BrowserModel { open: false, ..old(b)@ }),
{
    b.open = false;
}

// ---------- Painting ----------

/// The cell at (`r`, `c`), which was `before`, once bytes were painted as they
/// are from (`row`, `col`) to the right, up to the column `end`.
pub open spec fn raw_lettered(
    before: ScreenChar,
    r: int,
    c: int,
    row: int,
    col: int,
    bytes: Seq<u8>,
    end: int,
    fg: Color,
    bg: Color,
) -> ScreenChar {
    if r == row && col <= c < col + bytes.len() && c < end {
        glyph(bytes[c - col], fg, bg)
    } else {
        before
    }
}

/// Paints bytes as they are from (`row`, `col`) to the right, up to the column
/// `end`.
fn paint_bytes(
    w: &mut Writer,
    row: usize,
    col: usize,
    bytes: &[u8],
    end: usize,
    fg: Color,
    bg: Color,
)
    requires
        end <= 80,
    ensures
        final(w)@.painted(old(w)@),
        forall|r: int, c: int| #![trigger final(w).at(r, c)]
            on_screen(r, c) ==> final(w).at(r, c) == raw_lettered(
                old(w).at(r, c),
                r,
                c,
                row as int,
                col as int,
                bytes@,
                end as int,
                fg,
                bg,
            ),
{
    proof {
        w.lemma_sized();
    }
    let ghost m = w@;
    let mut i: usize = 0;
    while i < bytes.len() && col < end && i < end - col
        invariant
            w@.painted(m),
            end <= 80,
            i <= bytes@.len(),
            col < end ==> col + i <= end,
            col >= end ==> i == 0,
            forall|r: int, c: int| #![trigger w.at(r, c)]
                on_screen(r, c) ==> w.at(r, c) == if r == row && col <= c < col + i {
                    glyph(bytes@[c - col], fg, bg)
                } else {
                    m.at(r, c)
                },
        decreases bytes.len() - i,
    {
        w.put_cell(row, col + i, bytes[i], fg, bg);
        i += 1;
    }
}

/// The address bar: a label, the address, and a mark behind it.
pub open spec fn url_bar_cell(before: ScreenChar, r: int, c: int, url: Seq<char>) -> ScreenChar {
    let bytes = encode_utf8(url);
    let mark: int = if 6 + bytes.len() < 78 {
        6 + bytes.len() as int
    } else {
        78
    };
    let a = filled(before, r, c, 4, 1, 1, 78, glyph(0x20, Color::White, Color::Blue));
    let b = raw_lettered(a, r, c, 4, 1, encode_utf8(" URL "@), 79, Color::Black, Color::Cyan);
    let d = raw_lettered(b, r, c, 4, 6, bytes, 79, Color::White, Color::Blue);
    dotted(d, r, c, 4, mark, glyph(0x5f, Color::Cyan, Color::Blue))
}

/// The line under the address bar.
pub open spec fn separator_cell(before: ScreenChar, r: int, c: int) -> ScreenChar {
    filled(before, r, c, 5, 1, 1, 78, glyph(0x2d, Color::DarkGray, Color::Black))
}

/// What the body says without a page.
pub open spec fn hint() -> Seq<char> {
    "(no page loaded — type URL above, press Enter to fetch)"@
}

/// The body: the rows from the scroll position on, or a hint where there are
/// none.
pub open spec fn body_cell(
    before: ScreenChar,
    r: int,
    c: int,
    lines: Seq<Seq<char>>,
    scroll: nat,
) -> ScreenChar {
    let a = filled(before, r, c, 6, 1, 15, 78, glyph(0x20, Color::LightGray, Color::Black));
    let k = r - 6 + scroll;
    if lines.len() == 0 {
        raw_lettered(a, r, c, 7, 3, encode_utf8(hint()), 79, Color::LightCyan, Color::Black)
    } else if 6 <= r <= 20 && k < lines.len() {
        raw_lettered(a, r, c, r, 1, encode_utf8(lines[k]), 79, Color::LightGray, Color::Black)
    } else {
        a
    }
}

/// The status line: a label and the status.
pub open spec fn status_cell(before: ScreenChar, r: int, c: int, status: Seq<char>) -> ScreenChar {
    let a = filled(before, r, c, 21, 1, 1, 78, glyph(0x20, Color::LightCyan, Color::DarkGray));
    let b = raw_lettered(
        a,
        r,
        c,
        21,
        1,
        encode_utf8("[browser] "@),
        79,
        Color::White,
        Color::DarkGray,
    );
    raw_lettered(b, r, c, 21, 11, encode_utf8(status), 79, Color::LightCyan, Color::DarkGray)
}

/// Which parts of the viewer are painted.
pub struct Parts {
    pub url_bar: bool,
    pub separator: bool,
    pub body: bool,
    pub status: bool,
}

/// The cell at (`r`, `c`), which was `before`, once the parts were painted.
pub open spec fn part_cell(
    before: ScreenChar,
    r: int,
    c: int,
    b: BrowserModel,
    parts: Parts,
) -> ScreenChar {
    if r == 4 && parts.url_bar {
        url_bar_cell(before, r, c, b.url)
    } else if r == 5 && parts.separator {
        separator_cell(before, r, c)
    } else if 6 <= r <= 20 && parts.body {
        body_cell(before, r, c, b.lines, b.scroll)
    } else if r == 21 && parts.status {
        status_cell(before, r, c, b.status)
    } else {
        before
    }
}

/// The screen `m1` is `m0` with the parts of the viewer painted on it.
pub open spec fn shows(m0: WriterModel, m1: WriterModel, b: BrowserModel, parts: Parts) -> bool {
    &&& m1.painted(m0)
    &&& forall|r: int, c: int|
        on_screen(r, c) ==> #[trigger] m1.at(r, c) == part_cell(m0.at(r, c), r, c, b, parts)
}

fn paint_url_bar(b: &Browser, w: &mut Writer)
    ensures
        final(w)@.painted(old(w)@),
        forall|r: int, c: int| #![trigger final(w).at(r, c)]
            on_screen(r, c) ==> final(w).at(r, c) == url_bar_cell(old(w).at(r, c), r, c, b@.url),
{
    w.fill_rect(URL_BAR_ROW, BODY_LEFT, 1, BODY_WIDTH, 0x20, Color::White, Color::Blue);
    let label = " URL ";
    proof {
        reveal_strlit(" URL ");
        vstd::utf8::is_ascii_chars_encode_utf8(label@);
    }
    paint_bytes(
        w,
        URL_BAR_ROW,
        BODY_LEFT,
        label.as_bytes(),
        BODY_LEFT + BODY_WIDTH,
        Color::Black,
        Color::Cyan,
    );
    let start: usize = BODY_LEFT + label.len();
    let bytes = b.url.as_str().as_bytes();
    paint_bytes(w, URL_BAR_ROW, start, bytes, BODY_LEFT + BODY_WIDTH, Color::White, Color::Blue);
    let last: usize = BODY_LEFT + BODY_WIDTH - 1;
    let cursor_col: usize = if bytes.len() < last - start {
        start + bytes.len()
    } else {
        last
    };
    w.put_cell(URL_BAR_ROW, cursor_col, 0x5f, Color::Cyan, Color::Blue);
}

fn paint_separator(w: &mut Writer)
    ensures
        final(w)@.painted(old(w)@),
        forall|r: int, c: int| #![trigger final(w).at(r, c)]
            on_screen(r, c) ==> final(w).at(r, c) == separator_cell(old(w).at(r, c), r, c),
{
    w.fill_rect(SEP_ROW, BODY_LEFT, 1, BODY_WIDTH, 0x2d, Color::DarkGray, Color::Black);
}

fn paint_body(b: &Browser, w: &mut Writer)
    ensures
        final(w)@.painted(old(w)@),
        forall|r: int, c: int| #![trigger final(w).at(r, c)]
            on_screen(r, c) ==> final(w).at(r, c) == body_cell(
                old(w).at(r, c),
                r,
                c,
                b@.lines,
                b@.scroll,
            ),
{
    let ghost m0 = w@;
    w.fill_rect(BODY_TOP, BODY_LEFT, 15, BODY_WIDTH, 0x20, Color::LightGray, Color::Black);
    let ghost m1 = w@;
    assert forall|r: int, c: int| on_screen(r, c) implies #[trigger] m1.at(r, c) == filled(
        m0.at(r, c),
        r,
        c,
        6,
        1,
        15,
        78,
        glyph(0x20, Color::LightGray, Color::Black),
    ) by {
        assert(w.at(r, c) == m1.at(r, c));
    }
    let mut row: usize = BODY_TOP;
    let ghost lines = views(b.lines@);
    while row <= BODY_BOT && b.scroll < b.lines.len() && row - BODY_TOP < b.lines.len() - b.scroll
        invariant
            w@.painted(m0),
            6 <= row <= 21,
            lines == views(b.lines@),
            b.scroll >= lines.len() ==> row == 6,
            b.scroll < lines.len() ==> row - 6 + b.scroll <= lines.len(),
            forall|r: int, c: int| #![trigger w.at(r, c)]
                on_screen(r, c) ==> w.at(r, c) == if 6 <= r < row {
                    raw_lettered(
                        m1.at(r, c),
                        r,
                        c,
                        r,
                        1,
                        encode_utf8(lines[r - 6 + b.scroll]),
                        79,
                        Color::LightGray,
                        Color::Black,
                    )
                } else {
                    m1.at(r, c)
                },
        decreases 21 - row,
    {
        let k: usize = b.scroll + (row - BODY_TOP);
        assert(lines[k as int] == b.lines@[k as int]@);
        paint_bytes(
            w,
            row,
            BODY_LEFT,
            b.lines[k].as_str().as_bytes(),
            BODY_LEFT + BODY_WIDTH,
            Color::LightGray,
            Color::Black,
        );
        row += 1;
    }
    if b.lines.len() == 0 {
        let text = "(no page loaded — type URL above, press Enter to fetch)";
        paint_bytes(
            w,
            BODY_TOP + 1,
            BODY_LEFT + 2,
            text.as_bytes(),
            BODY_LEFT + BODY_WIDTH,
            Color::LightCyan,
            Color::Black,
        );
    }
}

fn paint_status_bar(b: &Browser, w: &mut Writer)
    ensures
        final(w)@.painted(old(w)@),
        forall|r: int, c: int| #![trigger final(w).at(r, c)]
            on_screen(r, c) ==> final(w).at(r, c) == status_cell(old(w).at(r, c), r, c, b@.status),
{
    w.fill_rect(STATUS_ROW, BODY_LEFT, 1, BODY_WIDTH, 0x20, Color::LightCyan, Color::DarkGray);
    let prefix = "[browser] ";
    proof {
        reveal_strlit("[browser] ");
        vstd::utf8::is_ascii_chars_encode_utf8(prefix@);
    }
    paint_bytes(
        w,
        STATUS_ROW,
        BODY_LEFT,
        prefix.as_bytes(),
        BODY_LEFT + BODY_WIDTH,
        Color::White,
        Color::DarkGray,
    );
    paint_bytes(
        w,
        STATUS_ROW,
        BODY_LEFT + prefix.len(),
        b.status.as_str().as_bytes(),
        BODY_LEFT + BODY_WIDTH,
        Color::LightCyan,
        Color::DarkGray,
    );
}

// ---------- Opening and keys ----------

/// The address that the bar has at first.
pub open spec fn default_url() -> Seq<char> {
    "http://10.0.2.2:8080/hello.txt"@
}

/// Where the link stands.
pub open spec fn link_of(s: Option<StackModel>) -> LinkState {
    match s {
        Some(m) => m.link,
        None => LinkState::NoNic,
    }
}

/// Where the HTTP client stands.
pub open spec fn http_of(s: Option<StackModel>) -> HttpModel {
    match s {
        Some(m) => m.http,
        None => HttpModel::Idle,
    }
}

/// All parts of the viewer.
pub open spec fn all_parts() -> Parts {
    Parts { url_bar: true, separator: true, body: true, status: true }
}

/// No part of the viewer.
pub open spec fn no_parts() -> Parts {
    Parts { url_bar: false, separator: false, body: false, status: false }
}

/// The address bar alone.
pub open spec fn bar_only() -> Parts {
    Parts { url_bar: true, ..no_parts() }
}

/// The status line alone.
pub open spec fn status_only() -> Parts {
    Parts { status: true, ..no_parts() }
}

/// Shows the viewer: the bar has an address, the status line tells of the link,
/// and all of it is painted.
pub fn open(b: &mut Browser, stack: &Option<Stack>, w: &mut Writer)
    ensures
        final(b)@ == (BrowserModel {
            open: true,
            url: if old(b)@.url.len() == 0 {
                default_url()
            } else {
                old(b)@.url
            },
            status: link_text(link_of(model_of(*stack))),
            ..old(b)@
        }),
        shows(old(w)@, final(w)@, final(b)@, all_parts()),
{
    if b.url.as_str().is_empty() {
        b.url = "http://10.0.2.2:8080/hello.txt".to_owned();
    }
    b.status = link_status_line(&link_state(stack));
    b.open = true;
    paint_full(b, w);
}

fn paint_full(b: &Browser, w: &mut Writer)
    ensures
        shows(old(w)@, final(w)@, b@, all_parts()),
{
    let ghost m0 = w@;
    paint_url_bar(b, w);
    paint_separator(w);
    paint_body(b, w);
    paint_status_bar(b, w);
    assert forall|r: int, c: int| on_screen(r, c) implies #[trigger] w@.at(r, c) == part_cell(
        m0.at(r, c),
        r,
        c,
        b@,
        all_parts(),
    ) by {
        assert(w.at(r, c) == w@.at(r, c));
    }
}

/// The address that a host is written as, if it is one.
pub open spec fn named_address(host: Seq<char>) -> Option<Ipv4Address> {
    if exists|ip: Ipv4Address| host == #[trigger] ipv4_text(ip) {
        Some(choose|ip: Ipv4Address| host == #[trigger] ipv4_text(ip))
    } else {
        None
    }
}

/// What asking for the page in the bar comes to.
pub enum Kick {
    /// The address cannot be read.
    BadUrl,
    /// The host is not written as an address.
    NeedsDns,
    /// The client refused the request.
    Refused(Seq<char>),
    /// The client took the request.
    Taken(RequestModel),
}

/// What asking for the page in the bar comes to.
pub open spec fn kick_of(url: Seq<char>, s: Option<StackModel>) -> Kick {
    match url_parts(url) {
        None => Kick::BadUrl,
        Some(parts) => match named_address(parts.0) {
            None => Kick::NeedsDns,
            Some(ip) => match get_check(reset_model(s)) {
                Err(text) => Kick::Refused(text),
                Ok(_) => Kick::Taken(
                    RequestModel { host: parts.0, ip, port: parts.1, path: parts.2 },
                ),
            },
        },
    }
}

/// The stack after a reset of its client.
pub open spec fn reset_model(s: Option<StackModel>) -> Option<StackModel> {
    match s {
        Some(m) => Some(http_cleared(m)),
        None => None,
    }
}

/// The viewer after the page in its bar was asked for.
pub open spec fn kicked(b: BrowserModel, s: Option<StackModel>) -> BrowserModel {
    match kick_of(b.url, s) {
        Kick::BadUrl => BrowserModel {
            status: "bad URL — use http://IP[:port]/path"@,
            ..b
        },
        Kick::NeedsDns => BrowserModel {
            status: "hostname needs DNS (not wired). use the dotted-quad IP for now."@,
            ..b
        },
        Kick::Refused(text) => BrowserModel { status: text, ..b },
        Kick::Taken(_) => BrowserModel {
            waiting: true,
            lines: Seq::empty(),
            scroll: 0,
            status: "connecting..."@,
            ..b
        },
    }
}

/// The stack after the page was asked for. Whatever request there was is given
/// up as soon as the address is one that can be asked.
pub open spec fn kicked_stack(url: Seq<char>, s: Option<StackModel>) -> Option<StackModel> {
    match kick_of(url, s) {
        Kick::BadUrl => s,
        Kick::NeedsDns => s,
        Kick::Refused(_) => reset_model(s),
        Kick::Taken(req) => Some(requested(reset_model(s)->0, req)),
    }
}

/// The parts that are painted when the page was asked for.
pub open spec fn kicked_parts(url: Seq<char>, s: Option<StackModel>) -> Parts {
    match kick_of(url, s) {
        Kick::Taken(_) => Parts { body: true, status: true, ..no_parts() },
        _ => status_only(),
    }
}

/// Asks for the page in the bar.
fn kick_request(b: &mut Browser, stack: &mut Option<Stack>, w: &mut Writer)
    requires
        *old(stack) matches Some(s) ==> s.wf(),
    ensures
        *final(stack) matches Some(s) ==> s.wf(),
        final(b)@ == kicked(old(b)@, model_of(*old(stack))),
        model_of(*final(stack)) == kicked_stack(old(b)@.url, model_of(*old(stack))),
        shows(
            old(w)@,
            final(w)@,
            final(b)@,
            kicked_parts(old(b)@.url, model_of(*old(stack))),
        ),
{
    let (host, port, path) = match parse_url(b.url.as_str()) {
        None => {
            b.status = "bad URL — use http://IP[:port]/path".to_owned();
            show_status(b, w);
            return;
        },
        Some(parts) => parts,
    };
    let ip = match parse_ipv4(host.as_str()) {
        None => {
            b.status = "hostname needs DNS (not wired). use the dotted-quad IP for now.".to_owned();
            show_status(b, w);
            return;
        },
        Some(ip) => ip,
    };
    proof {
        let named = choose|x: Ipv4Address| host@ == #[trigger] ipv4_text(x);
        assert(host@ == ipv4_text(ip));
        law_ipv4_text_unique(named, ip);
    }
    http_reset(stack);
    match http_get(stack, host.as_str(), ip, port, path.as_str()) {
        Ok(_) => {
            b.waiting = true;
            b.lines = Vec::new();
            b.scroll = 0;
            b.status = "connecting...".to_owned();
            assert(views(b.lines@) =~= Seq::empty());
            let ghost m0 = w@;
            paint_body(b, w);
            paint_status_bar(b, w);
            assert forall|r: int, c: int| on_screen(r, c) implies #[trigger] w@.at(r, c)
                == part_cell(
                m0.at(r, c),
                r,
                c,
                b@,
                (Parts { body: true, status: true, ..no_parts() }),
            ) by {
                assert(w.at(r, c) == w@.at(r, c));
            }
        },
        Err(e) => {
            b.status = e.to_owned();
            show_status(b, w);
        },
    }
}

fn show_status(b: &Browser, w: &mut Writer)
    ensures
        shows(old(w)@, final(w)@, b@, status_only()),
{
    let ghost m0 = w@;
    paint_status_bar(b, w);
    assert forall|r: int, c: int| on_screen(r, c) implies #[trigger] w@.at(r, c) == part_cell(
        m0.at(r, c),
        r,
        c,
        b@,
        status_only(),
    ) by {
        assert(w.at(r, c) == w@.at(r, c));
    }
}

fn show_url(b: &Browser, w: &mut Writer)
    ensures
        shows(old(w)@, final(w)@, b@, bar_only()),
{
    let ghost m0 = w@;
    paint_url_bar(b, w);
    assert forall|r: int, c: int| on_screen(r, c) implies #[trigger] w@.at(r, c) == part_cell(
        m0.at(r, c),
        r,
        c,
        b@,
        bar_only(),
    ) by {
        assert(w.at(r, c) == w@.at(r, c));
    }
}

/// What a key does to the viewer.
pub enum Key {
    /// Closes it.
    Close,
    /// Asks for the page.
    Fetch,
    /// Changes the address.
    Edit(Seq<char>),
    /// Nothing.
    Ignore,
}

/// What a key does to the viewer. The address grows only while its text is
/// shorter than 74 bytes.
pub open spec fn key_of(c: char, url: Seq<char>) -> Key {
    if c == '\u{1b}' {
        Key::Close
    } else if c == '\n' {
        Key::Fetch
    } else if c == '\u{8}' {
        Key::Edit(
            if url.len() > 0 {
                url.drop_last()
            } else {
                url
            },
        )
    } else if ' ' <= c <= '~' {
        Key::Edit(
            if encode_utf8(url).len() < 74 {
                url.push(c)
            } else {
                url
            },
        )
    } else {
        Key::Ignore
    }
}

/// Takes a key while the viewer is shown. Returns whether the key was taken:
/// every key is while it is shown, and none while it is not.
pub fn handle_char(
    b: &mut Browser,
    stack: &mut Option<Stack>,
    w: &mut Writer,
    c: char,
) -> (r: bool)
    requires
        *old(stack) matches Some(s) ==> s.wf(),
    ensures
        *final(stack) matches Some(s) ==> s.wf(),
        r == old(b)@.open,
        !old(b)@.open ==> final(b)@ == old(b)@ && model_of(*final(stack)) == model_of(*old(stack))
            && final(w)@ == old(w)@,
        old(b)@.open ==> match key_of(c, old(b)@.url) {
            Key::Close => {
                &&& final(b)@ == (BrowserModel { open: false, ..old(b)@ })
                &&& model_of(*final(stack)) == model_of(*old(stack))
                &&& final(w)@ == old(w)@
            },
            Key::Fetch => {
                &&& final(b)@ == kicked(old(b)@, model_of(*old(stack)))
                &&& model_of(*final(stack)) == kicked_stack(old(b)@.url, model_of(*old(stack)))
                &&& shows(
                    old(w)@,
                    final(w)@,
                    final(b)@,
                    kicked_parts(old(b)@.url, model_of(*old(stack))),
                )
            },
            Key::Edit(url) => {
                &&& final(b)@ == (BrowserModel { url, ..old(b)@ })
                &&& model_of(*final(stack)) == model_of(*old(stack))
                &&& shows(old(w)@, final(w)@, final(b)@, bar_only())
            },
            Key::Ignore => {
                &&& final(b)@ == old(b)@
                &&& model_of(*final(stack)) == model_of(*old(stack))
                &&& final(w)@ == old(w)@
            },
        },
{
    if !b.open {
        return false;
    }
    if c == '\u{1b}' {
        close(b);
    } else if c == '\n' {
        kick_request(b, stack, w);
    } else if c == '\u{8}' {
        let _gone = b.url.pop();
        show_url(b, w);
    } else if c >= ' ' && c <= '~' {
        if b.url.as_str().as_bytes().len() < 74 {
            b.url.push(c);
        }
        show_url(b, w);
    }
    true
}

/// Whether two lists of strings hold the same characters.
fn same_lines(a: &Vec<String>, b: &Vec<String>) -> (r: bool)
    ensures
        r == (views(a@) == views(b@)),
{
    if a.len() != b.len() {
        assert(views(a@).len() != views(b@).len());
        return false;
    }
    let mut i: usize = 0;
    while i < a.len()
        invariant
            i <= a@.len(),
            a@.len() == b@.len(),
            forall|j: int| 0 <= j < i ==> (#[trigger] a@[j])@ == b@[j]@,
        decreases a.len() - i,
    {
        if !same_text(a[i].as_str(), b[i].as_str()) {
            assert(views(a@)[i as int] != views(b@)[i as int]);
            return false;
        }
        i += 1;
    }
    assert(views(a@) =~= views(b@));
    true
}

/// The viewer after it looked at the client.
pub open spec fn ticked(b: BrowserModel, s: Option<StackModel>) -> BrowserModel {
    BrowserModel {
        status: status_text(http_of(s), link_of(s)),
        lines: body_rows(http_of(s)),
        waiting: b.waiting && !(http_of(s) is Done || http_of(s) is Error),
        ..b
    }
}

/// The parts that changed: the status line whenever its text did, the body when
/// its rows did while an answer was awaited.
pub open spec fn ticked_parts(b: BrowserModel, s: Option<StackModel>) -> Parts {
    Parts {
        status: ticked(b, s).status != b.status,
        body: b.waiting && ticked(b, s).lines != b.lines,
        ..no_parts()
    }
}

/// Looks at the client and repaints what changed. Returns whether anything was
/// painted. Nothing happens while the viewer is not shown.
pub fn tick(b: &mut Browser, stack: &Option<Stack>, w: &mut Writer) -> (r: bool)
    ensures
        !old(b)@.open ==> !r && final(b)@ == old(b)@ && final(w)@ == old(w)@,
        old(b)@.open ==> {
            let parts = ticked_parts(old(b)@, model_of(*stack));
            &&& final(b)@ == ticked(old(b)@, model_of(*stack))
            &&& shows(old(w)@, final(w)@, final(b)@, parts)
            &&& r == (parts.status || parts.body)
        },
{
    if !b.open {
        return false;
    }
    let http = http_state(stack);
    let new_status = build_status_line(&http, &link_state(stack));
    let new_lines = build_body_lines(&http);
    let status_changed = !same_text(new_status.as_str(), b.status.as_str());
    let lines_changed = !same_lines(&new_lines, &b.lines);
    let awaited = b.waiting;
    b.status = new_status;
    b.lines = new_lines;
    let done = match &http {
        HttpState::Done { status: _, body: _ } => true,
        HttpState::Error(_) => true,
        _ => false,
    };
    if awaited && done {
        b.waiting = false;
    }
    let ghost m0 = w@;
    proof {
        w.lemma_sized();
    }
    if status_changed {
        paint_status_bar(b, w);
    }
    if awaited && lines_changed {
        paint_body(b, w);
    }
    let ghost parts = ticked_parts(old(b)@, model_of(*stack));
    assert forall|r: int, c: int| on_screen(r, c) implies #[trigger] w@.at(r, c) == part_cell(
        m0.at(r, c),
        r,
        c,
        b@,
        parts,
    ) by {
        assert(w.at(r, c) == w@.at(r, c));
    }
    status_changed || (awaited && lines_changed)
}

/// Painting the viewer changes nothing outside its rows and columns.
pub proof fn law_viewer_stays_inside(
    m0: WriterModel,
    m1: WriterModel,
    b: BrowserModel,
    parts: Parts,
    r: int,
    c: int,
)
    requires
        shows(m0, m1, b, parts),
        on_screen(r, c),
        !(4 <= r <= 21 && 1 <= c <= 78),
    ensures
        m1.at(r, c) == m0.at(r, c),
{
}

/// No key makes the address longer than 74 bytes, so that it fits into its bar.
pub proof fn law_url_fits(c: char, url: Seq<char>)
    requires
        encode_utf8(url).len() <= 74,
    ensures
        key_of(c, url) matches Key::Edit(next) ==> encode_utf8(next).len() <= 74,
{
    if c == '\u{8}' && url.len() > 0 {
        lemma_encode_concat(url.drop_last(), seq![url.last()]);
        assert(url.drop_last() + seq![url.last()] =~= url);
    } else if ' ' <= c <= '~' {
        lemma_encode_concat(url, seq![c]);
        assert(url + seq![c] =~= url.push(c));
        vstd::utf8::is_ascii_chars_encode_utf8(seq![c]);
    }
}

proof fn lemma_place(a: Seq<char>, c: char, b: Seq<char>)
    requires
        !a.contains(c),
    ensures
        place_of(a, c) == a.len(),
        place_of(a + seq![c] + b, c) == a.len(),
    decreases a.len(),
{
    let s = a + seq![c] + b;
    if a.len() == 0 {
        assert(s[0] == c);
    } else {
        let rest = a.skip(1);
        assert forall|i: int| 0 <= i < rest.len() implies rest[i] != c by {
            assert(a.contains(a[i + 1]));
        }
        lemma_place(rest, c, b);
        assert(a.contains(a[0]));
        assert(s[0] == a[0]);
        assert(s.skip(1) =~= rest + seq![c] + b);
    }
}

/// What an address without white space around it means, scheme by scheme.
proof fn lemma_url(scheme: bool, t: Seq<char>)
    requires
        t.len() > 0,
        !is_space(t[0]),
        !is_space(t.last()),
        !scheme ==> !has_prefix(t, "http://"@) && !has_prefix(t, "https://"@),
    ensures
        url_parts(
            if scheme {
                "http://"@ + t
            } else {
                t
            },
        ) == ({
            let slash = place_of(t, '/');
            let place = t.take(slash);
            let path = if slash < t.len() {
                t.skip(slash)
            } else {
                seq!['/']
            };
            let colon = place_of(place, ':');
            let port = if colon < place.len() {
                parsed_u16(place.skip(colon + 1))
            } else {
                Some(80u16)
            };
            match port {
                Some(p) if place.take(colon).len() > 0 => Some((place.take(colon), p, path)),
                _ => None,
            }
        }),
{
    let none = Seq::<char>::empty();
    reveal_strlit("http://");
    if scheme {
        let all = "http://"@ + t;
        assert(all[0] == 'h' && all.last() == t.last());
        crate::text::law_trimmed(none, all, none);
        assert(none + all + none =~= all);
        assert(all.take(7) =~= "http://"@);
        assert(all.skip(7) =~= t);
    } else {
        crate::text::law_trimmed(none, t, none);
        assert(none + t + none =~= t);
    }
}

/// What an address made of a place and a path means.
proof fn lemma_url_place(scheme: bool, place: Seq<char>, path: Seq<char>)
    requires
        place.len() > 0,
        !place.contains('/'),
        !is_space(place[0]),
        !is_space(place.last()),
        path.len() == 0 || path[0] == '/' && !is_space(path.last()),
        !scheme ==> !has_prefix(place + path, "http://"@) && !has_prefix(
            place + path,
            "https://"@,
        ),
    ensures
        url_parts(
            if scheme {
                "http://"@ + (place + path)
            } else {
                place + path
            },
        ) == ({
            let colon = place_of(place, ':');
            let port = if colon < place.len() {
                parsed_u16(place.skip(colon + 1))
            } else {
                Some(80u16)
            };
            match port {
                Some(p) if place.take(colon).len() > 0 => Some(
                    (
                        place.take(colon),
                        p,
                        if path.len() > 0 {
                            path
                        } else {
                            seq!['/']
                        },
                    ),
                ),
                _ => None,
            }
        }),
{
    let t = place + path;
    assert(t[0] == place[0]);
    assert(t.last() == if path.len() > 0 {
        path.last()
    } else {
        place.last()
    });
    lemma_url(scheme, t);
    if path.len() > 0 {
        assert(t =~= place + seq!['/'] + path.skip(1));
        lemma_place(place, '/', path.skip(1));
        assert(t.skip(place.len() as int) =~= path);
    } else {
        assert(t =~= place);
        lemma_place(place, '/', Seq::empty());
    }
    assert(t.take(place.len() as int) =~= place);
}

/// An address is read part by part: the host up to a colon or a slash, the port
/// behind the colon, 80 where there is none, and the path from the slash on, which
/// is the root where there is none. The scheme in front may be left out.
pub proof fn law_url_read(scheme: bool, host: Seq<char>, port: nat, path: Seq<char>)
    requires
        host.len() > 0,
        !host.contains('/'),
        !host.contains(':'),
        !is_space(host[0]),
        !is_space(host.last()),
        port < 65536,
        path.len() == 0 || path[0] == '/' && !is_space(path.last()),
    ensures
        ({
            let front = if scheme {
                "http://"@
            } else {
                Seq::empty()
            };
            let end = if path.len() > 0 {
                path
            } else {
                seq!['/']
            };
            &&& url_parts(front + (host + seq![':'] + decimal(port) + path)) == Some(
                (host, port as u16, end),
            )
            &&& url_parts(front + (host + path)) == Some((host, 80u16, end))
        }),
{
    lemma_url_with_port(scheme, host, port, path);
    let none = Seq::<char>::empty();
    lemma_no_scheme(host, path);
    lemma_url_place(scheme, host, path);
    lemma_place(host, ':', none);
    assert(host.take(host.len() as int) =~= host);
    assert(none + (host + path) =~= host + path);
}

/// An address with a port is read part by part.
proof fn lemma_url_with_port(scheme: bool, host: Seq<char>, port: nat, path: Seq<char>)
    requires
        host.len() > 0,
        !host.contains('/'),
        !host.contains(':'),
        !is_space(host[0]),
        port < 65536,
        path.len() == 0 || path[0] == '/' && !is_space(path.last()),
    ensures
        url_parts(
            (if scheme {
                "http://"@
            } else {
                Seq::empty()
            }) + (host + seq![':'] + decimal(port) + path),
        ) == Some(
            (
                host,
                port as u16,
                if path.len() > 0 {
                    path
                } else {
                    seq!['/']
                },
            ),
        ),
{
    let none = Seq::<char>::empty();
    let digits = decimal(port);
    law_decimal_digits(port);
    lemma_decimal_ascii(port);
    crate::text::law_parse_number(port, digits, 0);
    let place = host + seq![':'] + digits;
    let t = place + path;
    assert('0' <= digits[digits.len() - 1] <= '9');
    assert('0' <= digits[0] <= '9');
    let rest = seq![':'] + digits + path;
    assert(rest[0] == ':' && rest[1] == digits[0]);
    lemma_no_scheme(host, rest);
    assert(t =~= host + rest);
    assert(place.last() == digits.last());
    law_space(digits.last());
    assert forall|i: int| 0 <= i < place.len() implies place[i] != '/' by {
        if i < host.len() {
            assert(host.contains(host[i]));
        } else if i > host.len() {
            assert(place[i] == digits[i - host.len() - 1]);
        }
    }
    lemma_url_place(scheme, place, path);
    lemma_place(host, ':', digits);
    assert(place.take(host.len() as int) =~= host);
    assert(place.skip(host.len() as int + 1) =~= digits);
    assert(none + t =~= t);
}

/// A host without slashes and colons, with anything but `://` behind it, is not a
/// scheme.
proof fn lemma_no_scheme(host: Seq<char>, rest: Seq<char>)
    requires
        host.len() > 0,
        !host.contains('/'),
        !host.contains(':'),
        rest.len() == 0 || rest[0] == '/' || rest.len() >= 2 && rest[0] == ':' && rest[1] != '/',
    ensures
        !has_prefix(host + rest, "http://"@),
        !has_prefix(host + rest, "https://"@),
{
    reveal_strlit("http://");
    reveal_strlit("https://");
    let t = host + rest;
    let n = host.len() as int;
    assert forall|i: int| 0 <= i < n implies t[i] != '/' && t[i] != ':' by {
        assert(host.contains(host[i]));
    }
    if rest.len() > 0 {
        assert(t[n] == rest[0]);
    }
    if rest.len() > 1 {
        assert(t[n + 1] == rest[1]);
    }
    if has_prefix(t, "http://"@) {
        let p = t.take(7);
        assert(p[0] == t[0] && p[1] == t[1] && p[2] == t[2] && p[3] == t[3] && p[4] == t[4] && p[5]
            == t[5]);
        assert(n <= 4);
        assert(n == 4);
    }
    if has_prefix(t, "https://"@) {
        let p = t.take(8);
        assert(p[0] == t[0] && p[1] == t[1] && p[2] == t[2] && p[3] == t[3] && p[4] == t[4] && p[5]
            == t[5] && p[6] == t[6]);
        assert(n <= 5);
        assert(n == 5);
    }
}

/// White space around an address does not count.
pub proof fn law_url_trimmed(a: Seq<char>, t: Seq<char>, b: Seq<char>)
    requires
        forall|i: int| 0 <= i < a.len() ==> is_space(#[trigger] a[i]),
        forall|i: int| 0 <= i < b.len() ==> is_space(#[trigger] b[i]),
        t.len() > 0,
        !is_space(t[0]),
        !is_space(t.last()),
    ensures
        url_parts(a + t + b) == url_parts(t),
{
    let none = Seq::<char>::empty();
    crate::text::law_trimmed(a, t, b);
    crate::text::law_trimmed(none, t, none);
    assert(none + t + none =~= t);
}

/// What is not an address of a page is refused: another scheme, no host, and a port
/// that is not a number of 16 bits.
pub proof fn law_url_refused(host: Seq<char>, port: Seq<char>, path: Seq<char>)
    requires
        !host.contains('/'),
        !host.contains(':'),
        !port.contains('/'),
        path.len() > 0,
        path[0] == '/',
        !is_space(path.last()),
    ensures
        url_parts("https://"@ + path) is None,
        url_parts("http://"@ + path) is None,
        parsed_u16(port) is None && host.len() > 0 && !is_space(host[0]) ==> url_parts(
            "http://"@ + (host + seq![':'] + port + path),
        ) is None,
{
    let none = Seq::<char>::empty();
    reveal_strlit("http://");
    reveal_strlit("https://");
    let secure = "https://"@ + path;
    assert(secure[0] == 'h' && secure.last() == path.last());
    crate::text::law_trimmed(none, secure, none);
    assert(none + secure + none =~= secure);
    assert(secure.take(8) =~= "https://"@);
    assert(secure.take(7)[4] == 's');
    assert("http://"@[4] == ':');
    assert(!has_prefix(secure, "http://"@));
    assert(seq!['/'] + path.skip(1) =~= path);
    law_space('/');
    lemma_url(true, path);
    lemma_place(none, '/', path.skip(1));
    assert(none + seq!['/'] + path.skip(1) =~= path);
    lemma_place(none, ':', none);
    assert(path.take(0) =~= none);
    if parsed_u16(port) is None && host.len() > 0 && !is_space(host[0]) {
        let place = host + seq![':'] + port;
        let t = place + path;
        assert(host + seq![':'] + port + path =~= t);
        assert(t[0] == host[0] && t.last() == path.last());
        lemma_url(true, t);
        assert(!place.contains('/')) by {
            assert forall|i: int| 0 <= i < place.len() implies place[i] != '/' by {
                if i < host.len() {
                    assert(host.contains(host[i]));
                } else if i > host.len() {
                    assert(place[i] == port[i - host.len() - 1]);
                    assert(port.contains(port[i - host.len() - 1]));
                }
            }
        }
        lemma_place(place, '/', path.skip(1));
        assert(t =~= place + seq!['/'] + path.skip(1));
        assert(t.take(place.len() as int) =~= place);
        lemma_place(host, ':', port);
        assert(place.skip(host.len() as int + 1) =~= port);
    }
}

/// Enter on the address of a page by number asks that host, at that port, for that
/// path, whenever there is a lease; a host that is not written as a number is not
/// looked up.
pub proof fn law_fetch(ip: Ipv4Address, port: nat, path: Seq<char>, s: Option<StackModel>)
    requires
        port < 65536,
        path.len() > 0,
        path[0] == '/',
        !is_space(path.last()),
    ensures
        ({
            let url = "http://"@ + (ipv4_text(ip) + seq![':'] + decimal(port) + path);
            match s {
                Some(m) => if m.link is Up {
                    kick_of(url, s) == Kick::Taken(
                        RequestModel { host: ipv4_text(ip), ip, port: port as u16, path },
                    )
                } else {
                    kick_of(url, s) is Refused
                },
                None => kick_of(url, s) is Refused,
            }
        }),
{
    let host = ipv4_text(ip);
    crate::net::law_ipv4_text(ip);
    law_url_read(true, host, port, path);
    let named = choose|x: Ipv4Address| host == #[trigger] ipv4_text(x);
    law_ipv4_text_unique(named, ip);
}

/// While the viewer is shown, a printable key is added to an address with room for
/// it and backspace takes it away again, enter asks for the page, escape closes, and
/// backspace on an empty address leaves it empty.
pub proof fn law_keys(c: char, url: Seq<char>)
    requires
        vstd::utf8::is_ascii_chars(url),
    ensures
        ' ' <= c <= '~' && url.len() < 74 ==> key_of(c, url) == Key::Edit(url.push(c)) && key_of(
            '\u{8}',
            url.push(c),
        ) == Key::Edit(url),
        ' ' <= c <= '~' && url.len() >= 74 ==> key_of(c, url) == Key::Edit(url),
        key_of('\n', url) is Fetch,
        key_of('\u{1b}', url) is Close,
        key_of('\u{8}', Seq::empty()) == Key::Edit(Seq::empty()),
{
    vstd::utf8::is_ascii_chars_encode_utf8(url);
    assert(url.push(c).drop_last() =~= url);
}

/// The status line gives the code and the number of bytes of a page that is there,
/// the number of bytes of one that is on its way, the host that is being connected
/// to, and what went wrong, each as it is and where it belongs.
pub proof fn law_status_line(
    code: u16,
    body: Seq<u8>,
    bytes: nat,
    text: Seq<char>,
    link: LinkState,
)
    ensures
        ({
            let done = status_text(HttpModel::Done(code, body), link);
            let k = decimal(code as nat).len() as int;
            &&& done.subrange(11, 11 + k) == decimal(code as nat)
            &&& done.len() == 29 + k + decimal(body.len()).len()
            &&& done.subrange(14 + k, 14 + k + decimal(body.len()).len() as int) == decimal(body.len())
            &&& done[10] == ' ' && done[11 + k] == ' ' && done[13 + k] == ' '
        }),
        status_text(HttpModel::Receiving(bytes), link).subrange(13, 13 + decimal(bytes).len() as int)
            == decimal(bytes),
        status_text(HttpModel::Receiving(bytes), link).len() == 19 + decimal(bytes).len(),
        status_text(HttpModel::Connecting(text), link).subrange(14, 14 + text.len() as int) == text,
        status_text(HttpModel::Connecting(text), link).len() == 17 + text.len(),
        status_text(HttpModel::Error(text), link).skip(7) == text,
        status_text(HttpModel::Idle, link) == link_text(link),
{
    reveal_strlit("done. HTTP ");
    reveal_strlit(" - ");
    reveal_strlit(" bytes received");
    reveal_strlit("receiving... ");
    reveal_strlit(" bytes");
    reveal_strlit("connecting to ");
    reveal_strlit("...");
    reveal_strlit("error: ");
    let d = decimal(code as nat);
    let e = decimal(body.len());
    let k = d.len() as int;
    let done = status_text(HttpModel::Done(code, body), link);
    assert(done.subrange(11, 11 + k) =~= d);
    assert(done.subrange(14 + k, 14 + k + e.len() as int) =~= e);
    let b = decimal(bytes);
    assert(status_text(HttpModel::Receiving(bytes), link).subrange(13, 13 + b.len() as int) =~= b);
    assert(status_text(HttpModel::Connecting(text), link).subrange(14, 14 + text.len() as int) =~= text);
    assert(status_text(HttpModel::Error(text), link).skip(7) =~= text);
}

/// The line on the link gives the address of the lease and of its router, each as
/// it is and where it belongs, and lines on different states differ.
pub proof fn law_link_line(ip: Ipv4Address, gw: Ipv4Address)
    ensures
        ({
            let up = link_text(LinkState::Up { ip, gateway: Some(gw) });
            let alone = link_text(LinkState::Up { ip, gateway: None });
            let k = ipv4_text(ip).len() as int;
            &&& up.subrange(12, 12 + k) == ipv4_text(ip)
            &&& up.skip(16 + k) == ipv4_text(gw)
            &&& alone.subrange(12, 12 + k) == ipv4_text(ip)
            &&& alone.len() == 25 + k
            &&& link_text(LinkState::Dhcp)[0] == 'a'
            &&& link_text(LinkState::NoNic)[0] == 'n'
            &&& up[0] == 'l' && alone[0] == 'l'
        }),
{
    reveal_strlit("link up: ip ");
    reveal_strlit(" gw ");
    reveal_strlit(" (no gateway)");
    reveal_strlit("acquiring DHCP lease...");
    reveal_strlit("no nic detected — network unavailable");
    let k = ipv4_text(ip).len() as int;
    let up = link_text(LinkState::Up { ip, gateway: Some(gw) });
    let alone = link_text(LinkState::Up { ip, gateway: None });
    assert(up.subrange(12, 12 + k) =~= ipv4_text(ip));
    assert(up.skip(16 + k) =~= ipv4_text(gw));
    assert(alone.subrange(12, 12 + k) =~= ipv4_text(ip));
}

/// The viewer shows what it holds: the address behind its label, the row of the page
/// that the scroll position leads to in each row of the body, and the status behind
/// its label, character by character as far as there is room.
pub proof fn law_viewer_shows(before: ScreenChar, b: BrowserModel, r: int, i: int)
    requires
        0 <= i,
        6 <= r <= 20,
        vstd::utf8::is_ascii_chars(b.url),
        vstd::utf8::is_ascii_chars(b.status),
        forall|k: int| 0 <= k < b.lines.len() ==> vstd::utf8::is_ascii_chars(#[trigger] b.lines[k]),
    ensures
        i < b.url.len() && i < 72 ==> part_cell(
            before,
            4,
            6 + i,
            b,
            all_parts(),
        ).ascii_character as int == b.url[i] as int,
        i < b.status.len() && i < 68 ==> part_cell(
            before,
            21,
            11 + i,
            b,
            all_parts(),
        ).ascii_character as int == b.status[i] as int,
        ({
            let k = b.scroll + (r - 6);
            &&& k < b.lines.len() && i < b.lines[k].len() && i < 78 ==> part_cell(
                before,
                r,
                1 + i,
                b,
                all_parts(),
            ).ascii_character as int == b.lines[k][i] as int
            &&& k < b.lines.len() && i >= b.lines[k].len() && i < 78 ==> part_cell(
                before,
                r,
                1 + i,
                b,
                all_parts(),
            ).ascii_character == 0x20
        }),
{
    let k = b.scroll + (r - 6);
    vstd::utf8::is_ascii_chars_encode_utf8(b.url);
    vstd::utf8::is_ascii_chars_encode_utf8(b.status);
    if k < b.lines.len() {
        assert(vstd::utf8::is_ascii_chars(b.lines[k]));
        vstd::utf8::is_ascii_chars_encode_utf8(b.lines[k]);
    }
    reveal_strlit(" URL ");
    reveal_strlit("[browser] ");
    vstd::utf8::is_ascii_chars_encode_utf8(" URL "@);
    vstd::utf8::is_ascii_chars_encode_utf8("[browser] "@);
}

/// Looking at a client twice shows no more than looking at it once, the viewer waits
/// only for a client that is still at work, and what it shows is what the client has.
pub proof fn law_tick_once(b: BrowserModel, s: Option<StackModel>)
    ensures
        ticked(ticked(b, s), s) == ticked(b, s),
        !ticked_parts(ticked(b, s), s).status,
        !ticked_parts(ticked(b, s), s).body,
        ticked(b, s).waiting ==> b.waiting,
        s matches Some(m) && m.http is Done ==> !ticked(b, s).waiting,
        s matches Some(m) && m.http is Error ==> !ticked(b, s).waiting,
        s matches Some(m) && m.http is Receiving ==> ticked(b, s).waiting == b.waiting,
        ticked(b, s).url == b.url,
        ticked(b, s).open == b.open,
        ticked(b, s).scroll == b.scroll,
{
}

/// Only a page that is there has rows, and asking for one clears the body and waits;
/// a request that cannot be made leaves the page that is shown.
pub proof fn law_page_asked_for(b: BrowserModel, s: Option<StackModel>, http: HttpModel)
    ensures
        !(http is Done) ==> body_rows(http).len() == 0,
        kick_of(b.url, s) is Taken ==> kicked(b, s).waiting && kicked(b, s).lines.len() == 0
            && kicked(b, s).scroll == 0,
        !(kick_of(b.url, s) is Taken) ==> kicked(b, s).lines == b.lines && kicked(b, s).waiting
            == b.waiting && kicked(b, s).scroll == b.scroll,
        kicked(b, s).url == b.url,
        kicked(b, s).open == b.open,
        kick_of(b.url, s) matches Kick::Refused(text) ==> kicked(b, s).status == text,
        kick_of(b.url, s) matches Kick::Taken(req) ==> kicked_stack(b.url, s) matches Some(m)
            && m.pending == Some(req),
        kick_of(b.url, s) is BadUrl ==> kicked_stack(b.url, s) == s,
        kick_of(b.url, s) is NeedsDns ==> kicked_stack(b.url, s) == s,
{
}

} // verus!
