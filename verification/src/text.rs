//! Text helpers: decimal numbers, white space, splitting, and comparison.
//!
//! Text is modelled as a sequence of characters. The executable functions walk
//! a `Vec<char>` taken from the `&str` they are given.
use vstd::prelude::*;
use vstd::utf8::{decode_utf8, encode_scalar, encode_utf8, is_ascii_chars, valid_utf8};

verus! {

/// `String::push` appends one character.
pub assume_specification[ String::push ](s: &mut String, c: char)
    ensures
        final(s)@ == old(s)@.push(c),
;

/// `String::pop` removes the last character and returns it, or returns `None`
/// and changes nothing when the string is empty.
pub assume_specification[ String::pop ](s: &mut String) -> (r: Option<char>)
    ensures
        old(s)@.len() == 0 ==> r is None && final(s)@ == old(s)@,
        old(s)@.len() > 0 ==> r == Some(old(s)@.last()) && final(s)@ == old(s)@.drop_last(),
;

// ---------- Strings and character vectors ----------

/// The characters of each string of a list.
pub open spec fn views(v: Seq<String>) -> Seq<Seq<char>> {
    v.map_values(|s: String| s@)
}

/// The characters of `s`, in order.
pub fn chars_of(s: &str) -> (r: Vec<char>)
    ensures
        r@ == s@,
{
    let mut r: Vec<char> = Vec::new();
    for c in it: s.chars()
        invariant
            it.seq() == s@,
            r@ == s@.take(it.index()),
    {
        r.push(c);
        proof {
            assert(s@.take(it.index() + 1) == s@.take(it.index()).push(s@[it.index()]));
        }
    }
    assert(s@.take(s@.len() as int) == s@);
    r
}

/// The string made of `chars[from..to]`.
pub fn string_of(chars: &[char], from: usize, to: usize) -> (r: String)
    requires
        from <= to <= chars@.len(),
    ensures
        r@ == chars@.subrange(from as int, to as int),
{
    let mut r = String::new();
    let mut i: usize = from;
    while i < to
        invariant
            from <= i <= to <= chars@.len(),
            r@ == chars@.subrange(from as int, i as int),
        decreases to - i,
    {
        r.push(chars[i]);
        assert(chars@.subrange(from as int, i + 1) == chars@.subrange(from as int, i as int).push(
            chars@[i as int],
        ));
        i += 1;
    }
    r
}

/// Whether two strings hold the same characters.
pub fn same_text(a: &str, b: &str) -> (r: bool)
    ensures
        r == (a@ == b@),
{
    let x = chars_of(a);
    let y = chars_of(b);
    if x.len() != y.len() {
        return false;
    }
    let mut i: usize = 0;
    while i < x.len()
        invariant
            x@ == a@,
            y@ == b@,
            x@.len() == y@.len(),
            i <= x@.len(),
            forall|j: int| 0 <= j < i ==> x@[j] == y@[j],
        decreases x.len() - i,
    {
        if x[i] != y[i] {
            assert(a@[i as int] != b@[i as int]);
            return false;
        }
        i += 1;
    }
    assert(a@ =~= b@);
    true
}

// ---------- Order ----------

/// `a` and `b` agree on their first `k` characters, and at `k` either `a` has
/// ended or its character is the smaller one.
pub open spec fn smaller_at(a: Seq<char>, b: Seq<char>, k: int) -> bool {
    &&& 0 <= k <= a.len()
    &&& k < b.len()
    &&& forall|j: int| 0 <= j < k ==> a[j] == b[j]
    &&& k < a.len() ==> a[k] < b[k]
}

/// Lexicographic order of texts by character code.
pub open spec fn text_lt(a: Seq<char>, b: Seq<char>) -> bool {
    exists|k: int| smaller_at(a, b, k)
}

/// The order has no cycles of length one.
pub proof fn lemma_text_lt_irreflexive(a: Seq<char>)
    ensures
        !text_lt(a, a),
{
}

/// The order is transitive.
pub proof fn lemma_text_lt_transitive(a: Seq<char>, b: Seq<char>, c: Seq<char>)
    requires
        text_lt(a, b),
        text_lt(b, c),
    ensures
        text_lt(a, c),
{
    let i = choose|k: int| smaller_at(a, b, k);
    let j = choose|k: int| smaller_at(b, c, k);
    if i <= j {
        assert(smaller_at(a, c, i));
    } else {
        assert(smaller_at(a, c, j));
    }
}

/// Whether `a` comes before `b` in the order of texts.
pub fn text_before(a: &str, b: &str) -> (r: bool)
    ensures
        r == text_lt(a@, b@),
        !r ==> a@ == b@ || text_lt(b@, a@),
{
    let x = chars_of(a);
    let y = chars_of(b);
    let mut i: usize = 0;
    while i < x.len() && i < y.len()
        invariant
            x@ == a@,
            y@ == b@,
            i <= x@.len(),
            i <= y@.len(),
            forall|j: int| 0 <= j < i ==> x@[j] == y@[j],
        decreases x.len() - i,
    {
        if x[i] < y[i] {
            assert(smaller_at(a@, b@, i as int));
            return true;
        }
        if y[i] < x[i] {
            assert(smaller_at(b@, a@, i as int));
            assert forall|k: int| !smaller_at(a@, b@, k) by {
                if smaller_at(a@, b@, k) {
                    if k > i {
                        assert(a@[i as int] == b@[i as int]);
                    } else if k < i {
                        assert(x@[k] == y@[k]);
                    }
                }
            }
            return false;
        }
        i += 1;
    }
    if i < y.len() {
        assert(smaller_at(a@, b@, i as int));
        true
    } else {
        assert forall|k: int| !smaller_at(a@, b@, k) by {
            if smaller_at(a@, b@, k) {
                assert(x@[k] == y@[k]);
            }
        }
        if i < x.len() {
            assert(smaller_at(b@, a@, i as int));
        } else {
            assert(a@ =~= b@);
        }
        false
    }
}

// ---------- Character classes ----------

/// The characters with the Unicode property `White_Space`.
pub open spec fn is_space(c: char) -> bool {
    ||| '\u{9}' <= c <= '\u{d}'
    ||| c == ' '
    ||| c == '\u{85}'
    ||| c == '\u{a0}'
    ||| c == '\u{1680}'
    ||| '\u{2000}' <= c <= '\u{200a}'
    ||| c == '\u{2028}'
    ||| c == '\u{2029}'
    ||| c == '\u{202f}'
    ||| c == '\u{205f}'
    ||| c == '\u{3000}'
}

/// Whether `c` is white space.
pub fn whitespace(c: char) -> (r: bool)
    ensures
        r == is_space(c),
{
    ('\u{9}' <= c && c <= '\u{d}') || c == ' ' || c == '\u{85}' || c == '\u{a0}' || c == '\u{1680}'
        || ('\u{2000}' <= c && c <= '\u{200a}') || c == '\u{2028}' || c == '\u{2029}' || c
        == '\u{202f}' || c == '\u{205f}' || c == '\u{3000}'
}

/// The control characters: the general category `Cc`.
pub open spec fn is_control(c: char) -> bool {
    c <= '\u{1f}' || '\u{7f}' <= c <= '\u{9f}'
}

/// Whether `c` is a control character.
pub fn control(c: char) -> (r: bool)
    ensures
        r == is_control(c),
{
    c <= '\u{1f}' || ('\u{7f}' <= c && c <= '\u{9f}')
}


// ---------- Splitting ----------

/// The list with its last element replaced by that element and `c` behind it.
pub open spec fn grow_last(parts: Seq<Seq<char>>, c: char) -> Seq<Seq<char>> {
    parts.drop_last().push(parts.last().push(c))
}

/// The maximal runs of characters that are not white space, in order.
pub open spec fn words(s: Seq<char>) -> Seq<Seq<char>>
    decreases s.len(),
{
    if s.len() == 0 {
        Seq::empty()
    } else {
        let before = words(s.drop_last());
        if is_space(s.last()) {
            before
        } else if s.len() == 1 || is_space(s[s.len() - 2]) {
            before.push(seq![s.last()])
        } else {
            grow_last(before, s.last())
        }
    }
}

/// The parts of `s` between the occurrences of `sep`: always one more part than
/// there are separators.
pub open spec fn split_on(s: Seq<char>, sep: char) -> Seq<Seq<char>>
    decreases s.len(),
{
    if s.len() == 0 {
        seq![Seq::empty()]
    } else {
        let before = split_on(s.drop_last(), sep);
        if s.last() == sep {
            before.push(Seq::empty())
        } else {
            grow_last(before, s.last())
        }
    }
}

/// The characters of a list with one more string.
pub proof fn lemma_views_push(v: Seq<String>, s: String)
    ensures
        views(v.push(s)) == views(v).push(s@),
{
    assert(views(v.push(s)) =~= views(v).push(s@));
}

/// No part holds the separator, and there is at least one part.
pub proof fn lemma_split_on_parts(s: Seq<char>, sep: char)
    ensures
        split_on(s, sep).len() >= 1,
        forall|i: int|
            0 <= i < split_on(s, sep).len() ==> !(#[trigger] split_on(s, sep)[i]).contains(sep),
    decreases s.len(),
{
    if s.len() > 0 {
        lemma_split_on_parts(s.drop_last(), sep);
        let before = split_on(s.drop_last(), sep);
        let all = split_on(s, sep);
        assert forall|i: int| 0 <= i < all.len() implies !(#[trigger] all[i]).contains(sep) by {
            if i < before.len() - 1 {
                assert(all[i] == before[i]);
            } else if s.last() != sep {
                assert(all[i] == before.last().push(s.last()));
                assert(!before[before.len() - 1].contains(sep));
                assert forall|k: int| 0 <= k < all[i].len() implies all[i][k] != sep by {
                    if k < before.last().len() {
                        assert(before.last()[k] == all[i][k]);
                    }
                }
            } else if i == before.len() - 1 {
                assert(all[i] == before[i]);
            }
        }
    }
}

/// The words of a text are not empty and hold no white space, and a text that ends
/// in anything else has a word.
pub proof fn law_words(s: Seq<char>)
    ensures
        forall|i: int, k: int|
            0 <= i < words(s).len() && 0 <= k < words(s)[i].len() ==> !is_space(
                #[trigger] words(s)[i][k],
            ),
        forall|i: int| 0 <= i < words(s).len() ==> (#[trigger] words(s)[i]).len() > 0,
        s.len() > 0 && !is_space(s.last()) ==> words(s).len() > 0,
    decreases s.len(),
{
    if s.len() > 0 {
        let init = s.drop_last();
        law_words(init);
        assert(init.len() > 0 ==> init.last() == s[s.len() - 2]);
        let before = words(init);
        let all = words(s);
        assert forall|i: int| 0 <= i < all.len() implies (#[trigger] all[i]).len() > 0 && (forall|
            k: int,
        | 0 <= k < all[i].len() ==> !is_space(#[trigger] all[i][k])) by {
            if i < before.len() - 1 {
                assert(all[i] == before[i]);
            } else if i == before.len() - 1 && all.len() == before.len() && !is_space(s.last()) {
                assert(all[i] == before[i].push(s.last()));
                assert forall|k: int| 0 <= k < all[i].len() implies !is_space(
                    #[trigger] all[i][k],
                ) by {
                    if k < before[i].len() {
                        assert(all[i][k] == before[i][k]);
                    }
                }
            } else if i < before.len() {
                assert(all[i] == before[i]);
            }
        }
    }
}

/// Splits `s` into its words.
pub fn split_whitespace(s: &str) -> (r: Vec<String>)
    ensures
        views(r@) == words(s@),
{
    let chars = chars_of(s);
    let mut r: Vec<String> = Vec::new();
    let mut word = String::new();
    let mut i: usize = 0;
    while i < chars.len()
        invariant
            i <= chars@.len(),
            chars@ == s@,
            word@.len() == 0 ==> views(r@) == words(s@.take(i as int)) && (i > 0 ==> is_space(
                s@[i - 1],
            )),
            word@.len() > 0 ==> i > 0 && !is_space(s@[i - 1]) && views(r@).push(word@) == words(
                s@.take(i as int),
            ),
        decreases chars.len() - i,
    {
        let c = chars[i];
        let ghost prefix = s@.take(i as int);
        let ghost next = s@.take(i + 1);
        proof {
            assert(next.drop_last() =~= prefix);
            assert(next.last() == c);
            if i > 0 {
                assert(next[next.len() - 2] == s@[i - 1]);
            }
        }
        if whitespace(c) {
            if !word.as_str().is_empty() {
                proof {
                    lemma_views_push(r@, word);
                }
                r.push(word);
                word = String::new();
            }
        } else {
            let ghost before = word@;
            word.push(c);
            proof {
                if before.len() == 0 {
                    assert(word@ =~= seq![c]);
                } else {
                    let all = views(r@).push(before);
                    assert(all.drop_last() =~= views(r@));
                    assert(grow_last(all, c) =~= views(r@).push(word@));
                }
            }
        }
        i += 1;
    }
    assert(s@.take(s@.len() as int) =~= s@);
    if !word.as_str().is_empty() {
        proof {
            lemma_views_push(r@, word);
        }
        r.push(word);
    }
    r
}

/// Splits `s` at every occurrence of `sep`.
pub fn split(s: &str, sep: char) -> (r: Vec<String>)
    ensures
        views(r@) == split_on(s@, sep),
        r@.len() >= 1,
{
    let chars = chars_of(s);
    let mut r: Vec<String> = Vec::new();
    let mut part = String::new();
    let mut i: usize = 0;
    proof {
        assert(s@.take(0) =~= Seq::empty());
        assert(views(r@).push(part@) =~= split_on(s@.take(0), sep));
    }
    while i < chars.len()
        invariant
            i <= chars@.len(),
            chars@ == s@,
            views(r@).push(part@) == split_on(s@.take(i as int), sep),
        decreases chars.len() - i,
    {
        let c = chars[i];
        let ghost next = s@.take(i + 1);
        let ghost all = views(r@).push(part@);
        proof {
            assert(next.drop_last() =~= s@.take(i as int));
            assert(next.last() == c);
        }
        if c == sep {
            proof {
                lemma_views_push(r@, part);
            }
            r.push(part);
            part = String::new();
            assert(part@ == Seq::<char>::empty());
        } else {
            part.push(c);
            proof {
                assert(all.drop_last() =~= views(r@));
                assert(grow_last(all, c) =~= views(r@).push(part@));
            }
        }
        i += 1;
    }
    assert(s@.take(s@.len() as int) =~= s@);
    proof {
        lemma_views_push(r@, part);
    }
    r.push(part);
    r
}

/// `s` without the white space at its start.
pub open spec fn trim_front(s: Seq<char>) -> Seq<char>
    decreases s.len(),
{
    if s.len() > 0 && is_space(s[0]) {
        trim_front(s.skip(1))
    } else {
        s
    }
}

/// `s` without the white space at its end.
pub open spec fn trim_back(s: Seq<char>) -> Seq<char>
    decreases s.len(),
{
    if s.len() > 0 && is_space(s.last()) {
        trim_back(s.drop_last())
    } else {
        s
    }
}

/// `s` without the white space at both ends.
pub open spec fn trimmed(s: Seq<char>) -> Seq<char> {
    trim_back(trim_front(s))
}

/// `s` without the white space at both ends.
pub fn trim(s: &str) -> (r: String)
    ensures
        r@ == trimmed(s@),
{
    let chars = chars_of(s);
    let mut from: usize = 0;
    assert(s@.skip(0) =~= s@);
    while from < chars.len() && whitespace(chars[from])
        invariant
            from <= chars@.len(),
            chars@ == s@,
            trim_front(s@) == trim_front(s@.skip(from as int)),
        decreases chars.len() - from,
    {
        assert(s@.skip(from as int).skip(1) =~= s@.skip(from + 1));
        from += 1;
    }
    let ghost front = s@.skip(from as int);
    assert(trim_front(s@) == front);
    let mut to: usize = chars.len();
    assert(s@.subrange(from as int, to as int) =~= front);
    while to > from && whitespace(chars[to - 1])
        invariant
            from <= to <= chars@.len(),
            chars@ == s@,
            trim_back(front) == trim_back(s@.subrange(from as int, to as int)),
        decreases to,
    {
        assert(s@.subrange(from as int, to as int).drop_last() =~= s@.subrange(
            from as int,
            to - 1,
        ));
        to -= 1;
    }
    string_of(&chars, from, to)
}

/// The texts of `parts` in order, with `sep` between neighbours.
pub open spec fn joined(parts: Seq<Seq<char>>, sep: Seq<char>) -> Seq<char>
    decreases parts.len(),
{
    if parts.len() == 0 {
        Seq::empty()
    } else if parts.len() == 1 {
        parts[0]
    } else {
        joined(parts.drop_last(), sep) + sep + parts.last()
    }
}

/// Joins `parts[from..]` with one space between neighbours.
pub fn join_words(parts: &[String], from: usize) -> (r: String)
    requires
        from <= parts@.len(),
    ensures
        r@ == joined(views(parts@).skip(from as int), seq![' ']),
{
    let mut r = String::new();
    let mut i: usize = from;
    let ghost all = views(parts@).skip(from as int);
    assert(all.take(0) =~= Seq::empty());
    while i < parts.len()
        invariant
            from <= i <= parts@.len(),
            all == views(parts@).skip(from as int),
            r@ == joined(all.take(i - from), seq![' ']),
        decreases parts.len() - i,
    {
        let ghost k = i - from;
        proof {
            assert(all.take(k + 1).drop_last() =~= all.take(k));
            assert(all.take(k + 1).last() == parts@[i as int]@);
        }
        if i > from {
            r.push(' ');
            assert(r@ =~= joined(all.take(k), seq![' ']) + seq![' ']);
        } else {
            assert(r@ + parts@[i as int]@ =~= parts@[i as int]@);
        }
        r.append(parts[i].as_str());
        i += 1;
    }
    assert(all.take(all.len() as int) =~= all);
    r
}

// ---------- Lines ----------

/// `s` without one carriage return at its end.
pub open spec fn without_cr(s: Seq<char>) -> Seq<char> {
    if s.len() > 0 && s.last() == '\r' {
        s.drop_last()
    } else {
        s
    }
}

/// The lines of a text: the parts between line feeds, each without the carriage
/// return in front of its line feed, and without an empty part after the last
/// line feed.
pub open spec fn text_lines(s: Seq<char>) -> Seq<Seq<char>> {
    let parts = split_on(s, '\n');
    let ended = parts.drop_last().map_values(|p: Seq<char>| without_cr(p));
    if parts.last().len() == 0 {
        ended
    } else {
        ended.push(parts.last())
    }
}

/// Splits `s` into its lines.
pub fn lines(s: &str) -> (r: Vec<String>)
    ensures
        views(r@) == text_lines(s@),
{
    let parts = split(s, '\n');
    let ghost all = views(parts@);
    let ghost ended = all.drop_last().map_values(|p: Seq<char>| without_cr(p));
    let mut r: Vec<String> = Vec::new();
    let mut i: usize = 0;
    assert(ended.take(0) =~= Seq::empty());
    assert(views(r@) =~= Seq::empty());
    while i < parts.len() - 1
        invariant
            i <= parts@.len() - 1,
            all == views(parts@),
            ended == all.drop_last().map_values(|p: Seq<char>| without_cr(p)),
            views(r@) == ended.take(i as int),
        decreases parts.len() - i,
    {
        let chars = chars_of(parts[i].as_str());
        let n = chars.len();
        let line = if n > 0 && chars[n - 1] == '\r' {
            string_of(&chars, 0, n - 1)
        } else {
            string_of(&chars, 0, n)
        };
        proof {
            assert(chars@ =~= all[i as int]);
            assert(line@ =~= without_cr(all[i as int]));
            assert(ended[i as int] == line@);
            assert(ended.take(i + 1) =~= ended.take(i as int).push(line@));
            lemma_views_push(r@, line);
        }
        r.push(line);
        i += 1;
    }
    assert(ended.take(ended.len() as int) =~= ended);
    let last = parts[i].clone();
    assert(all.last() == last@);
    if !last.as_str().is_empty() {
        proof {
            lemma_views_push(r@, last);
        }
        r.push(last);
    }
    r
}

// ---------- Numbers ----------

/// The character of a decimal digit.
pub open spec fn digit(d: nat) -> char {
    (('0' as u32) + d) as char
}

/// The decimal digits of `n`, without leading zeros.
pub open spec fn decimal(n: nat) -> Seq<char>
    decreases n,
{
    if n < 10 {
        seq![digit(n)]
    } else {
        decimal(n / 10).push(digit(n % 10))
    }
}

/// The decimal digits of `n`, with `fill` in front up to `width` characters.
pub open spec fn padded(n: nat, width: nat, fill: char) -> Seq<char> {
    Seq::new((if decimal(n).len() < width { (width - decimal(n).len()) as nat } else { 0 }), |i: int| fill)
        + decimal(n)
}

/// Appends the decimal digits of `n`.
pub fn push_decimal(out: &mut String, n: u64)
    ensures
        final(out)@ == old(out)@ + decimal(n as nat),
    decreases n,
{
    if n >= 10 {
        push_decimal(out, n / 10);
    }
    let d: u8 = (n % 10) as u8;
    let c: char = (0x30u8 + d) as char;
    assert(c == digit((n % 10) as nat));
    let ghost before = out@;
    out.push(c);
    proof {
        if n >= 10 {
            assert(before.push(c) =~= old(out)@ + decimal((n / 10) as nat).push(c));
        } else {
            assert(before.push(c) =~= old(out)@ + seq![c]);
        }
    }
}

/// Appends the decimal digits of `n`, with `fill` in front up to `width`
/// characters.
pub fn push_padded(out: &mut String, n: u64, width: usize, fill: char)
    ensures
        final(out)@ == old(out)@ + padded(n as nat, width as nat, fill),
{
    let mut digits = String::new();
    push_decimal(&mut digits, n);
    assert(digits@ =~= decimal(n as nat));
    let have: usize = chars_of(digits.as_str()).len();
    let ghost before = out@;
    let ghost gap = padded(n as nat, width as nat, fill).subrange(
        0,
        padded(n as nat, width as nat, fill).len() - have,
    );
    let mut k: usize = have;
    assert(out@ =~= before + gap.take(0));
    while k < width
        invariant
            have <= k,
            k <= width || k == have,
            gap.len() == if have < width { width - have } else { 0 },
            forall|i: int| 0 <= i < gap.len() ==> gap[i] == fill,
            out@ == before + gap.take(k - have),
        decreases width - k,
    {
        assert(gap.take(k - have + 1) =~= gap.take(k - have).push(fill));
        assert((before + gap.take(k - have)).push(fill) =~= before + gap.take(k - have + 1));
        out.push(fill);
        k += 1;
    }
    proof {
        assert(gap.take(gap.len() as int) =~= gap);
        assert(gap + decimal(n as nat) =~= padded(n as nat, width as nat, fill));
        assert((before + gap) + decimal(n as nat) =~= before + (gap + decimal(n as nat)));
    }
    out.append(digits.as_str());
}

/// Ten to the power of `k`.
pub open spec fn pow10(k: nat) -> nat
    decreases k,
{
    if k == 0 {
        1
    } else {
        10 * pow10((k - 1) as nat)
    }
}

/// A number below ten to the `k` has at most `k` digits.
pub proof fn lemma_decimal_len(n: nat, k: nat)
    requires
        k >= 1,
        n < pow10(k),
    ensures
        1 <= decimal(n).len() <= k,
    decreases n,
{
    if n >= 10 {
        if k == 1 {
            reveal_with_fuel(pow10, 2);
        }
        lemma_decimal_len(n / 10, (k - 1) as nat);
    }
}

/// The digits of a number are ASCII.
pub proof fn lemma_decimal_ascii(n: nat)
    ensures
        is_ascii_chars(decimal(n)),
        forall|i: int| 0 <= i < decimal(n).len() ==> '0' <= #[trigger] decimal(n)[i] <= '9',
    decreases n,
{
    if n >= 10 {
        lemma_decimal_ascii(n / 10);
        let d = decimal(n);
        assert forall|i: int| 0 <= i < d.len() implies '0' <= #[trigger] d[i] <= '9' by {
            if i < d.len() - 1 {
                assert(d[i] == decimal(n / 10)[i]);
            }
        }
    }
}

/// Every character is a decimal digit.
pub open spec fn all_digits(s: Seq<char>) -> bool {
    forall|i: int| 0 <= i < s.len() ==> '0' <= #[trigger] s[i] <= '9'
}

/// The number that a run of decimal digits stands for.
pub open spec fn digits_value(s: Seq<char>) -> nat
    decreases s.len(),
{
    if s.len() == 0 {
        0
    } else {
        digits_value(s.drop_last()) * 10 + (s.last() as nat - '0' as nat) as nat
    }
}

/// The 16-bit number that a text stands for: decimal digits, at least one, with
/// or without a plus sign in front.
pub open spec fn parsed_u16(s: Seq<char>) -> Option<u16> {
    let digits = if s.len() > 0 && s[0] == '+' {
        s.skip(1)
    } else {
        s
    };
    if digits.len() > 0 && all_digits(digits) && digits_value(digits) <= 65535 {
        Some(digits_value(digits) as u16)
    } else {
        None
    }
}

proof fn lemma_digits_grow(s: Seq<char>, k: int)
    requires
        0 <= k <= s.len(),
        all_digits(s),
    ensures
        digits_value(s.take(k)) <= digits_value(s),
    decreases s.len() - k,
{
    if k < s.len() {
        assert(s.take(k + 1).drop_last() =~= s.take(k));
        lemma_digits_grow(s, k + 1);
    } else {
        assert(s.take(k) =~= s);
    }
}

/// Reads a 16-bit number.
pub fn parse_u16(s: &str) -> (r: Option<u16>)
    ensures
        r == parsed_u16(s@),
{
    let chars = chars_of(s);
    let from: usize = if chars.len() > 0 && chars[0] == '+' {
        1
    } else {
        0
    };
    let ghost digits = if s@.len() > 0 && s@[0] == '+' {
        s@.skip(1)
    } else {
        s@
    };
    if from == chars.len() {
        return None;
    }
    let mut value: u32 = 0;
    let mut i: usize = from;
    assert(digits.take(0) =~= Seq::empty());
    while i < chars.len()
        invariant
            from <= i <= chars@.len(),
            digits == (if s@.len() > 0 && s@[0] == '+' {
                s@.skip(1)
            } else {
                s@
            }),
            digits.len() == chars@.len() - from,
            forall|k: int| 0 <= k < digits.len() ==> #[trigger] digits[k] == chars@[k + from],
            all_digits(digits.take(i - from)),
            value == digits_value(digits.take(i - from)),
            value <= 65535,
        decreases chars.len() - i,
    {
        let c = chars[i];
        let ghost k = i - from;
        assert(digits[k] == c);
        if c < '0' || c > '9' {
            assert(!all_digits(digits));
            return None;
        }
        proof {
            let next = digits.take(k + 1);
            assert(next.drop_last() =~= digits.take(k));
            assert(next.last() == c);
            assert forall|j: int| 0 <= j < next.len() implies '0' <= #[trigger] next[j] <= '9' by {
                if j < k {
                    assert(digits.take(k)[j] == next[j]);
                }
            }
        }
        value = value * 10 + (c as u32 - '0' as u32);
        if value > 65535 {
            proof {
                if all_digits(digits) {
                    lemma_digits_grow(digits, k + 1);
                }
            }
            return None;
        }
        i += 1;
    }
    assert(digits.take(digits.len() as int) =~= digits);
    Some(value as u16)
}

/// Reading the digits of a number gives the number back.
pub proof fn law_decimal_value(n: nat)
    ensures
        all_digits(decimal(n)),
        digits_value(decimal(n)) == n,
    decreases n,
{
    lemma_decimal_ascii(n);
    reveal_with_fuel(digits_value, 2);
    if n >= 10 {
        law_decimal_value(n / 10);
        assert(decimal(n).drop_last() =~= decimal(n / 10));
    } else {
        assert(decimal(n).drop_last() =~= Seq::empty());
    }
}

// ---------- Splitting and joining ----------

/// The parts of a text with a separator and one more part behind it.
pub proof fn lemma_split_append(s: Seq<char>, part: Seq<char>, sep: char)
    requires
        !part.contains(sep),
    ensures
        split_on(s.push(sep) + part, sep) == split_on(s, sep).push(part),
    decreases part.len(),
{
    let all = s.push(sep) + part;
    if part.len() == 0 {
        assert(all =~= s.push(sep));
        assert(all.drop_last() =~= s);
        assert(part =~= Seq::empty());
    } else {
        let init = part.drop_last();
        assert forall|i: int| 0 <= i < init.len() implies init[i] != sep by {
            assert(part[i] == init[i]);
            assert(part.contains(part[i]));
        }
        lemma_split_append(s, init, sep);
        assert(all.drop_last() =~= s.push(sep) + init);
        assert(all.last() == part.last());
        assert(part.contains(part.last()));
        assert(init.push(part.last()) =~= part);
        assert(split_on(all, sep) =~= split_on(s, sep).push(part));
    }
}

/// A text without the separator is its own only part.
pub proof fn lemma_split_single(s: Seq<char>, sep: char)
    requires
        !s.contains(sep),
    ensures
        split_on(s, sep) == seq![s],
    decreases s.len(),
{
    if s.len() > 0 {
        let init = s.drop_last();
        assert forall|i: int| 0 <= i < init.len() implies init[i] != sep by {
            assert(s[i] == init[i]);
            assert(s.contains(s[i]));
        }
        lemma_split_single(init, sep);
        assert(s.contains(s.last()));
        assert(init.push(s.last()) =~= s);
        assert(split_on(s, sep) =~= seq![s]);
    } else {
        assert(s =~= Seq::empty());
    }
}

/// Splitting what was joined gives the parts back.
pub proof fn law_split_joined(parts: Seq<Seq<char>>, sep: char)
    requires
        parts.len() > 0,
        forall|i: int| 0 <= i < parts.len() ==> !(#[trigger] parts[i]).contains(sep),
    ensures
        split_on(joined(parts, seq![sep]), sep) == parts,
    decreases parts.len(),
{
    if parts.len() == 1 {
        assert(!parts[0].contains(sep));
        lemma_split_single(parts[0], sep);
        assert(seq![parts[0]] =~= parts);
    } else {
        let init = parts.drop_last();
        assert forall|i: int| 0 <= i < init.len() implies !(#[trigger] init[i]).contains(sep) by {
            assert(init[i] == parts[i]);
        }
        law_split_joined(init, sep);
        assert(!parts[parts.len() - 1].contains(sep));
        let before = joined(init, seq![sep]);
        lemma_split_append(before, parts.last(), sep);
        assert(before + seq![sep] + parts.last() =~= before.push(sep) + parts.last());
        assert(init.push(parts.last()) =~= parts);
    }
}

/// Joining what was split gives the text back.
pub proof fn law_joined_split(s: Seq<char>, sep: char)
    ensures
        joined(split_on(s, sep), seq![sep]) == s,
    decreases s.len(),
{
    lemma_split_on_parts(s, sep);
    if s.len() == 0 {
        assert(s =~= Seq::empty());
    } else {
        let init = s.drop_last();
        law_joined_split(init, sep);
        lemma_split_on_parts(init, sep);
        let before = split_on(init, sep);
        let all = split_on(s, sep);
        assert(init.push(s.last()) =~= s);
        if s.last() == sep {
            assert(all.drop_last() =~= before);
            assert(joined(all, seq![sep]) =~= s);
        } else {
            assert(all.drop_last() =~= before.drop_last());
            if all.len() > 1 {
                assert(joined(all, seq![sep]) =~= joined(before, seq![sep]).push(s.last()));
            } else {
                assert(before[0] == joined(before, seq![sep]));
                assert(all[0] == before[0].push(s.last()));
            }
        }
    }
}

/// Digits without a needless zero in front are the digits of their number.
pub proof fn lemma_canonical(s: Seq<char>)
    requires
        s.len() >= 1,
        all_digits(s),
        s.len() == 1 || s[0] != '0',
    ensures
        decimal(digits_value(s)) == s,
        s[0] != '0' ==> digits_value(s) >= 1,
    decreases s.len(),
{
    reveal_with_fuel(digits_value, 2);
    let init = s.drop_last();
    if s.len() == 1 {
        assert(init =~= Seq::empty());
        assert(decimal(digits_value(s)) =~= s);
    } else {
        assert forall|i: int| 0 <= i < init.len() implies '0' <= #[trigger] init[i] <= '9' by {
            assert(init[i] == s[i]);
        }
        lemma_canonical(init);
        assert(s[0] == init[0]);
        assert(decimal(digits_value(s)) =~= s);
    }
}

/// The digits of a number have no needless zero in front.
pub proof fn lemma_decimal_canonical(n: nat)
    ensures
        decimal(n).len() == 1 || decimal(n)[0] != '0',
        n >= 1 ==> decimal(n)[0] != '0',
    decreases n,
{
    if n >= 10 {
        lemma_decimal_canonical(n / 10);
        assert(decimal(n)[0] == decimal(n / 10)[0]);
    }
}

// ---------- Bytes as text ----------

/// `str::from_utf8` accepts exactly the byte sequences that are valid UTF-8, and
/// gives the characters that they encode.
#[verifier::external_body]
pub(crate) fn utf8_text(bytes: &[u8]) -> (r: Option<String>)
    ensures
        r is Some <==> valid_utf8(bytes@),
        r matches Some(s) ==> s@ == decode_utf8(bytes@),
{
    match std::str::from_utf8(bytes) {
        Ok(s) => Some(s.to_owned()),
        Err(_) => None,
    }
}

/// The text that bytes stand for when whatever is not valid UTF-8 is replaced.
pub uninterp spec fn lossy_text(bytes: Seq<u8>) -> Seq<char>;

/// `String::from_utf8_lossy` gives the text of the bytes with replacement
/// characters for what is not valid UTF-8. Valid UTF-8 gives the characters that
/// it encodes. Which bytes share one replacement character is not stated.
#[verifier::external_body]
pub(crate) fn lossy(bytes: &[u8]) -> (r: String)
    ensures
        r@ == lossy_text(bytes@),
        valid_utf8(bytes@) ==> r@ == decode_utf8(bytes@),
{
    String::from_utf8_lossy(bytes).into_owned()
}

/// The bytes `src[from..to]`.
pub fn copy_range(src: &[u8], from: usize, to: usize) -> (r: Vec<u8>)
    requires
        from <= to <= src@.len(),
    ensures
        r@ == src@.subrange(from as int, to as int),
{
    let mut r: Vec<u8> = Vec::new();
    let mut i: usize = from;
    while i < to
        invariant
            from <= i <= to <= src@.len(),
            r@ == src@.subrange(from as int, i as int),
        decreases to - i,
    {
        r.push(src[i]);
        assert(src@.subrange(from as int, i + 1) =~= src@.subrange(from as int, i as int).push(
            src@[i as int],
        ));
        i += 1;
    }
    r
}

/// The bytes of two texts in a row are the bytes of the first and then those of
/// the second.
pub proof fn lemma_encode_concat(a: Seq<char>, b: Seq<char>)
    ensures
        encode_utf8(a + b) == encode_utf8(a) + encode_utf8(b),
    decreases a.len(),
{
    if a.len() == 0 {
        assert(a + b =~= b);
        assert(encode_utf8(a) + encode_utf8(b) =~= encode_utf8(b));
    } else {
        assert((a + b)[0] == a[0]);
        assert((a + b).drop_first() =~= a.drop_first() + b);
        lemma_encode_concat(a.drop_first(), b);
        assert(encode_utf8(a + b) =~= encode_utf8(a) + encode_utf8(b));
    }
}

/// A text has at least as many bytes as characters.
pub proof fn lemma_encode_len(s: Seq<char>)
    ensures
        s.len() <= encode_utf8(s).len(),
    decreases s.len(),
{
    if s.len() > 0 {
        lemma_encode_len(s.drop_first());
    }
}

// ---------- Laws of texts ----------

/// The blank, the tabulator and the ends of lines are white space, and so are the
/// blanks of other scripts and widths; no other character is, and none that a key of
/// ASCII prints.
pub proof fn law_space(c: char)
    ensures
        c == ' ' || c == '\t' || c == '\n' || c == '\r' ==> is_space(c),
        '!' <= c <= '~' ==> !is_space(c),
        (c as int) < 128 ==> (is_space(c) <==> c as int == 32 || 9 <= c as int <= 13),
        c as int >= 128 ==> (is_space(c) <==> c as int == 133 || c as int == 160 || c as int == 5760
            || 8192 <= c as int <= 8202 || c as int == 8232 || c as int == 8233 || c as int == 8239
            || c as int == 8287 || c as int == 12288),
{
}

/// The control characters are the 32 below the blank, delete, and the 32 behind it.
pub proof fn law_control(c: char)
    ensures
        ' ' <= c <= '~' ==> !is_control(c),
        is_control(c) <==> (c as int) % 128 < 32 && (c as int) < 256 || c as int == 127,
{
}

/// The words of two texts in a row are those of the first and then those of the
/// second, wherever white space stands between them.
pub proof fn law_words_apart(a: Seq<char>, b: Seq<char>)
    requires
        a.len() == 0 || is_space(a.last()) || b.len() == 0 || is_space(b[0]),
    ensures
        words(a + b) == words(a) + words(b),
    decreases b.len(),
{
    if b.len() == 0 {
        assert(a + b =~= a);
        assert(words(a) + words(b) =~= words(a));
    } else {
        let init = b.drop_last();
        let s = a + b;
        assert(s.drop_last() =~= a + init);
        assert(s.last() == b.last());
        if init.len() == 0 {
            assert(a + init =~= a);
            assert(init =~= Seq::empty());
            if a.len() > 0 {
                assert(s[s.len() - 2] == a.last());
            }
            assert(words(s) =~= words(a) + words(b));
        } else {
            assert(init[0] == b[0]);
            law_words_apart(a, init);
            assert(s[s.len() - 2] == init.last());
            assert(init.last() == b[b.len() - 2]);
            law_words(init);
            assert(words(s) =~= words(a) + words(b));
        }
    }
}

/// A text without white space is one word, and white space alone is none.
pub proof fn law_one_word(s: Seq<char>)
    ensures
        s.len() > 0 && (forall|i: int| 0 <= i < s.len() ==> !is_space(#[trigger] s[i])) ==> words(s)
            == seq![s],
        (forall|i: int| 0 <= i < s.len() ==> is_space(#[trigger] s[i])) ==> words(s).len() == 0,
    decreases s.len(),
{
    if s.len() > 0 {
        let init = s.drop_last();
        law_one_word(init);
        if forall|i: int| 0 <= i < s.len() ==> !is_space(#[trigger] s[i]) {
            assert forall|i: int| 0 <= i < init.len() implies !is_space(#[trigger] init[i]) by {
                assert(init[i] == s[i]);
            }
            assert(!is_space(s[s.len() - 1]));
            if init.len() == 0 {
                assert(words(init) =~= Seq::empty());
                assert(words(s) =~= seq![s]) by {
                    assert(seq![s.last()] =~= s);
                }
            } else {
                assert(!is_space(s[s.len() - 2]));
                assert(init.push(s.last()) =~= s);
                assert(words(s) =~= seq![s]);
            }
        }
        if forall|i: int| 0 <= i < s.len() ==> is_space(#[trigger] s[i]) {
            assert forall|i: int| 0 <= i < init.len() implies is_space(#[trigger] init[i]) by {
                assert(init[i] == s[i]);
            }
            assert(is_space(s[s.len() - 1]));
        }
    }
}

/// White space around a text that neither begins nor ends with any is trimmed, and
/// nothing else.
pub proof fn law_trimmed(a: Seq<char>, t: Seq<char>, b: Seq<char>)
    requires
        forall|i: int| 0 <= i < a.len() ==> is_space(#[trigger] a[i]),
        forall|i: int| 0 <= i < b.len() ==> is_space(#[trigger] b[i]),
        t.len() > 0 ==> !is_space(t[0]) && !is_space(t.last()),
    ensures
        trimmed(a + t + b) == t,
    decreases a.len() + b.len(),
{
    let s = a + t + b;
    if a.len() > 0 {
        let rest = a.skip(1);
        assert forall|i: int| 0 <= i < rest.len() implies is_space(#[trigger] rest[i]) by {
            assert(rest[i] == a[i + 1]);
        }
        law_trimmed(rest, t, b);
        assert(s[0] == a[0]);
        assert(s.skip(1) =~= rest + t + b);
    } else if t.len() > 0 {
        assert(s =~= t + b);
        assert(s[0] == t[0]);
        assert(trim_front(s) == s);
        lemma_trim_back(t, b);
    } else if b.len() > 0 {
        let rest = b.skip(1);
        assert forall|i: int| 0 <= i < rest.len() implies is_space(#[trigger] rest[i]) by {
            assert(rest[i] == b[i + 1]);
        }
        law_trimmed(a, t, rest);
        assert(s[0] == b[0]);
        assert(s.skip(1) =~= a + t + rest);
    } else {
        assert(s =~= t);
    }
}

proof fn lemma_trim_back(t: Seq<char>, b: Seq<char>)
    requires
        forall|i: int| 0 <= i < b.len() ==> is_space(#[trigger] b[i]),
        t.len() > 0,
        !is_space(t.last()),
    ensures
        trim_back(t + b) == t,
    decreases b.len(),
{
    let s = t + b;
    if b.len() > 0 {
        let init = b.drop_last();
        assert forall|i: int| 0 <= i < init.len() implies is_space(#[trigger] init[i]) by {
            assert(init[i] == b[i]);
        }
        lemma_trim_back(t, init);
        assert(s.last() == b[b.len() - 1]);
        assert(s.drop_last() =~= t + init);
    } else {
        assert(s =~= t);
    }
}

/// Texts are ordered by the first character in which they differ, and a text comes
/// before every longer one that begins with it.
pub proof fn law_text_order(p: Seq<char>, c: char, x: Seq<char>, d: char, y: Seq<char>)
    ensures
        c < d ==> text_lt(p.push(c) + x, p.push(d) + y) && !text_lt(p.push(d) + y, p.push(c) + x),
        text_lt(p, p.push(c) + x) && !text_lt(p.push(c) + x, p),
{
    let s = p.push(c) + x;
    let t = p.push(d) + y;
    let n = p.len() as int;
    if c < d {
        assert(s[n] == c && t[n] == d);
        assert(s.take(n) =~= t.take(n));
        assert(smaller_at(s, t, n));
        lemma_text_lt_irreflexive(s);
        if text_lt(t, s) {
            lemma_text_lt_transitive(s, t, s);
        }
    }
    assert(p.take(n) =~= s.take(n));
    assert(smaller_at(p, s, n));
    lemma_text_lt_irreflexive(p);
    if text_lt(s, p) {
        lemma_text_lt_transitive(p, s, p);
    }
}

/// A number is written with its digits from the highest down: the last is that of
/// the ones, and those before it are the number of whole tens.
pub proof fn law_decimal_digits(n: nat)
    ensures
        decimal(n).len() > 0,
        decimal(n).last() as int == 48 + n % 10,
        n >= 10 ==> decimal(n).drop_last() == decimal(n / 10),
        n < 10 ==> decimal(n).len() == 1,
{
    if n >= 10 {
        assert(decimal(n).drop_last() =~= decimal(n / 10));
    }
}

/// A padded number ends with its digits, is at least as wide as asked, is no wider
/// than its digits where those are enough, and has nothing but the fill in front.
pub proof fn law_padded(n: nat, width: nat, fill: char)
    ensures
        ({
            let s = padded(n, width, fill);
            let d = decimal(n);
            &&& s.len() == if d.len() < width {
                width
            } else {
                d.len()
            }
            &&& s.skip(s.len() - d.len()) == d
            &&& forall|i: int| 0 <= i < s.len() - d.len() ==> #[trigger] s[i] == fill
        }),
{
    let s = padded(n, width, fill);
    assert(s.skip(s.len() - decimal(n).len()) =~= decimal(n));
}

/// Two digits: a number below a hundred, padded with zeros to two places.
pub proof fn law_two_digits(n: nat)
    requires
        n < 100,
    ensures
        padded(n, 2, '0').len() == 2,
        padded(n, 2, '0')[0] as int == 48 + n / 10,
        padded(n, 2, '0')[1] as int == 48 + n % 10,
{
    reveal_with_fuel(decimal, 3);
    if n < 10 {
        assert(padded(n, 2, '0') =~= seq!['0', digit(n)]);
    } else {
        assert(decimal(n / 10) == seq![digit(n / 10)]);
        assert(padded(n, 2, '0') =~= seq![digit(n / 10), digit(n % 10)]);
    }
}

/// A 16-bit number is read from its digits, with or without a plus sign; a larger
/// number is refused, and so is a text in which anything but a digit stands.
pub proof fn law_parse_number(n: nat, s: Seq<char>, i: int)
    ensures
        n < 65536 ==> parsed_u16(decimal(n)) == Some(n as u16) && parsed_u16(
            seq!['+'] + decimal(n),
        ) == Some(n as u16),
        n >= 65536 ==> parsed_u16(decimal(n)) is None,
        s.len() == 0 ==> parsed_u16(s) is None,
        0 <= i < s.len() && !('0' <= s[i] <= '9') && !(i == 0 && s[i] == '+') ==> parsed_u16(
            s,
        ) is None,
{
    law_decimal_value(n);
    law_decimal_digits(n);
    assert('0' <= decimal(n)[0] <= '9');
    assert((seq!['+'] + decimal(n)).skip(1) =~= decimal(n));
    if 0 <= i < s.len() && !('0' <= s[i] <= '9') && !(i == 0 && s[i] == '+') {
        if s[0] == '+' {
            assert(s.skip(1)[i - 1] == s[i]);
        }
    }
}

/// A text that begins with a line, ended by a line feed with or without a carriage
/// return in front, has that line and then the lines of what follows.
pub proof fn law_lines(line: Seq<char>, rest: Seq<char>)
    requires
        !line.contains('\n'),
    ensures
        line.len() == 0 || line.last() != '\r' ==> text_lines(line.push('\n') + rest) == seq![line]
            + text_lines(rest),
        text_lines(line.push('\r').push('\n') + rest) == seq![line] + text_lines(rest),
        text_lines(line) == if line.len() == 0 {
            Seq::empty()
        } else {
            seq![line]
        },
{
    lemma_split_single(line, '\n');
    lemma_split_front(line, rest, '\n');
    let cr = line.push('\r');
    assert forall|i: int| 0 <= i < cr.len() implies cr[i] != '\n' by {
        if i < line.len() {
            assert(line.contains(line[i]));
        }
    }
    lemma_split_front(cr, rest, '\n');
    lemma_split_on_parts(rest, '\n');
    let parts = split_on(rest, '\n');
    let f = |p: Seq<char>| without_cr(p);
    let ended = parts.drop_last().map_values(f);
    let one = seq![line] + parts;
    let two = seq![cr] + parts;
    assert(one.drop_last() =~= seq![line] + parts.drop_last());
    assert(two.drop_last() =~= seq![cr] + parts.drop_last());
    assert(one.last() == parts.last() && two.last() == parts.last());
    assert(cr.drop_last() =~= line);
    assert(two.drop_last().map_values(f) =~= seq![line] + ended);
    assert(text_lines(cr.push('\n') + rest) =~= seq![line] + text_lines(rest));
    if line.len() == 0 || line.last() != '\r' {
        assert(one.drop_last().map_values(f) =~= seq![line] + ended);
        assert(text_lines(line.push('\n') + rest) =~= seq![line] + text_lines(rest));
    }
    assert(seq![line].drop_last() =~= Seq::<Seq<char>>::empty());
    assert(text_lines(line) =~= if line.len() == 0 {
        Seq::empty()
    } else {
        seq![line]
    });
}

/// The parts of a text that begins with a part and a separator.
pub proof fn lemma_split_front(part: Seq<char>, rest: Seq<char>, sep: char)
    requires
        !part.contains(sep),
    ensures
        split_on(part.push(sep) + rest, sep) == seq![part] + split_on(rest, sep),
    decreases rest.len(),
{
    lemma_split_on_parts(rest, sep);
    let all = part.push(sep) + rest;
    if rest.len() == 0 {
        lemma_split_single(part, sep);
        assert(all =~= part.push(sep));
        assert(all.drop_last() =~= part);
        assert(split_on(all, sep) =~= seq![part] + split_on(rest, sep));
    } else {
        let init = rest.drop_last();
        lemma_split_on_parts(init, sep);
        lemma_split_front(part, init, sep);
        assert(all.drop_last() =~= part.push(sep) + init);
        assert(all.last() == rest.last());
        assert(split_on(all, sep) =~= seq![part] + split_on(rest, sep));
    }
}

/// A text without line feeds has no byte of one.
pub proof fn lemma_no_line_feed(s: Seq<char>)
    requires
        forall|i: int| 0 <= i < s.len() ==> #[trigger] s[i] != '\n',
    ensures
        forall|i: int| 0 <= i < encode_utf8(s).len() ==> #[trigger] encode_utf8(s)[i] != 0x0a,
    decreases s.len(),
{
    if s.len() > 0 {
        let rest = s.drop_first();
        assert forall|i: int| 0 <= i < rest.len() implies #[trigger] rest[i] != '\n' by {
            assert(rest[i] == s[i + 1]);
        }
        lemma_no_line_feed(rest);
        let c = s[0] as u32;
        assert(s[0] != '\n');
        vstd::utf8::char_is_scalar(s[0]);
        vstd::utf8::char_u32_cast(s[0], c);
        assert(c != 0x0a);
        assert(c <= 0x7f && c != 0x0a ==> (c & 0x7f) as u8 != 0x0a) by (bit_vector);
        assert((0xC0 | ((c >> 6) & 0x1F) as u8) != 0x0a && (0xE0 | ((c >> 12) & 0x0F) as u8) != 0x0a
            && (0xF0 | ((c >> 18) & 0x7) as u8) != 0x0a && (0x80 | (c & 0x3F) as u8) != 0x0a && (0x80
            | ((c >> 6) & 0x3F) as u8) != 0x0a && (0x80 | ((c >> 12) & 0x3F) as u8) != 0x0a)
            by (bit_vector);
        let first = encode_scalar(c);
        assert forall|i: int| 0 <= i < first.len() implies #[trigger] first[i] != 0x0a by {}
        let all = encode_utf8(s);
        assert(all == first + encode_utf8(rest));
        assert forall|i: int| 0 <= i < all.len() implies #[trigger] all[i] != 0x0a by {
            if i >= first.len() {
                assert(all[i] == encode_utf8(rest)[i - first.len()]);
            } else {
                assert(all[i] == first[i]);
            }
        }
    }
}

} // verus!
