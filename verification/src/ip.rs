//! The textual form of IP addresses.

use crate::number;
use crate::text;
use vstd::prelude::*;

verus! {

/// A decimal number from 0 to 255 without leading zeros.
pub open spec fn is_octet(s: Seq<char>) -> bool {
    &&& 1 <= s.len() <= 3
    &&& number::all_digits(s, 10)
    &&& s.len() > 1 ==> s[0] != '0'
    &&& number::value(s, 10) <= 255
}

/// Four octets with dots between them.
pub open spec fn is_ipv4(s: Seq<char>) -> bool {
    let parts = text::split(s, '.');
    parts.len() == 4 && forall|i: int| 0 <= i < parts.len() ==> is_octet(#[trigger] parts[i])
}

/// One to four hexadecimal digits.
pub open spec fn is_group(s: Seq<char>) -> bool {
    1 <= s.len() <= 4 && number::all_digits(s, 16)
}

/// How many 16-bit groups `s` writes, colons between them. Where `v4_tail` allows it, an
/// IPv4 address may stand in place of the last two groups.
pub open spec fn groups(s: Seq<char>, v4_tail: bool) -> Option<int> {
    let parts = text::split(s, ':');
    if s.len() == 0 {
        Some(0)
    } else if forall|i: int| 0 <= i < parts.len() - 1 ==> is_group(#[trigger] parts[i]) {
        if is_group(parts.last()) {
            Some(parts.len() as int)
        } else if v4_tail && is_ipv4(parts.last()) {
            Some(parts.len() as int + 1)
        } else {
            None
        }
    } else {
        None
    }
}

/// Whether the two colons at `i` stand for at least one zero group, the groups on both
/// sides given.
pub open spec fn compressed_at(s: Seq<char>, i: int) -> bool {
    &&& 0 <= i < s.len() - 1
    &&& s[i] == ':'
    &&& s[i + 1] == ':'
    &&& groups(s.take(i), false) is Some
    &&& groups(s.skip(i + 2), true) is Some
    &&& groups(s.take(i), false)->0 + groups(s.skip(i + 2), true)->0 <= 7
}

/// Eight groups, or fewer with `::` in place of the missing ones.
pub open spec fn is_ipv6(s: Seq<char>) -> bool {
    groups(s, true) == Some(8int) || exists|i: int| compressed_at(s, i)
}

/// Whether `s` is an IPv4 or an IPv6 address.
pub open spec fn is_address(s: Seq<char>) -> bool {
    is_ipv4(s) || is_ipv6(s)
}

fn octet(v: &Vec<char>) -> (res: bool)
    ensures
        res == is_octet(v@),
{
    if v.len() == 0 || v.len() > 3 || !number::digits_only(v, 10) {
        return false;
    }
    if v.len() > 1 && v[0] == '0' {
        return false;
    }
    assert(number::digit_value(v@[0]) < 10);
    number::parsed_unsigned(v, 10, 255).is_some()
}

fn ipv4(v: &Vec<char>) -> (res: bool)
    ensures
        res == is_ipv4(v@),
{
    let parts = text::pieces(v, '.');
    let ghost views = text::views(parts@);
    assert(views.len() == parts@.len());
    if parts.len() != 4 {
        return false;
    }
    let mut i: usize = 0;
    while i < parts.len()
        invariant
            i <= parts.len(),
            parts.len() == 4,
            views == text::views(parts@),
            views == text::split(v@, '.'),
            forall|k: int| 0 <= k < i ==> is_octet(#[trigger] views[k]),
        decreases parts.len() - i,
    {
        if !octet(&parts[i]) {
            assert(!is_octet(views[i as int]));
            return false;
        }
        i = i + 1;
    }
    true
}

fn group(v: &Vec<char>) -> (res: bool)
    ensures
        res == is_group(v@),
{
    1 <= v.len() && v.len() <= 4 && number::digits_only(v, 16)
}

fn count_groups(v: &Vec<char>, v4_tail: bool) -> (res: Option<usize>)
    ensures
        match res {
            Some(n) => groups(v@, v4_tail) == Some(n as int),
            None => groups(v@, v4_tail) is None || groups(v@, v4_tail)->0 > 8,
        },
{
    if v.len() == 0 {
        return Some(0);
    }
    let parts = text::pieces(v, ':');
    let ghost views = text::views(parts@);
    let n: usize = parts.len();
    proof {
        text::lemma_split_not_empty(v@, ':');
        assert(views.len() == n);
        assert(views.last() == parts@.last()@);
    }
    if n > 8 {
        return None;
    }
    let mut i: usize = 0;
    while i < n - 1
        invariant
            0 < n <= 8,
            i <= n - 1,
            n == parts.len(),
            v.len() > 0,
            views == text::views(parts@),
            views == text::split(v@, ':'),
            forall|k: int| 0 <= k < i ==> is_group(#[trigger] views[k]),
        decreases n - i,
    {
        if !group(&parts[i]) {
            assert(!is_group(views[i as int]));
            return None;
        }
        i = i + 1;
    }
    if group(&parts[n - 1]) {
        Some(n)
    } else if v4_tail && ipv4(&parts[n - 1]) {
        Some(n + 1)
    } else {
        None
    }
}

fn ipv6(v: &Vec<char>) -> (res: bool)
    ensures
        res == is_ipv6(v@),
{
    if let Some(n) = count_groups(v, true) {
        if n == 8 {
            return true;
        }
    }
    assert(groups(v@, true) != Some(8int));
    let mut i: usize = 0;
    while i < v.len()
        invariant
            i <= v.len(),
            groups(v@, true) != Some(8int),
            forall|k: int| 0 <= k < i ==> !#[trigger] compressed_at(v@, k),
        decreases v.len() - i,
    {
        if i + 1 < v.len() && v[i] == ':' && v[i + 1] == ':' {
            let head = text::cut(v, 0, i);
            let tail = text::cut(v, i + 2, v.len());
            assert(head@ == v@.take(i as int));
            assert(tail@ == v@.skip(i + 2));
            let a = count_groups(&head, false);
            let b = count_groups(&tail, true);
            proof {
                lemma_groups_not_negative(head@, false);
                lemma_groups_not_negative(tail@, true);
            }
            if let (Some(a), Some(b)) = (a, b) {
                if a <= 7 && b <= 7 && a + b <= 7 {
                    assert(compressed_at(v@, i as int));
                    return true;
                }
            }
        }
        i = i + 1;
    }
    assert(forall|k: int| !compressed_at(v@, k));
    false
}

proof fn lemma_groups_not_negative(s: Seq<char>, v4_tail: bool)
    ensures
        groups(s, v4_tail) is Some ==> groups(s, v4_tail)->0 >= 0,
{
}

/// Whether the text is an IP address.
pub fn address(s: &str) -> (res: bool)
    ensures
        res == is_address(s@),
{
    let v = text::chars_of(s);
    ipv4(&v) || ipv6(&v)
}

/// Where every piece is free of a character other than the separator, so is the whole.
proof fn lemma_pieces_lack(s: Seq<char>, sep: char, c: char)
    requires
        c != sep,
        forall|i: int|
            0 <= i < text::split(s, sep).len() ==> text::lacks(#[trigger] text::split(s, sep)[i], c),
    ensures
        text::lacks(s, c),
    decreases s.len(),
{
    text::lemma_position(s, sep);
    let i = text::position(s, sep);
    let parts = text::split(s, sep);
    assert(text::lacks(parts[0], c));
    if i < s.len() {
        let rest = s.skip(i + 1);
        assert forall|k: int| 0 <= k < text::split(rest, sep).len() implies text::lacks(
            #[trigger] text::split(rest, sep)[k],
            c,
        ) by {
            assert(parts[k + 1] == text::split(rest, sep)[k]);
        }
        lemma_pieces_lack(rest, sep, c);
        assert forall|k: int| 0 <= k < s.len() implies s[k] != c by {
            if k < i {
                assert(s[k] == parts[0][k]);
            } else if k > i {
                assert(s[k] == rest[k - i - 1]);
            }
        }
    }
}

proof fn lemma_digits_lack_newline(s: Seq<char>, radix: nat)
    requires
        number::all_digits(s, radix),
        radix <= 16,
    ensures
        text::lacks(s, '\n'),
{
    assert forall|i: int| 0 <= i < s.len() implies s[i] != '\n' by {
        assert(number::digit_value(s[i]) < radix);
    }
}

proof fn lemma_ipv4_lacks_newline(s: Seq<char>)
    requires
        is_ipv4(s),
    ensures
        text::lacks(s, '\n'),
{
    let parts = text::split(s, '.');
    assert forall|i: int| 0 <= i < parts.len() implies text::lacks(#[trigger] parts[i], '\n') by {
        assert(is_octet(parts[i]));
        lemma_digits_lack_newline(parts[i], 10);
    }
    lemma_pieces_lack(s, '.', '\n');
}

proof fn lemma_groups_lack_newline(s: Seq<char>, v4_tail: bool)
    requires
        groups(s, v4_tail) is Some,
    ensures
        text::lacks(s, '\n'),
{
    if s.len() > 0 {
        let parts = text::split(s, ':');
        text::lemma_split_not_empty(s, ':');
        assert forall|i: int| 0 <= i < parts.len() implies text::lacks(
            #[trigger] parts[i],
            '\n',
        ) by {
            if i < parts.len() - 1 || is_group(parts.last()) {
                assert(is_group(parts[i]));
                lemma_digits_lack_newline(parts[i], 16);
            } else {
                lemma_ipv4_lacks_newline(parts[i]);
            }
        }
        lemma_pieces_lack(s, ':', '\n');
    }
}

/// An address is free of line feeds.
pub proof fn lemma_address_lacks_newline(s: Seq<char>)
    requires
        is_address(s),
    ensures
        text::lacks(s, '\n'),
{
    if is_ipv4(s) {
        lemma_ipv4_lacks_newline(s);
    } else if groups(s, true) == Some(8int) {
        lemma_groups_lack_newline(s, true);
    } else {
        let i = choose|i: int| compressed_at(s, i);
        lemma_groups_lack_newline(s.take(i), false);
        lemma_groups_lack_newline(s.skip(i + 2), true);
        assert forall|k: int| 0 <= k < s.len() implies s[k] != '\n' by {
            if k < i {
                assert(s[k] == s.take(i)[k]);
            } else if k > i + 1 {
                assert(s[k] == s.skip(i + 2)[k - i - 2]);
            }
        }
    }
}

/// The text of four numbers with dots between them.
pub open spec fn quad(a: nat, b: nat, c: nat, d: nat) -> Seq<char> {
    number::decimal(a) + seq!['.'] + number::decimal(b) + seq!['.'] + number::decimal(c) + seq!['.']
        + number::decimal(d)
}

/// An octet is the decimal notation of a number below 256.
proof fn lemma_octet(s: Seq<char>)
    ensures
        is_octet(s) <==> exists|n: nat| n < 256 && s == #[trigger] number::decimal(n),
{
    if is_octet(s) {
        number::lemma_digits_are_decimal(s);
        assert(s == number::decimal(number::value(s, 10)));
    }
    if exists|n: nat| n < 256 && s == #[trigger] number::decimal(n) {
        let n = choose|n: nat| n < 256 && s == #[trigger] number::decimal(n);
        number::lemma_decimal(n);
        number::lemma_decimal_is_shortest(n);
        assert(s.len() <= 3) by {
            reveal_with_fuel(number::decimal, 4);
        }
        if s.len() > 1 && n == 0 {
            assert(number::decimal(0) == seq!['0']);
        }
    }
}

proof fn lemma_quad(a: nat, b: nat, c: nat, d: nat)
    ensures
        text::split(quad(a, b, c, d), '.') == seq![
            number::decimal(a),
            number::decimal(b),
            number::decimal(c),
            number::decimal(d),
        ],
        text::lacks(quad(a, b, c, d), ':'),
{
    let (w, x, y, z) = (
        number::decimal(a),
        number::decimal(b),
        number::decimal(c),
        number::decimal(d),
    );
    number::lemma_decimal(a);
    number::lemma_decimal(b);
    number::lemma_decimal(c);
    number::lemma_decimal(d);
    text::lemma_split_single(w, '.');
    text::lemma_split_single(x, '.');
    text::lemma_split_single(y, '.');
    text::lemma_split_single(z, '.');
    text::lemma_split_concat(w, '.', x);
    text::lemma_split_concat(w + seq!['.'] + x, '.', y);
    text::lemma_split_concat(w + seq!['.'] + x + seq!['.'] + y, '.', z);
    assert(text::split(quad(a, b, c, d), '.') == seq![w, x, y, z]);
    let parts = text::split(quad(a, b, c, d), '.');
    assert forall|i: int| 0 <= i < parts.len() implies text::lacks(#[trigger] parts[i], ':') by {
        let p = parts[i];
        assert(p == w || p == x || p == y || p == z);
    }
    lemma_pieces_lack(quad(a, b, c, d), '.', ':');
}

/// Text without a colon is an address exactly where it is four numbers below 256, in
/// decimal and without needless zeros, with dots between them.
pub proof fn lemma_dotted_addresses(s: Seq<char>)
    requires
        text::lacks(s, ':'),
    ensures
        is_address(s) <==> exists|a: nat, b: nat, c: nat, d: nat|
            a < 256 && b < 256 && c < 256 && d < 256 && s == #[trigger] quad(a, b, c, d),
{
    if is_address(s) {
        text::lemma_split_single(s, ':');
        assert(groups(s, true) != Some(8int));
        assert forall|i: int| !compressed_at(s, i) by {}
        assert(is_ipv4(s));
        let parts = text::split(s, '.');
        text::lemma_split_joins_back(s, '.');
        assert(is_octet(parts[0]) && is_octet(parts[1]) && is_octet(parts[2]) && is_octet(parts[3]));
        lemma_octet(parts[0]);
        lemma_octet(parts[1]);
        lemma_octet(parts[2]);
        lemma_octet(parts[3]);
        let a = choose|n: nat| n < 256 && parts[0] == #[trigger] number::decimal(n);
        let b = choose|n: nat| n < 256 && parts[1] == #[trigger] number::decimal(n);
        let c = choose|n: nat| n < 256 && parts[2] == #[trigger] number::decimal(n);
        let d = choose|n: nat| n < 256 && parts[3] == #[trigger] number::decimal(n);
        let dot = seq!['.'];
        let one = seq![parts[0]];
        text::lemma_join(Seq::empty(), parts[0], dot);
        text::lemma_join(one, parts[1], dot);
        text::lemma_join(one.push(parts[1]), parts[2], dot);
        text::lemma_join(one.push(parts[1]).push(parts[2]), parts[3], dot);
        assert(parts == one.push(parts[1]).push(parts[2]).push(parts[3]));
        assert(s == quad(a, b, c, d));
    }
    if exists|a: nat, b: nat, c: nat, d: nat|
        a < 256 && b < 256 && c < 256 && d < 256 && s == #[trigger] quad(a, b, c, d) {
        let (a, b, c, d) = choose|a: nat, b: nat, c: nat, d: nat|
            a < 256 && b < 256 && c < 256 && d < 256 && s == #[trigger] quad(a, b, c, d);
        lemma_quad(a, b, c, d);
        lemma_octet(number::decimal(a));
        lemma_octet(number::decimal(b));
        lemma_octet(number::decimal(c));
        lemma_octet(number::decimal(d));
        let parts = text::split(s, '.');
        assert forall|i: int| 0 <= i < parts.len() implies is_octet(#[trigger] parts[i]) by {
            assert(i == 0 || i == 1 || i == 2 || i == 3);
        }
    }
}

/// Whether each part is one to four hexadecimal digits.
pub open spec fn hex_parts(parts: Seq<Seq<char>>) -> bool {
    forall|i: int|
        0 <= i < parts.len() ==> 1 <= (#[trigger] parts[i]).len() <= 4 && number::all_digits(
            parts[i],
            16,
        )
}

proof fn lemma_split_of_joined(parts: Seq<Seq<char>>, sep: char)
    requires
        parts.len() > 0,
        forall|i: int| 0 <= i < parts.len() ==> text::lacks(#[trigger] parts[i], sep),
    ensures
        text::split(text::join(parts, seq![sep]), sep) == parts,
    decreases parts.len(),
{
    if parts.len() == 1 {
        text::lemma_split_single(parts[0], sep);
        assert(parts == seq![parts[0]]);
    } else {
        let init = parts.drop_last();
        assert forall|i: int| 0 <= i < init.len() implies text::lacks(#[trigger] init[i], sep) by {
            assert(init[i] == parts[i]);
        }
        lemma_split_of_joined(init, sep);
        text::lemma_split_concat(text::join(init, seq![sep]), sep, parts.last());
        assert(text::lacks(parts[parts.len() - 1], sep));
        text::lemma_split_single(parts.last(), sep);
        assert(init + seq![parts.last()] == parts);
    }
}

proof fn lemma_groups_of_joined(parts: Seq<Seq<char>>, v4_tail: bool)
    requires
        hex_parts(parts),
    ensures
        groups(text::join(parts, seq![':']), v4_tail) == Some(parts.len() as int),
{
    let s = text::join(parts, seq![':']);
    if parts.len() > 0 {
        assert forall|i: int| 0 <= i < parts.len() implies text::lacks(
            #[trigger] parts[i],
            ':',
        ) by {
            assert forall|k: int| 0 <= k < parts[i].len() implies parts[i][k] != ':' by {
                assert(number::digit_value(parts[i][k]) < 16);
            }
        }
        lemma_split_of_joined(parts, ':');
        assert(parts[parts.len() - 1].len() >= 1);
        if s.len() == 0 {
            text::lemma_split_single(s, ':');
        }
        assert forall|i: int| 0 <= i < parts.len() implies is_group(#[trigger] parts[i]) by {}
        assert(is_group(parts[parts.len() - 1]));
    }
}

/// Where an empty piece would come from.
proof fn lemma_gap_is_empty_piece(s: Seq<char>, i: int)
    requires
        0 <= i < s.len(),
        s[i] == ':',
        i == 0 || i == s.len() - 1 || s[i + 1] == ':',
    ensures
        exists|k: int|
            0 <= k < text::split(s, ':').len() && (#[trigger] text::split(s, ':')[k]).len() == 0,
{
    let (a, b) = (s.take(i), s.skip(i + 1));
    assert(s == a + seq![':'] + b);
    text::lemma_split_concat(a, ':', b);
    let parts = text::split(s, ':');
    let n = text::split(a, ':').len() as int;
    if i == 0 {
        assert(a == Seq::<char>::empty());
        text::lemma_split_single(a, ':');
        assert(parts[0].len() == 0);
    } else if i == s.len() - 1 {
        assert(b == Seq::<char>::empty());
        text::lemma_split_single(b, ':');
        assert(parts[n].len() == 0);
    } else {
        let c = b.skip(1);
        let none = Seq::<char>::empty();
        assert(b == none + seq![':'] + c);
        text::lemma_split_concat(none, ':', c);
        text::lemma_split_single(none, ':');
        assert(parts[n].len() == 0);
    }
}

/// Joined groups neither begin nor end with a colon, and have no two colons in a row.
proof fn lemma_joined_has_no_gap(parts: Seq<Seq<char>>)
    requires
        hex_parts(parts),
    ensures
        ({
            let s = text::join(parts, seq![':']);
            &&& s.len() > 0 ==> s[0] != ':' && s[s.len() - 1] != ':'
            &&& forall|i: int| 0 <= i < s.len() - 1 && #[trigger] s[i] == ':' ==> s[i + 1] != ':'
            &&& text::lacks(s, '.')
        }),
{
    let s = text::join(parts, seq![':']);
    if parts.len() > 0 {
        assert forall|i: int| 0 <= i < parts.len() implies text::lacks(#[trigger] parts[i], ':')
            && text::lacks(parts[i], '.') by {
            assert forall|k: int| 0 <= k < parts[i].len() implies parts[i][k] != ':' && parts[i][k]
                != '.' by {
                assert(number::digit_value(parts[i][k]) < 16);
            }
        }
        lemma_split_of_joined(parts, ':');
        assert forall|k: int| 0 <= k < parts.len() implies (#[trigger] parts[k]).len() > 0 by {}
        if s.len() > 0 && s[0] == ':' {
            lemma_gap_is_empty_piece(s, 0);
        }
        if s.len() > 0 && s[s.len() - 1] == ':' {
            lemma_gap_is_empty_piece(s, s.len() - 1);
        }
        assert forall|i: int| 0 <= i < s.len() - 1 && #[trigger] s[i] == ':' implies s[i + 1]
            != ':' by {
            if s[i + 1] == ':' {
                lemma_gap_is_empty_piece(s, i);
            }
        }
        lemma_pieces_lack(s, ':', '.');
    }
}

/// Groups of one to four hexadecimal digits with colons between them are an address
/// exactly where there are eight of them. With two colons in one place, at either end or
/// between groups, they are one exactly where fewer than eight are given.
pub proof fn lemma_colon_addresses(head: Seq<Seq<char>>, tail: Seq<Seq<char>>)
    requires
        hex_parts(head),
        hex_parts(tail),
    ensures
        is_address(text::join(head, seq![':'])) <==> head.len() == 8,
        is_address(text::join(head, seq![':']) + seq![':', ':'] + text::join(tail, seq![':']))
            <==> head.len() + tail.len() <= 7,
{
    let a = text::join(head, seq![':']);
    let b = text::join(tail, seq![':']);
    let s = a + seq![':', ':'] + b;
    lemma_groups_of_joined(head, true);
    lemma_groups_of_joined(head, false);
    lemma_groups_of_joined(tail, true);
    lemma_joined_has_no_gap(head);
    lemma_joined_has_no_gap(tail);
    text::lemma_split_single(a, '.');
    assert(!is_ipv4(a));
    assert forall|k: int| !compressed_at(a, k) by {
        if 0 <= k < a.len() - 1 && a[k] == ':' {
            assert(a[k + 1] != ':');
        }
    }
    let i = a.len() as int;
    assert(s.take(i) == a);
    assert(s.skip(i + 2) == b);
    assert(text::lacks(s, '.'));
    text::lemma_split_single(s, '.');
    assert(!is_ipv4(s));
    assert(s[i] == ':' && s[i + 1] == ':');
    assert(groups(s, true) is None) by {
        lemma_gap_is_empty_piece(s, i);
        let parts = text::split(s, ':');
        let k = choose|k: int| 0 <= k < parts.len() && (#[trigger] parts[k]).len() == 0;
        assert(!is_group(parts[k]));
        text::lemma_split_single(parts[k], '.');
        assert(!is_ipv4(parts[k]));
    }
    assert forall|k: int| k != i implies !compressed_at(s, k) by {
        if 0 <= k < s.len() - 1 && s[k] == ':' && s[k + 1] == ':' {
            if k < i - 1 {
                assert(a[k] == ':' && a[k + 1] == ':');
            } else if k == i - 1 {
                assert(a[k] == ':');
            } else if k == i + 1 {
                assert(b[0] == ':');
            } else {
                assert(b[k - i - 2] == ':' && b[k - i - 1] == ':');
            }
        }
    }
    if head.len() + tail.len() <= 7 {
        assert(compressed_at(s, i));
    }
}

proof fn lemma_ipv4_characters(s: Seq<char>)
    requires
        is_ipv4(s),
    ensures
        forall|i: int| 0 <= i < s.len() ==> number::digit_value(#[trigger] s[i]) < 10 || s[i] == '.',
{
    let parts = text::split(s, '.');
    assert forall|i: int| 0 <= i < s.len() implies number::digit_value(#[trigger] s[i]) < 10 || s[i]
        == '.' by {
        let c = s[i];
        if c != '.' && number::digit_value(c) >= 10 {
            assert forall|k: int| 0 <= k < parts.len() implies text::lacks(
                #[trigger] parts[k],
                c,
            ) by {
                assert(is_octet(parts[k]));
            }
            lemma_pieces_lack(s, '.', c);
        }
    }
}

proof fn lemma_groups_characters(s: Seq<char>, v4_tail: bool)
    requires
        groups(s, v4_tail) is Some,
    ensures
        forall|i: int|
            0 <= i < s.len() ==> number::digit_value(#[trigger] s[i]) < 16 || s[i] == '.' || s[i]
                == ':',
{
    if s.len() > 0 {
        let parts = text::split(s, ':');
        assert forall|i: int| 0 <= i < s.len() implies number::digit_value(#[trigger] s[i]) < 16
            || s[i] == '.' || s[i] == ':' by {
            let c = s[i];
            if c != ':' && c != '.' && number::digit_value(c) >= 16 {
                assert forall|k: int| 0 <= k < parts.len() implies text::lacks(
                    #[trigger] parts[k],
                    c,
                ) by {
                    if k < parts.len() - 1 || is_group(parts.last()) {
                        assert(is_group(parts[k]));
                    } else {
                        lemma_ipv4_characters(parts[k]);
                    }
                }
                lemma_pieces_lack(s, ':', c);
            }
        }
    }
}

/// An address is made of hexadecimal digits, dots and colons.
pub proof fn lemma_address_characters(s: Seq<char>)
    requires
        is_address(s),
    ensures
        forall|i: int|
            0 <= i < s.len() ==> number::digit_value(#[trigger] s[i]) < 16 || s[i] == '.' || s[i]
                == ':',
{
    if is_ipv4(s) {
        lemma_ipv4_characters(s);
    } else if groups(s, true) == Some(8int) {
        lemma_groups_characters(s, true);
    } else {
        let k = choose|k: int| compressed_at(s, k);
        lemma_groups_characters(s.take(k), false);
        lemma_groups_characters(s.skip(k + 2), true);
        assert forall|i: int| 0 <= i < s.len() implies number::digit_value(#[trigger] s[i]) < 16
            || s[i] == '.' || s[i] == ':' by {
            if i < k {
                assert(s[i] == s.take(k)[i]);
            } else if i > k + 1 {
                assert(s[i] == s.skip(k + 2)[i - k - 2]);
            }
        }
    }
}

/// Parts with colons between them, none of them empty or with a colon in it.
proof fn lemma_solid_parts(parts: Seq<Seq<char>>)
    requires
        parts.len() > 0,
        forall|i: int|
            0 <= i < parts.len() ==> (#[trigger] parts[i]).len() > 0 && text::lacks(parts[i], ':'),
    ensures
        ({
            let s = text::join(parts, seq![':']);
            &&& text::split(s, ':') == parts
            &&& s.len() > 0
            &&& s[0] != ':' && s[s.len() - 1] != ':'
            &&& forall|i: int| 0 <= i < s.len() - 1 && #[trigger] s[i] == ':' ==> s[i + 1] != ':'
        }),
{
    let s = text::join(parts, seq![':']);
    lemma_split_of_joined(parts, ':');
    assert forall|k: int| 0 <= k < parts.len() implies (#[trigger] parts[k]).len() > 0 by {}
    if s.len() == 0 {
        text::lemma_split_single(s, ':');
        assert(parts[0].len() == 0);
    }
    if s[0] == ':' {
        lemma_gap_is_empty_piece(s, 0);
    }
    if s[s.len() - 1] == ':' {
        lemma_gap_is_empty_piece(s, s.len() - 1);
    }
    assert forall|i: int| 0 <= i < s.len() - 1 && #[trigger] s[i] == ':' implies s[i + 1] != ':' by {
        if s[i + 1] == ':' {
            lemma_gap_is_empty_piece(s, i);
        }
    }
}

proof fn lemma_hex_parts_are_solid(parts: Seq<Seq<char>>)
    requires
        hex_parts(parts),
    ensures
        forall|i: int|
            0 <= i < parts.len() ==> (#[trigger] parts[i]).len() > 0 && text::lacks(parts[i], ':'),
{
    assert forall|i: int| 0 <= i < parts.len() implies (#[trigger] parts[i]).len() > 0
        && text::lacks(parts[i], ':') by {
        assert forall|k: int| 0 <= k < parts[i].len() implies parts[i][k] != ':' by {
            assert(number::digit_value(parts[i][k]) < 16);
        }
    }
}

/// An address without a colon is four octets, and no group.
proof fn lemma_dotted_is_no_group(quad: Seq<char>)
    requires
        text::lacks(quad, ':'),
        is_address(quad),
    ensures
        is_ipv4(quad),
        !is_group(quad),
        quad.len() > 0,
{
    text::lemma_split_single(quad, ':');
    assert(groups(quad, true) != Some(8int));
    assert forall|i: int| !compressed_at(quad, i) by {}
    if text::lacks(quad, '.') {
        text::lemma_split_single(quad, '.');
    }
    let k = choose|k: int| 0 <= k < quad.len() && quad[k] == '.';
    assert(number::digit_value(quad[k]) >= 16);
}

proof fn lemma_groups_with_dotted_tail(parts: Seq<Seq<char>>, quad: Seq<char>)
    requires
        hex_parts(parts),
        text::lacks(quad, ':'),
        is_address(quad),
    ensures
        ({
            let s = text::join(parts.push(quad), seq![':']);
            &&& groups(s, true) == Some(parts.len() as int + 2)
            &&& groups(s, false) is None
            &&& s.len() > 0
            &&& s[0] != ':' && s[s.len() - 1] != ':'
            &&& forall|i: int| 0 <= i < s.len() - 1 && #[trigger] s[i] == ':' ==> s[i + 1] != ':'
        }),
{
    let all = parts.push(quad);
    lemma_dotted_is_no_group(quad);
    lemma_hex_parts_are_solid(parts);
    assert forall|i: int| 0 <= i < all.len() implies (#[trigger] all[i]).len() > 0 && text::lacks(
        all[i],
        ':',
    ) by {
        if i < parts.len() {
            assert(all[i] == parts[i]);
        }
    }
    lemma_solid_parts(all);
    assert forall|i: int| 0 <= i < all.len() - 1 implies is_group(#[trigger] all[i]) by {
        assert(all[i] == parts[i]);
    }
    assert(all.last() == quad);
}

/// Two colons stand in one place only, so that only there can groups be left out.
proof fn lemma_one_gap(a: Seq<char>, b: Seq<char>)
    requires
        a.len() > 0 ==> a[a.len() - 1] != ':',
        b.len() > 0 ==> b[0] != ':',
        forall|i: int| 0 <= i < a.len() - 1 && #[trigger] a[i] == ':' ==> a[i + 1] != ':',
        forall|i: int| 0 <= i < b.len() - 1 && #[trigger] b[i] == ':' ==> b[i + 1] != ':',
    ensures
        ({
            let s = a + seq![':', ':'] + b;
            &&& !is_ipv4(s)
            &&& groups(s, true) is None
            &&& forall|k: int| k != a.len() ==> !compressed_at(s, k)
            &&& s.take(a.len() as int) == a
            &&& s.skip(a.len() as int + 2) == b
            &&& s[a.len() as int] == ':' && s[a.len() as int + 1] == ':'
        }),
{
    let s = a + seq![':', ':'] + b;
    let i = a.len() as int;
    assert(s.take(i) == a);
    assert(s.skip(i + 2) == b);
    assert(s[i] == ':' && s[i + 1] == ':');
    if is_ipv4(s) {
        lemma_ipv4_characters(s);
        assert(number::digit_value(s[i]) < 10 || s[i] == '.');
    }
    assert(groups(s, true) is None) by {
        lemma_gap_is_empty_piece(s, i);
        let parts = text::split(s, ':');
        let k = choose|k: int| 0 <= k < parts.len() && (#[trigger] parts[k]).len() == 0;
        assert(!is_group(parts[k]));
        text::lemma_split_single(parts[k], '.');
        assert(!is_ipv4(parts[k]));
    }
    assert forall|k: int| k != i implies !compressed_at(s, k) by {
        if 0 <= k < s.len() - 1 && s[k] == ':' && s[k + 1] == ':' {
            if k < i - 1 {
                assert(a[k] == ':' && a[k + 1] == ':');
            } else if k == i - 1 {
                assert(a[k] == ':');
            } else if k == i + 1 {
                assert(b[0] == ':');
            } else {
                assert(b[k - i - 2] == ':' && b[k - i - 1] == ':');
            }
        }
    }
}

/// Four octets may stand in place of the last two groups: after six groups, or after two
/// colons where five groups or fewer are given besides. They may not stand before the two
/// colons.
#[verifier::rlimit(40)]
pub proof fn lemma_dotted_tails(head: Seq<Seq<char>>, tail: Seq<Seq<char>>, quad: Seq<char>)
    requires
        hex_parts(head),
        hex_parts(tail),
        text::lacks(quad, ':'),
        is_address(quad),
    ensures
        head.len() > 0 ==> (is_address(text::join(head.push(quad), seq![':'])) <==> head.len()
            == 6),
        is_address(
            text::join(head, seq![':']) + seq![':', ':'] + text::join(tail.push(quad), seq![':']),
        ) <==> head.len() + tail.len() <= 5,
        !is_address(
            text::join(head.push(quad), seq![':']) + seq![':', ':'] + text::join(tail, seq![':']),
        ),
{
    let a = text::join(head, seq![':']);
    let b = text::join(tail, seq![':']);
    let aq = text::join(head.push(quad), seq![':']);
    let bq = text::join(tail.push(quad), seq![':']);
    lemma_groups_of_joined(head, false);
    lemma_joined_has_no_gap(head);
    lemma_joined_has_no_gap(tail);
    lemma_groups_with_dotted_tail(head, quad);
    lemma_groups_with_dotted_tail(tail, quad);
    if head.len() > 0 {
        assert forall|k: int| !compressed_at(aq, k) by {
            if 0 <= k < aq.len() - 1 && aq[k] == ':' {
                assert(aq[k + 1] != ':');
            }
        }
        assert(!is_ipv4(aq)) by {
            assert(head.push(quad).drop_last() == head);
            assert(aq == a + seq![':'] + quad);
            assert(aq[a.len() as int] == ':');
            if is_ipv4(aq) {
                lemma_ipv4_characters(aq);
                assert(number::digit_value(aq[a.len() as int]) < 10 || aq[a.len() as int] == '.');
            }
        }
    }
    lemma_one_gap(a, bq);
    lemma_one_gap(aq, b);
    let s = a + seq![':', ':'] + bq;
    if head.len() + tail.len() <= 5 {
        assert(compressed_at(s, a.len() as int));
    }
    let t = aq + seq![':', ':'] + b;
    assert(!compressed_at(t, aq.len() as int));
}

} // verus!
