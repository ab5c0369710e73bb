//! The default route's gateway, read from the kernel's routing table.

use crate::ip;
use crate::number;
use crate::text;
use vstd::prelude::*;

verus! {

/// A default route: its metric, and its gateway as the number in the table.
pub struct Route {
    pub metric: nat,
    pub gateway: nat,
}

/// The default route that a line of the table describes, if it describes one that has a
/// gateway. A metric that is not a number counts as the largest.
pub open spec fn default_route(line: Seq<char>) -> Option<Route> {
    let fields = text::words(line);
    if fields.len() < 11 || fields[1] != "00000000"@ || fields[2] == "00000000"@ {
        None
    } else {
        match number::parse_unsigned(fields[2], 16, u32::MAX as nat) {
            None => None,
            Some(gateway) => Some(
                Route {
                    metric: match number::parse_unsigned(fields[6], 10, u64::MAX as nat) {
                        Some(n) => n,
                        None => u64::MAX as nat,
                    },
                    gateway,
                },
            ),
        }
    }
}

/// The default route with the lowest metric, the earliest among equals.
pub open spec fn best_route(lines: Seq<Seq<char>>) -> Option<Route>
    decreases lines.len(),
{
    if lines.len() == 0 {
        None
    } else {
        let best = best_route(lines.drop_last());
        match default_route(lines.last()) {
            None => best,
            Some(route) => match best {
                None => Some(route),
                Some(b) => if route.metric < b.metric {
                    Some(route)
                } else {
                    Some(b)
                },
            },
        }
    }
}

/// The dotted form of an address held with its first octet in the lowest byte.
pub open spec fn dotted(v: nat) -> Seq<char> {
    number::decimal(v % 256) + seq!['.'] + number::decimal(v / 256 % 256) + seq!['.']
        + number::decimal(v / 65536 % 256) + seq!['.'] + number::decimal(v / 16777216 % 256)
}

/// The gateway of the best default route in a table whose first line is a heading.
pub open spec fn gateway_of(table: Seq<char>) -> Option<Seq<char>> {
    let lines = text::lines(table);
    if lines.len() == 0 {
        None
    } else {
        match best_route(lines.skip(1)) {
            Some(route) => Some(dotted(route.gateway)),
            None => None,
        }
    }
}

fn dotted_of(v: u32) -> (res: String)
    ensures
        res@ == dotted(v as nat),
{
    let mut out = number::decimal_of((v % 256) as u128);
    out.push('.');
    out.append(number::decimal_of((v / 256 % 256) as u128).as_str());
    out.push('.');
    out.append(number::decimal_of((v / 65536 % 256) as u128).as_str());
    out.push('.');
    out.append(number::decimal_of((v / 16777216 % 256) as u128).as_str());
    assert(out@ == dotted(v as nat));
    out
}

fn default_route_of(line: &Vec<char>) -> (res: Option<(u64, u32)>)
    ensures
        match res {
            Some((metric, gateway)) => default_route(line@) == Some(
                Route { metric: metric as nat, gateway: gateway as nat },
            ),
            None => default_route(line@) is None,
        },
{
    let fields = text::word_list(line);
    let ghost words = text::views(fields@);
    assert(words.len() == fields@.len());
    if fields.len() < 11 {
        return None;
    }
    assert(words[1] == fields@[1]@);
    assert(words[2] == fields@[2]@);
    assert(words[6] == fields@[6]@);
    if !text::is(&fields[1], "00000000") || text::is(&fields[2], "00000000") {
        return None;
    }
    match number::parsed_unsigned(&fields[2], 16, u32::MAX as u64) {
        None => None,
        Some(gateway) => {
            let metric: u64 = match number::parsed_unsigned(&fields[6], 10, u64::MAX) {
                Some(n) => n,
                None => u64::MAX,
            };
            Some((metric, gateway as u32))
        },
    }
}

/// The default route's gateway in the text of `/proc/net/route`. The gateway column is a
/// hexadecimal number in little-endian order; the lowest metric wins.
pub fn default_gateway_from(table: &str) -> (res: Option<String>)
    ensures
        match res {
            Some(ip) => gateway_of(table@) == Some(ip@),
            None => gateway_of(table@) is None,
        },
{
    let lines = text::lines_of(&text::chars_of(table));
    let ghost views = text::views(lines@);
    assert(views.len() == lines@.len());
    if lines.len() == 0 {
        return None;
    }
    let mut best: Option<(u64, u32)> = None;
    let mut i: usize = 1;
    assert(views.skip(1).take(0) == Seq::<Seq<char>>::empty());
    while i < lines.len()
        invariant
            1 <= i <= lines.len(),
            views == text::views(lines@),
            match best {
                Some((metric, gateway)) => best_route(views.skip(1).take(i - 1)) == Some(
                    Route { metric: metric as nat, gateway: gateway as nat },
                ),
                None => best_route(views.skip(1).take(i - 1)) is None,
            },
        decreases lines.len() - i,
    {
        proof {
            let seen = views.skip(1).take(i as int);
            assert(seen.drop_last() == views.skip(1).take(i - 1));
            assert(seen.last() == lines@[i as int]@);
        }
        if let Some((metric, gateway)) = default_route_of(&lines[i]) {
            let better = match best {
                None => true,
                Some((lowest, _)) => metric < lowest,
            };
            if better {
                best = Some((metric, gateway));
            }
        }
        i = i + 1;
    }
    assert(views.skip(1).take(i - 1) == views.skip(1));
    match best {
        Some((_, gateway)) => Some(dotted_of(gateway)),
        None => None,
    }
}

/// The chosen default route has a metric no higher than any other, and lower than any
/// that stands before it.
pub proof fn lemma_best_route_is_lowest(lines: Seq<Seq<char>>) -> (at: int)
    requires
        exists|i: int| 0 <= i < lines.len() && #[trigger] default_route(lines[i]) is Some,
    ensures
        0 <= at < lines.len(),
        best_route(lines) is Some,
        best_route(lines) == default_route(lines[at]),
        forall|i: int|
            0 <= i < lines.len() && (#[trigger] default_route(lines[i])) is Some
                ==> best_route(lines)->0.metric <= default_route(lines[i])->0.metric,
        forall|i: int|
            0 <= i < at && (#[trigger] default_route(lines[i])) is Some
                ==> best_route(lines)->0.metric < default_route(lines[i])->0.metric,
    decreases lines.len(),
{
    let init = lines.drop_last();
    let k = choose|i: int| 0 <= i < lines.len() && #[trigger] default_route(lines[i]) is Some;
    if exists|i: int| 0 <= i < init.len() && #[trigger] default_route(init[i]) is Some {
        let at = lemma_best_route_is_lowest(init);
        assert forall|i: int|
            0 <= i < lines.len() && (#[trigger] default_route(lines[i])) is Some implies best_route(
            lines,
        )->0.metric <= default_route(lines[i])->0.metric by {
            if i < init.len() {
                assert(default_route(init[i]) is Some);
            }
        }
        match default_route(lines.last()) {
            Some(route) if route.metric < best_route(init)->0.metric => {
                assert forall|i: int|
                    0 <= i < init.len() && (#[trigger] default_route(lines[i])) is Some implies
                    best_route(lines)->0.metric < default_route(lines[i])->0.metric by {
                    assert(default_route(init[i]) is Some);
                }
                lines.len() - 1
            },
            _ => {
                assert forall|i: int|
                    0 <= i < at && (#[trigger] default_route(lines[i])) is Some implies best_route(
                    lines,
                )->0.metric < default_route(lines[i])->0.metric by {
                    assert(default_route(init[i]) is Some);
                }
                at
            },
        }
    } else {
        assert forall|i: int| 0 <= i < init.len() implies default_route(#[trigger] init[i]) is None by {
        }
        lemma_no_route(init);
        assert forall|i: int| 0 <= i < lines.len() - 1 implies (#[trigger] default_route(lines[i]))
            is None by {
            assert(init[i] == lines[i]);
        }
        lines.len() - 1
    }
}

/// Without a default route there is no best one.
pub proof fn lemma_no_route(lines: Seq<Seq<char>>)
    requires
        forall|i: int| 0 <= i < lines.len() ==> default_route(#[trigger] lines[i]) is None,
    ensures
        best_route(lines) is None,
    decreases lines.len(),
{
    if lines.len() > 0 {
        let init = lines.drop_last();
        assert forall|i: int| 0 <= i < init.len() implies default_route(#[trigger] init[i]) is None by {
            assert(init[i] == lines[i]);
        }
        lemma_no_route(init);
    }
}

/// An octet's decimal notation is that of an octet in an address.
proof fn lemma_octet(n: nat)
    requires
        n < 256,
    ensures
        ip::is_octet(number::decimal(n)),
        text::lacks(number::decimal(n), '.'),
{
    let d = number::decimal(n);
    number::lemma_decimal(n);
    reveal_with_fuel(number::decimal, 4);
    assert forall|i: int| 0 <= i < d.len() implies d[i] != '.' by {
        assert('0' <= d[i] <= '9');
    }
}

/// The gateway that is read from the table is always a valid address.
pub proof fn lemma_gateway_is_address(table: Seq<char>)
    ensures
        gateway_of(table) matches Some(a) ==> ip::is_address(a),
{
    if let Some(a) = gateway_of(table) {
        let v = best_route(text::lines(table).skip(1))->0.gateway;
        lemma_dotted_is_ipv4(v);
    }
}

proof fn lemma_dotted_is_ipv4(v: nat)
    ensures
        ip::is_ipv4(dotted(v)),
{
    let a = number::decimal(v % 256);
    let b = number::decimal(v / 256 % 256);
    let c = number::decimal(v / 65536 % 256);
    let d = number::decimal(v / 16777216 % 256);
    lemma_octet(v % 256);
    lemma_octet(v / 256 % 256);
    lemma_octet(v / 65536 % 256);
    lemma_octet(v / 16777216 % 256);
    text::lemma_split_single(a, '.');
    text::lemma_split_single(b, '.');
    text::lemma_split_single(c, '.');
    text::lemma_split_single(d, '.');
    text::lemma_split_concat(a, '.', b);
    text::lemma_split_concat(a + seq!['.'] + b, '.', c);
    text::lemma_split_concat(a + seq!['.'] + b + seq!['.'] + c, '.', d);
    assert(text::split(dotted(v), '.') == seq![a, b, c, d]);
}

/// The dotted form of a number below 2^32: four parts at the dots, each a number below 256,
/// of which the first counts once, the second 256 times, and so on.
pub proof fn lemma_dotted_is_little_endian(v: nat)
    requires
        v <= u32::MAX,
    ensures
        ({
            let parts = text::split(dotted(v), '.');
            &&& parts.len() == 4
            &&& forall|i: int|
                0 <= i < 4 ==> number::all_digits(#[trigger] parts[i], 10) && number::value(
                    parts[i],
                    10,
                ) < 256
            &&& number::value(parts[0], 10) + 256 * number::value(parts[1], 10) + 65536
                * number::value(parts[2], 10) + 16777216 * number::value(parts[3], 10) == v
        }),
{
    let a = v % 256;
    let b = v / 256 % 256;
    let c = v / 65536 % 256;
    let d = v / 16777216 % 256;
    let (w, x, y, z) = (
        number::decimal(a),
        number::decimal(b),
        number::decimal(c),
        number::decimal(d),
    );
    lemma_octet(a);
    lemma_octet(b);
    lemma_octet(c);
    lemma_octet(d);
    number::lemma_decimal(a);
    number::lemma_decimal(b);
    number::lemma_decimal(c);
    number::lemma_decimal(d);
    text::lemma_split_single(w, '.');
    text::lemma_split_single(x, '.');
    text::lemma_split_single(y, '.');
    text::lemma_split_single(z, '.');
    text::lemma_split_concat(w, '.', x);
    text::lemma_split_concat(w + seq!['.'] + x, '.', y);
    text::lemma_split_concat(w + seq!['.'] + x + seq!['.'] + y, '.', z);
    assert(text::split(dotted(v), '.') == seq![w, x, y, z]);
}

/// A line describes a default route exactly where it has eleven fields or more, its second
/// field is all zeros, its third is not, and its third is a hexadecimal number below 2^32:
/// the gateway. The metric is the seventh field, read in decimal; where that is no number,
/// the metric is the largest there is.
pub proof fn lemma_fields_of_a_route(line: Seq<char>)
    ensures
        ({
            let f = text::words(line);
            let gateway = number::parse_unsigned(f[2], 16, u32::MAX as nat);
            let metric = number::parse_unsigned(f[6], 10, u64::MAX as nat);
            &&& default_route(line) is Some <==> f.len() >= 11 && f[1] == "00000000"@ && f[2]
                != "00000000"@ && gateway is Some
            &&& default_route(line) matches Some(route) ==> {
                &&& route.gateway == gateway->0
                &&& metric is Some ==> route.metric == metric->0
                &&& metric is None ==> route.metric == u64::MAX
            }
        }),
{
}

/// The gateway that is read from a table comes from a line below the heading that describes
/// a default route: of those the one with the lowest metric, and the first of them among
/// equals. Its text is four numbers with dots between them, which make up the number in the
/// line's third field, the lowest byte first. Without such a line there is no gateway.
pub proof fn lemma_gateway_comes_from_the_best_line(table: Seq<char>)
    ensures
        ({
            let lines = text::lines(table);
            match gateway_of(table) {
                None => forall|i: int|
                    1 <= i < lines.len() ==> default_route(#[trigger] lines[i]) is None,
                Some(ip) => {
                    let parts = text::split(ip, '.');
                    &&& parts.len() == 4
                    &&& exists|at: int|
                        {
                            &&& 1 <= at < lines.len()
                            &&& (#[trigger] default_route(lines[at])) is Some
                            &&& number::parse_unsigned(
                                text::words(lines[at])[2],
                                16,
                                u32::MAX as nat,
                            ) == Some(
                                (number::value(parts[0], 10) + 256 * number::value(parts[1], 10)
                                    + 65536 * number::value(parts[2], 10) + 16777216
                                    * number::value(parts[3], 10)) as nat,
                            )
                            &&& forall|i: int|
                                1 <= i < lines.len() && (#[trigger] default_route(lines[i])) is Some
                                    ==> default_route(lines[at])->0.metric <= default_route(
                                    lines[i],
                                )->0.metric
                            &&& forall|i: int|
                                1 <= i < at && (#[trigger] default_route(lines[i])) is Some
                                    ==> default_route(lines[at])->0.metric < default_route(
                                    lines[i],
                                )->0.metric
                        }
                },
            }
        }),
{
    let lines = text::lines(table);
    if lines.len() > 0 {
        let body = lines.skip(1);
        if exists|i: int| 0 <= i < body.len() && #[trigger] default_route(body[i]) is Some {
            let k = lemma_best_route_is_lowest(body);
            let at = k + 1;
            assert(lines[at] == body[k]);
            let v = best_route(body)->0.gateway;
            lemma_fields_of_a_route(lines[at]);
            lemma_dotted_is_little_endian(v);
            assert forall|i: int|
                1 <= i < lines.len() && (#[trigger] default_route(lines[i])) is Some implies
                default_route(lines[at])->0.metric <= default_route(lines[i])->0.metric && (i < at
                ==> default_route(lines[at])->0.metric < default_route(lines[i])->0.metric) by {
                assert(default_route(body[i - 1]) is Some);
            }
            assert(default_route(lines[at]) is Some);
        } else {
            assert forall|i: int| 0 <= i < body.len() implies default_route(
                #[trigger] body[i],
            ) is None by {}
            lemma_no_route(body);
            assert forall|i: int| 1 <= i < lines.len() implies default_route(
                #[trigger] lines[i],
            ) is None by {
                assert(lines[i] == body[i - 1]);
            }
        }
    }
}

} // verus!
