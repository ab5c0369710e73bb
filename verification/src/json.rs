//! The status as JSON.

use crate::dns;
use crate::number;
use crate::state;
use crate::state::{Status, StatusView};
use crate::text;
use crate::types;
use crate::types::{ProviderId, ProviderSet};
use vstd::prelude::*;

verus! {

/// A character inside a JSON string.
pub open spec fn escaped_char(c: char) -> Seq<char> {
    if c == '"' {
        seq!['\\', '"']
    } else if c == '\\' {
        seq!['\\', '\\']
    } else if c == '\n' {
        seq!['\\', 'n']
    } else if c == '\r' {
        seq!['\\', 'r']
    } else if c == '\t' {
        seq!['\\', 't']
    } else if c <= '\u{1f}' {
        seq![
            '\\',
            'u',
            '0',
            '0',
            number::digit_char((c as nat) / 16),
            number::digit_char((c as nat) % 16),
        ]
    } else {
        seq![c]
    }
}

/// The inside of the JSON string that stands for `s`.
pub open spec fn escaped(s: Seq<char>) -> Seq<char>
    decreases s.len(),
{
    if s.len() == 0 {
        Seq::empty()
    } else {
        escaped(s.drop_last()) + escaped_char(s.last())
    }
}

/// The value of the four hexadecimal digits after `\u`.
pub open spec fn unicode_value(s: Seq<char>) -> Option<char> {
    if s.len() == 4 && number::all_digits(s, 16) && number::value(s, 16) < 0xd800 {
        Some(number::value(s, 16) as char)
    } else {
        None
    }
}

/// What the inside of a JSON string stands for; `None` where it is not the inside of one.
/// Of the escapes, those that vpnmux writes are known.
pub open spec fn unescaped(s: Seq<char>) -> Option<Seq<char>>
    decreases s.len(),
{
    if s.len() == 0 {
        Some(Seq::empty())
    } else if s[0] == '"' || s[0] <= '\u{1f}' {
        None
    } else if s[0] != '\\' {
        match unescaped(s.skip(1)) {
            Some(rest) => Some(seq![s[0]] + rest),
            None => None,
        }
    } else if s.len() < 2 {
        None
    } else if s[1] == 'u' {
        if s.len() < 6 {
            None
        } else {
            match (unicode_value(s.subrange(2, 6)), unescaped(s.skip(6))) {
                (Some(c), Some(rest)) => Some(seq![c] + rest),
                _ => None,
            }
        }
    } else {
        let c = if s[1] == '"' || s[1] == '\\' {
            Some(s[1])
        } else if s[1] == 'n' {
            Some('\n')
        } else if s[1] == 'r' {
            Some('\r')
        } else if s[1] == 't' {
            Some('\t')
        } else {
            None
        };
        match (c, unescaped(s.skip(2))) {
            (Some(c), Some(rest)) => Some(seq![c] + rest),
            _ => None,
        }
    }
}

fn push_escaped(out: &mut String, c: char)
    ensures
        final(out)@ == old(out)@ + escaped_char(c),
{
    if c == '"' {
        out.push('\\');
        out.push('"');
    } else if c == '\\' {
        out.push('\\');
        out.push('\\');
    } else if c == '\n' {
        out.push('\\');
        out.push('n');
    } else if c == '\r' {
        out.push('\\');
        out.push('r');
    } else if c == '\t' {
        out.push('\\');
        out.push('t');
    } else if c <= '\u{1f}' {
        let code: u32 = c as u32;
        out.push('\\');
        out.push('u');
        out.push('0');
        out.push('0');
        out.push(number::digit_to_char((code / 16) as u8));
        out.push(number::digit_to_char((code % 16) as u8));
    } else {
        out.push(c);
    }
    assert(out@ == old(out)@ + escaped_char(c));
}

/// Escapes text for a JSON double-quoted value, since reasons come from the output of
/// commands.
pub fn json_escape(s: &str) -> (res: String)
    ensures
        res@ == escaped(s@),
{
    let v = text::chars_of(s);
    let mut out = String::new();
    let mut i: usize = 0;
    assert(v@.take(0) == Seq::<char>::empty());
    while i < v.len()
        invariant
            i <= v.len(),
            v@ == s@,
            out@ == escaped(v@.take(i as int)),
        decreases v.len() - i,
    {
        push_escaped(&mut out, v[i]);
        i = i + 1;
        assert(v@.take(i as int).drop_last() == v@.take(i - 1));
    }
    assert(v@.take(v@.len() as int) == v@);
    out
}

/// The names of a set as the elements of a JSON array.
pub open spec fn name_list(set: Set<ProviderId>) -> Seq<char> {
    text::join(
        types::ordered(set).map_values(
            |id: ProviderId| seq!['"'] + types::id_name(id) + seq!['"'],
        ),
        ","@,
    )
}

/// A provider that could not be engaged, as a JSON object.
pub open spec fn unavailable_object(x: (ProviderId, Seq<char>)) -> Seq<char> {
    "{\"provider\":\""@ + types::id_name(x.0) + "\",\"reason\":\""@ + escaped(x.1) + "\"}"@
}

/// The status as a JSON object. Without a status all of it is empty.
pub open spec fn status_object(s: Option<StatusView>) -> Seq<char> {
    match s {
        None =>
            "{\"generation\":0,\"active\":[],\"available\":[],\"unavailable\":[],\"dns\":\"static\"}"@,
        Some(s) => "{\"generation\":"@ + number::decimal(s.generation as nat) + ",\"active\":["@
            + name_list(s.active) + "],\"available\":["@ + name_list(s.available)
            + "],\"unavailable\":["@ + text::join(
            s.unavailable.map_values(|x: (ProviderId, Seq<char>)| unavailable_object(x)),
            ","@,
        ) + "],\"dns\":\""@ + dns::backend_name(s.dns) + "\"}"@,
    }
}

fn names_json(set: &ProviderSet) -> (res: String)
    ensures
        res@ == name_list(set@),
{
    let ids = set.to_vec();
    let mut names: Vec<String> = Vec::new();
    let mut i: usize = 0;
    while i < ids.len()
        invariant
            i <= ids.len(),
            names.len() == i,
            forall|k: int|
                0 <= k < i ==> (#[trigger] names@[k])@ == seq!['"'] + types::id_name(ids@[k])
                    + seq!['"'],
        decreases ids.len() - i,
    {
        let mut name = String::new();
        name.push('"');
        name.append(ids[i].as_str());
        name.push('"');
        assert(name@ == seq!['"'] + types::id_name(ids@[i as int]) + seq!['"']);
        names.push(name);
        i = i + 1;
    }
    assert(text::texts(names@) == ids@.map_values(
        |id: ProviderId| seq!['"'] + types::id_name(id) + seq!['"'],
    ));
    text::joined(&names, ",")
}

fn unavailable_json(unavailable: &Vec<(ProviderId, String)>) -> (res: String)
    ensures
        res@ == text::join(
            crate::reconcile::reasons(unavailable@).map_values(
                |x: (ProviderId, Seq<char>)| unavailable_object(x),
            ),
            ","@,
        ),
{
    let mut objects: Vec<String> = Vec::new();
    let mut i: usize = 0;
    let ghost all = crate::reconcile::reasons(unavailable@);
    while i < unavailable.len()
        invariant
            i <= unavailable.len(),
            all == crate::reconcile::reasons(unavailable@),
            objects.len() == i,
            forall|k: int| 0 <= k < i ==> (#[trigger] objects@[k])@ == unavailable_object(all[k]),
        decreases unavailable.len() - i,
    {
        let entry = &unavailable[i];
        let mut object = "{\"provider\":\"".to_string();
        object.append(entry.0.as_str());
        object.append("\",\"reason\":\"");
        object.append(json_escape(entry.1.as_str()).as_str());
        object.append("\"}");
        assert(all[i as int] == (entry.0, entry.1@));
        objects.push(object);
        i = i + 1;
    }
    assert(text::texts(objects@) == all.map_values(
        |x: (ProviderId, Seq<char>)| unavailable_object(x),
    ));
    text::joined(&objects, ",")
}

pub open spec fn status_view(s: Option<&Status>) -> Option<StatusView> {
    match s {
        Some(s) => Some(s@),
        None => None,
    }
}

/// The status for programs to read; without a status still a valid object.
pub fn status_json(s: Option<&Status>) -> (res: String)
    ensures
        res@ == status_object(status_view(s)),
{
    let s = match s {
        Some(s) => s,
        None => {
            return "{\"generation\":0,\"active\":[],\"available\":[],\"unavailable\":[],\"dns\":\"static\"}".to_string();
        },
    };
    let mut out = "{\"generation\":".to_string();
    out.append(number::decimal_of(s.generation as u128).as_str());
    out.append(",\"active\":[");
    out.append(names_json(&s.active).as_str());
    out.append("],\"available\":[");
    out.append(names_json(&s.available).as_str());
    out.append("],\"unavailable\":[");
    out.append(unavailable_json(&s.unavailable).as_str());
    out.append("],\"dns\":\"");
    out.append(s.dns.as_str());
    out.append("\"}");
    out
}

/// Escaped text begins with its first character, escaped.
proof fn lemma_escaped_cons(s: Seq<char>)
    requires
        s.len() > 0,
    ensures
        escaped(s) == escaped_char(s[0]) + escaped(s.skip(1)),
    decreases s.len(),
{
    if s.len() == 1 {
        assert(s.drop_last() == Seq::<char>::empty());
        assert(s.skip(1) == Seq::<char>::empty());
        assert(escaped(s) == escaped_char(s[0]) + escaped(s.skip(1)));
    } else {
        lemma_escaped_cons(s.drop_last());
        assert(s.drop_last().skip(1) == s.skip(1).drop_last());
        assert(s.skip(1).last() == s.last());
        assert(escaped(s) == escaped_char(s[0]) + (escaped(s.skip(1).drop_last()) + escaped_char(
            s.last(),
        )));
    }
}

/// One escaped character in front of the inside of a JSON string stands for itself.
proof fn lemma_unescape_cons(c: char, rest: Seq<char>)
    requires
        unescaped(rest) is Some,
    ensures
        unescaped(escaped_char(c) + rest) == Some(seq![c] + unescaped(rest)->0),
{
    let s = escaped_char(c) + rest;
    let e = escaped_char(c);
    assert(s.skip(e.len() as int) == rest);
    if c == '"' || c == '\\' || c == '\n' || c == '\r' || c == '\t' {
        assert(s.skip(2) == rest);
    } else if c <= '\u{1f}' {
        let hex = s.subrange(2, 6);
        let n = c as nat;
        assert(hex == seq![
            '0',
            '0',
            number::digit_char(n / 16),
            number::digit_char(n % 16),
        ]);
        assert(number::value(hex, 16) == n) by {
            reveal_with_fuel(number::value, 5);
            assert(hex.drop_last() == seq!['0', '0', number::digit_char(n / 16)]);
            assert(hex.drop_last().drop_last() == seq!['0', '0']);
            assert(hex.drop_last().drop_last().drop_last() == seq!['0']);
            assert(hex.drop_last().drop_last().drop_last().drop_last() == Seq::<char>::empty());
        }
        assert(number::all_digits(hex, 16));
        assert(unicode_value(hex) == Some(c));
        assert(s.skip(6) == rest);
    } else {
        assert(s.skip(1) == rest);
    }
}

/// Escaped text is the inside of a JSON string, and stands for the text.
pub proof fn lemma_escaped_reads_back(s: Seq<char>)
    ensures
        unescaped(escaped(s)) == Some(s),
    decreases s.len(),
{
    if s.len() > 0 {
        lemma_escaped_cons(s);
        lemma_escaped_reads_back(s.skip(1));
        lemma_unescape_cons(s[0], escaped(s.skip(1)));
        assert(seq![s[0]] + s.skip(1) == s);
    }
}

/// A JSON value, as far as the status needs one.
pub enum Json {
    Number(nat),
    Text(Seq<char>),
    List(Seq<Json>),
    Object(Seq<(Seq<char>, Json)>),
}

/// A text as JSON.
pub open spec fn quoted(s: Seq<char>) -> Seq<char> {
    seq!['"'] + escaped(s) + seq!['"']
}

/// The JSON text of a value, without blanks.
pub open spec fn compact(j: Json) -> Seq<char>
    decreases j,
{
    match j {
        Json::Number(n) => number::decimal(n),
        Json::Text(s) => quoted(s),
        Json::List(items) => seq!['['] + compact_items(items) + seq![']'],
        Json::Object(members) => seq!['{'] + compact_members(members) + seq!['}'],
    }
}

/// The elements of a list with commas between them.
pub open spec fn compact_items(items: Seq<Json>) -> Seq<char>
    decreases items,
{
    if items.len() == 0 {
        Seq::empty()
    } else {
        let last = compact(items[items.len() - 1]);
        if items.len() == 1 {
            last
        } else {
            compact_items(items.subrange(0, items.len() - 1)) + seq![','] + last
        }
    }
}

/// The members of an object with commas between them.
pub open spec fn compact_members(members: Seq<(Seq<char>, Json)>) -> Seq<char>
    decreases members,
{
    if members.len() == 0 {
        Seq::empty()
    } else {
        let (name, value) = members[members.len() - 1];
        let last = quoted(name) + seq![':'] + compact(value);
        if members.len() == 1 {
            last
        } else {
            compact_members(members.subrange(0, members.len() - 1)) + seq![','] + last
        }
    }
}

/// A provider that could not be engaged, as a value.
pub open spec fn unavailable_value(x: (ProviderId, Seq<char>)) -> Json {
    Json::Object(
        seq![
            ("provider"@, Json::Text(types::id_name(x.0))),
            ("reason"@, Json::Text(x.1)),
        ],
    )
}

/// The names of a set, as a value.
pub open spec fn names_value(set: Set<ProviderId>) -> Json {
    Json::List(types::ordered(set).map_values(|id: ProviderId| Json::Text(types::id_name(id))))
}

/// The status as a value.
pub open spec fn status_value(s: StatusView) -> Json {
    Json::Object(
        seq![
            ("generation"@, Json::Number(s.generation as nat)),
            ("active"@, names_value(s.active)),
            ("available"@, names_value(s.available)),
            (
                "unavailable"@,
                Json::List(
                    s.unavailable.map_values(
                        |x: (ProviderId, Seq<char>)| unavailable_value(x),
                    ),
                ),
            ),
            ("dns"@, Json::Text(dns::backend_name(s.dns))),
        ],
    )
}

/// Whether nothing in a text needs to be escaped.
pub open spec fn is_plain(s: Seq<char>) -> bool {
    forall|i: int| 0 <= i < s.len() ==> '\u{1f}' < #[trigger] s[i] && s[i] != '"' && s[i] != '\\'
}

proof fn lemma_plain_is_itself(s: Seq<char>)
    requires
        is_plain(s),
    ensures
        escaped(s) == s,
    decreases s.len(),
{
    if s.len() > 0 {
        let init = s.drop_last();
        assert forall|i: int| 0 <= i < init.len() implies '\u{1f}' < #[trigger] init[i] && init[i]
            != '"' && init[i] != '\\' by {
            assert(init[i] == s[i]);
        }
        lemma_plain_is_itself(init);
        assert('\u{1f}' < s[s.len() - 1] && s[s.len() - 1] != '"' && s[s.len() - 1] != '\\');
        assert(init + seq![s.last()] == s);
    }
}

/// The elements of a list, joined.
proof fn lemma_items(items: Seq<Json>, parts: Seq<Seq<char>>)
    requires
        items.len() == parts.len(),
        forall|i: int| 0 <= i < items.len() ==> compact(#[trigger] items[i]) == parts[i],
    ensures
        compact_items(items) == text::join(parts, ","@),
    decreases items.len(),
{
    reveal_strlit(",");
    assert(","@ == seq![',']);
    if items.len() > 1 {
        let init = items.subrange(0, items.len() - 1);
        assert(parts.drop_last().len() == init.len());
        assert forall|i: int| 0 <= i < init.len() implies compact(#[trigger] init[i])
            == parts.drop_last()[i] by {
            assert(init[i] == items[i]);
        }
        lemma_items(init, parts.drop_last());
    }
}

/// One more member of an object.
proof fn lemma_member(members: Seq<(Seq<char>, Json)>, name: Seq<char>, value: Json)
    ensures
        compact_members(members.push((name, value))) == (if members.len() == 0 {
            Seq::empty()
        } else {
            compact_members(members) + seq![',']
        }) + (quoted(name) + seq![':'] + compact(value)),
{
    let all = members.push((name, value));
    let member = quoted(name) + seq![':'] + compact(value);
    assert(all[all.len() - 1] == (name, value));
    assert(all.subrange(0, all.len() - 1) == members);
    if members.len() == 0 {
        assert(Seq::<char>::empty() + member == member);
    }
}

proof fn lemma_names_value(set: Set<ProviderId>)
    ensures
        compact(names_value(set)) == seq!['['] + name_list(set) + seq![']'],
{
    let ids = types::ordered(set);
    let items = ids.map_values(|id: ProviderId| Json::Text(types::id_name(id)));
    let parts = ids.map_values(|id: ProviderId| seq!['"'] + types::id_name(id) + seq!['"']);
    reveal_strlit("mullvad");
    reveal_strlit("tailscale");
    assert forall|i: int| 0 <= i < items.len() implies compact(#[trigger] items[i]) == parts[i] by {
        lemma_plain_is_itself(types::id_name(ids[i]));
    }
    lemma_items(items, parts);
}

proof fn lemma_unavailable_value(x: (ProviderId, Seq<char>))
    ensures
        compact(unavailable_value(x)) == unavailable_object(x),
{
    let none = Seq::<(Seq<char>, Json)>::empty();
    let name = types::id_name(x.0);
    let first = Json::Text(name);
    let second = Json::Text(x.1);
    reveal_strlit("mullvad");
    reveal_strlit("tailscale");
    reveal_strlit("provider");
    reveal_strlit("reason");
    reveal_strlit("{\"provider\":\"");
    reveal_strlit("\",\"reason\":\"");
    reveal_strlit("\"}");
    lemma_plain_is_itself(name);
    lemma_plain_is_itself("provider"@);
    lemma_plain_is_itself("reason"@);
    lemma_member(none, "provider"@, first);
    lemma_member(none.push(("provider"@, first)), "reason"@, second);
    assert(none.push(("provider"@, first)).push(("reason"@, second)) == seq![
        ("provider"@, first),
        ("reason"@, second),
    ]);
    assert("{\"provider\":\""@ == seq!['{'] + quoted("provider"@) + seq![':'] + seq!['"']);
    assert("\",\"reason\":\""@ == seq!['"'] + seq![','] + quoted("reason"@) + seq![':'] + seq![
        '"',
    ]);
    assert("\"}"@ == seq!['"'] + seq!['}']);
    assert(compact(unavailable_value(x)) == unavailable_object(x));
}

/// The fixed parts of the status object, spelled out.
proof fn lemma_fixed_parts()
    ensures
        "{\"generation\":"@ == seq!['{'] + quoted("generation"@) + seq![':'],
        ",\"active\":["@ == seq![','] + quoted("active"@) + seq![':'] + seq!['['],
        "],\"available\":["@ == seq![']'] + seq![','] + quoted("available"@) + seq![':'] + seq!['['],
        "],\"unavailable\":["@ == seq![']'] + seq![','] + quoted("unavailable"@) + seq![':'] + seq![
            '[',
        ],
        "],\"dns\":\""@ == seq![']'] + seq![','] + quoted("dns"@) + seq![':'] + seq!['"'],
        "\"}"@ == seq!['"'] + seq!['}'],
{
    reveal_strlit("generation");
    reveal_strlit("active");
    reveal_strlit("available");
    reveal_strlit("unavailable");
    reveal_strlit("dns");
    lemma_plain_is_itself("generation"@);
    lemma_plain_is_itself("active"@);
    lemma_plain_is_itself("available"@);
    lemma_plain_is_itself("unavailable"@);
    lemma_plain_is_itself("dns"@);
    reveal_strlit("{\"generation\":");
    reveal_strlit(",\"active\":[");
    reveal_strlit("],\"available\":[");
    reveal_strlit("],\"unavailable\":[");
    reveal_strlit("],\"dns\":\"");
    reveal_strlit("\"}");
}

/// The members of the status object, one after the other.
proof fn lemma_status_members(
    generation: Json,
    active: Json,
    available: Json,
    unavailable: Json,
    dns: Json,
)
    ensures
        compact(
            Json::Object(
                seq![
                    ("generation"@, generation),
                    ("active"@, active),
                    ("available"@, available),
                    ("unavailable"@, unavailable),
                    ("dns"@, dns),
                ],
            ),
        ) == seq!['{'] + (quoted("generation"@) + seq![':'] + compact(generation)) + seq![','] + (
        quoted("active"@) + seq![':'] + compact(active)) + seq![','] + (quoted("available"@)
            + seq![':'] + compact(available)) + seq![','] + (quoted("unavailable"@) + seq![':']
            + compact(unavailable)) + seq![','] + (quoted("dns"@) + seq![':'] + compact(dns))
            + seq!['}'],
{
    let a = Seq::<(Seq<char>, Json)>::empty().push(("generation"@, generation));
    let b = a.push(("active"@, active));
    let c = b.push(("available"@, available));
    let d = c.push(("unavailable"@, unavailable));
    let e = d.push(("dns"@, dns));
    lemma_member(Seq::empty(), "generation"@, generation);
    lemma_member(a, "active"@, active);
    lemma_member(b, "available"@, available);
    lemma_member(c, "unavailable"@, unavailable);
    lemma_member(d, "dns"@, dns);
    assert(e == seq![
        ("generation"@, generation),
        ("active"@, active),
        ("available"@, available),
        ("unavailable"@, unavailable),
        ("dns"@, dns),
    ]);
}

/// A member whose value stands in brackets, after other members. The bracket that closes
/// it is kept apart.
proof fn lemma_list_member(before: Seq<char>, name: Seq<char>, items: Seq<char>)
    ensures
        before + seq![','] + (name + seq![':'] + (seq!['['] + items + seq![']'])) == before + (
        seq![','] + name + seq![':'] + seq!['[']) + items + seq![']'],
{
}

proof fn lemma_add_is_associative(a: Seq<char>, b: Seq<char>, c: Seq<char>)
    ensures
        a + b + c == a + (b + c),
{
}

/// The fixed parts and what stands between them are the members of the status object.
proof fn lemma_regroup(
    generation: Seq<char>,
    active: Seq<char>,
    available: Seq<char>,
    unavailable: Seq<char>,
    dns: Seq<char>,
)
    ensures
        "{\"generation\":"@ + generation + ",\"active\":["@ + active + "],\"available\":["@
            + available + "],\"unavailable\":["@ + unavailable + "],\"dns\":\""@ + dns + "\"}"@
            == seq!['{'] + (quoted("generation"@) + seq![':'] + generation) + seq![','] + (quoted(
            "active"@,
        ) + seq![':'] + (seq!['['] + active + seq![']'])) + seq![','] + (quoted("available"@)
            + seq![':'] + (seq!['['] + available + seq![']'])) + seq![','] + (quoted(
            "unavailable"@,
        ) + seq![':'] + (seq!['['] + unavailable + seq![']'])) + seq![','] + (quoted("dns"@)
            + seq![':'] + (seq!['"'] + dns + seq!['"'])) + seq!['}'],
{
    lemma_fixed_parts();
    let (g, a, v, u, d) = (
        quoted("generation"@),
        quoted("active"@),
        quoted("available"@),
        quoted("unavailable"@),
        quoted("dns"@),
    );
    let close = seq![']'];
    let p1 = seq!['{'] + (g + seq![':'] + generation);
    assert(p1 == "{\"generation\":"@ + generation);
    let q2 = p1 + ",\"active\":["@ + active;
    lemma_list_member(p1, a, active);
    let q3 = q2 + "],\"available\":["@ + available;
    lemma_list_member(q2 + close, v, available);
    assert(close + (seq![','] + v + seq![':'] + seq!['[']) == "],\"available\":["@);
    lemma_add_is_associative(q2, close, seq![','] + v + seq![':'] + seq!['[']);
    let q4 = q3 + "],\"unavailable\":["@ + unavailable;
    lemma_list_member(q3 + close, u, unavailable);
    assert(close + (seq![','] + u + seq![':'] + seq!['[']) == "],\"unavailable\":["@);
    lemma_add_is_associative(q3, close, seq![','] + u + seq![':'] + seq!['[']);
    let end = seq![','] + (d + seq![':'] + (seq!['"'] + dns + seq!['"'])) + seq!['}'];
    assert(close + end == "],\"dns\":\""@ + dns + "\"}"@);
    assert(q4 + close + seq![','] + (d + seq![':'] + (seq!['"'] + dns + seq!['"'])) + seq!['}'] == q4
        + (close + end));
    assert(q4 + (close + end) == q4 + "],\"dns\":\""@ + dns + "\"}"@);
}

proof fn lemma_some_status_is_json(s: StatusView)
    ensures
        status_object(Some(s)) == compact(status_value(s)),
{
    let reasons = s.unavailable.map_values(|x: (ProviderId, Seq<char>)| unavailable_object(x));
    let values = s.unavailable.map_values(|x: (ProviderId, Seq<char>)| unavailable_value(x));
    let dns = dns::backend_name(s.dns);
    assert forall|i: int| 0 <= i < values.len() implies compact(#[trigger] values[i])
        == reasons[i] by {
        lemma_unavailable_value(s.unavailable[i]);
    }
    lemma_items(values, reasons);
    lemma_names_value(s.active);
    lemma_names_value(s.available);
    assert(escaped(dns) == dns) by {
        reveal_strlit("static");
        reveal_strlit("systemd-resolved");
        reveal_strlit("network-manager");
        reveal_strlit("resolvconf");
        reveal_strlit("netconfig");
        reveal_strlit("other-managed");
        lemma_plain_is_itself(dns);
    }
    lemma_status_members(
        Json::Number(s.generation as nat),
        names_value(s.active),
        names_value(s.available),
        Json::List(values),
        Json::Text(dns),
    );
    lemma_regroup(
        number::decimal(s.generation as nat),
        name_list(s.active),
        name_list(s.available),
        text::join(reasons, ","@),
        dns,
    );
}

/// What stands for a missing status is the object of a blank one.
proof fn lemma_no_status_is_blank()
    ensures
        status_object(None) == status_object(Some(state::blank_status())),
{
    let s = state::blank_status();
    let none = Seq::<(ProviderId, Seq<char>)>::empty();
    types::lemma_ordered(s.active);
    assert(types::ordered(s.active) == Seq::<ProviderId>::empty());
    assert(name_list(s.active) == Seq::<char>::empty());
    assert(none.map_values(|x: (ProviderId, Seq<char>)| unavailable_object(x)) == Seq::<
        Seq<char>,
    >::empty());
    assert(number::decimal(0) == seq!['0']);
    reveal_strlit("{\"generation\":");
    reveal_strlit(",\"active\":[");
    reveal_strlit("],\"available\":[");
    reveal_strlit("],\"unavailable\":[");
    reveal_strlit("],\"dns\":\"");
    reveal_strlit("\"}");
    reveal_strlit("static");
    reveal_strlit(
        "{\"generation\":0,\"active\":[],\"available\":[],\"unavailable\":[],\"dns\":\"static\"}",
    );
    assert(status_object(None) == status_object(Some(s)));
}

/// What is printed is always the JSON text of an object: that of the status, or that of a
/// blank status where there is none.
pub proof fn lemma_status_is_json(s: Option<StatusView>)
    ensures
        status_object(s) == compact(
            status_value(
                match s {
                    Some(s) => s,
                    None => state::blank_status(),
                },
            ),
        ),
{
    match s {
        Some(s) => lemma_some_status_is_json(s),
        None => {
            lemma_no_status_is_blank();
            lemma_some_status_is_json(state::blank_status());
        },
    }
}

/// How characters stand in a JSON string: quotes, backslashes and the usual blanks after a
/// backslash, other control characters by number in two hexadecimal digits after `\u00`, and
/// all others as they are.
pub proof fn lemma_escapes_word_for_word(s: Seq<char>, c: char)
    ensures
        escaped(Seq::empty()) == Seq::<char>::empty(),
        escaped(s.push('"')) == escaped(s) + "\\\""@,
        escaped(s.push('\\')) == escaped(s) + "\\\\"@,
        escaped(s.push('\n')) == escaped(s) + "\\n"@,
        escaped(s.push('\r')) == escaped(s) + "\\r"@,
        escaped(s.push('\t')) == escaped(s) + "\\t"@,
        c > '\u{1f}' && c != '"' && c != '\\' ==> escaped(s.push(c)) == escaped(s).push(c),
        c <= '\u{1f}' && c != '\n' && c != '\r' && c != '\t' ==> {
            let tail = escaped(s.push(c)).skip(escaped(s).len() as int + 4);
            &&& escaped(s.push(c)) == escaped(s) + "\\u00"@ + tail
            &&& tail.len() == 2
            &&& number::all_digits(tail, 16)
            &&& number::value(tail, 16) == c as nat
        },
{
    reveal_strlit("\\\"");
    reveal_strlit("\\\\");
    reveal_strlit("\\n");
    reveal_strlit("\\r");
    reveal_strlit("\\t");
    reveal_strlit("\\u00");
    assert(s.push('"').drop_last() == s);
    assert(s.push('\\').drop_last() == s);
    assert(s.push('\n').drop_last() == s);
    assert(s.push('\r').drop_last() == s);
    assert(s.push('\t').drop_last() == s);
    assert(s.push(c).drop_last() == s);
    assert("\\\""@ == seq!['\\', '"']);
    assert("\\\\"@ == seq!['\\', '\\']);
    assert("\\n"@ == seq!['\\', 'n']);
    assert("\\r"@ == seq!['\\', 'r']);
    assert("\\t"@ == seq!['\\', 't']);
    if c > '\u{1f}' && c != '"' && c != '\\' {
        assert(escaped(s.push(c)) == escaped(s).push(c));
    }
    if c <= '\u{1f}' && c != '\n' && c != '\r' && c != '\t' {
        let hi = (c as nat) / 16;
        let lo = (c as nat) % 16;
        let tail = escaped(s.push(c)).skip(escaped(s).len() as int + 4);
        assert(tail == seq![number::digit_char(hi), number::digit_char(lo)]);
        assert(escaped(s.push(c)) == escaped(s) + "\\u00"@ + tail);
        lemma_two_digits(hi, lo);
    }
}

proof fn lemma_two_digits(hi: nat, lo: nat)
    requires
        hi < 16,
        lo < 16,
    ensures
        ({
            let s = seq![number::digit_char(hi), number::digit_char(lo)];
            number::all_digits(s, 16) && number::value(s, 16) == hi * 16 + lo
        }),
{
    let s = seq![number::digit_char(hi), number::digit_char(lo)];
    assert(s.drop_last() == seq![number::digit_char(hi)]);
    assert(s.drop_last().drop_last() == Seq::<char>::empty());
    reveal_with_fuel(number::value, 3);
}

/// The names of a set in a JSON array, word for word.
pub proof fn lemma_names_word_for_word()
    ensures
        name_list(Set::empty()) == Seq::<char>::empty(),
        name_list(set![ProviderId::Mullvad]) == "\"mullvad\""@,
        name_list(set![ProviderId::Tailscale]) == "\"tailscale\""@,
        name_list(set![ProviderId::Mullvad, ProviderId::Tailscale])
            == "\"mullvad\",\"tailscale\""@,
{
    reveal_strlit("mullvad");
    reveal_strlit("tailscale");
    reveal_strlit(",");
    reveal_strlit("\"mullvad\"");
    reveal_strlit("\"tailscale\"");
    reveal_strlit("\"mullvad\",\"tailscale\"");
    let none = Set::<ProviderId>::empty();
    let m = set![ProviderId::Mullvad];
    let t = set![ProviderId::Tailscale];
    let both = set![ProviderId::Mullvad, ProviderId::Tailscale];
    let f = |id: ProviderId| seq!['"'] + types::id_name(id) + seq!['"'];
    let qm = seq!['"'] + "mullvad"@ + seq!['"'];
    let qt = seq!['"'] + "tailscale"@ + seq!['"'];
    assert(qm == "\"mullvad\""@);
    assert(qt == "\"tailscale\""@);
    types::lemma_ordered(none);
    types::lemma_ordered(m);
    types::lemma_ordered(t);
    types::lemma_ordered(both);
    types::lemma_names_in_text();
    assert(types::ordered(none).map_values(f) == Seq::<Seq<char>>::empty());
    assert(types::ordered(m).map_values(f) == seq![qm]);
    assert(types::ordered(t).map_values(f) == seq![qt]);
    assert(types::ordered(both).map_values(f) == seq![qm, qt]);
    let empty = Seq::<Seq<char>>::empty();
    text::lemma_join(empty, qm, ","@);
    text::lemma_join(empty, qt, ","@);
    text::lemma_join(seq![qm], qt, ","@);
    assert(empty.push(qm) == seq![qm]);
    assert(empty.push(qt) == seq![qt]);
    assert(seq![qm].push(qt) == seq![qm, qt]);
    assert(qm + ","@ + qt == "\"mullvad\",\"tailscale\""@);
}

/// The status object, word for word: its members in order, the unavailable providers as
/// objects with commas between them.
pub proof fn lemma_status_word_for_word(s: StatusView, objects: Seq<Seq<char>>)
    requires
        objects.len() == s.unavailable.len(),
        forall|k: int|
            0 <= k < s.unavailable.len() ==> #[trigger] objects[k] == "{\"provider\":\""@
                + types::id_name(s.unavailable[k].0) + "\",\"reason\":\""@ + escaped(
                s.unavailable[k].1,
            ) + "\"}"@,
    ensures
        status_object(Some(s)) == "{\"generation\":"@ + number::decimal(s.generation as nat)
            + ",\"active\":["@ + name_list(s.active) + "],\"available\":["@ + name_list(s.available)
            + "],\"unavailable\":["@ + text::join(objects, ","@) + "],\"dns\":\""@
            + dns::backend_name(s.dns) + "\"}"@,
        status_object(None)
            == "{\"generation\":0,\"active\":[],\"available\":[],\"unavailable\":[],\"dns\":\"static\"}"@,
{
    assert(s.unavailable.map_values(|x: (ProviderId, Seq<char>)| unavailable_object(x))
        == objects);
}

} // verus!
