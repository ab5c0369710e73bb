//! The desired state and the reported status, and the files that hold them.

use crate::dns;
use crate::dns::DnsBackend;
use crate::fsutil::{FileWrite, FileWriteView};
use crate::number;
use crate::reconcile;
use crate::text;
use crate::types;
use crate::types::{Error, ErrorView, ProviderId, ProviderSet};
use vstd::prelude::*;

verus! {

/// Permission bits of the state files: the members of the directory's group read and
/// replace them too.
pub const STATE_MODE: u32 = 0o660;

/// State files above this size are not read, so that a corrupted file cannot be slurped
/// whole.
pub const MAX_STATE_BYTES: u64 = 65536;

/// Whether a state file of this size is read at all.
pub fn fits(len: u64) -> (res: bool)
    ensures
        res == (len <= MAX_STATE_BYTES),
{
    len <= MAX_STATE_BYTES
}

/// What the user asked for.
#[derive(Debug, Clone, Copy, PartialEq)]
pub struct Desired {
    pub generation: u64,
    pub providers: ProviderSet,
}

pub struct DesiredView {
    pub generation: u64,
    pub providers: Set<ProviderId>,
}

impl View for Desired {
    type V = DesiredView;

    open spec fn view(&self) -> DesiredView {
        DesiredView { generation: self.generation, providers: self.providers@ }
    }
}

/// A set as it follows a keyword: nothing at all for the empty set, so that no line ends
/// in a blank.
pub open spec fn suffix(set: Set<ProviderId>) -> Seq<char> {
    if set == Set::<ProviderId>::empty() {
        Seq::empty()
    } else {
        seq![' '] + types::set_text(set)
    }
}

/// The lines of a desired-state file.
pub open spec fn desired_lines(d: DesiredView) -> Seq<Seq<char>> {
    seq!["generation "@ + number::decimal(d.generation as nat), "providers"@ + suffix(d.providers)]
}

/// A generation, as it is read from a file.
pub open spec fn generation_of(s: Seq<char>) -> Result<u64, ErrorView> {
    match number::parse_unsigned(text::trim(s), 10, u64::MAX as nat) {
        Some(n) => Ok(n as u64),
        None => Err(ErrorView::BadNumber(text::trim(s))),
    }
}

/// What one more line does to the desired state that was read so far.
pub open spec fn desired_step(d: DesiredView, line: Seq<char>) -> Result<DesiredView, ErrorView> {
    let l = text::trim(line);
    if let Some(rest) = text::strip_prefix(l, "generation "@) {
        match generation_of(rest) {
            Ok(generation) => Ok(DesiredView { generation, ..d }),
            Err(e) => Err(e),
        }
    } else if let Some(rest) = text::strip_prefix(l, "providers "@) {
        match types::set_of(text::trim(rest)) {
            Ok(providers) => Ok(DesiredView { providers, ..d }),
            Err(e) => Err(e),
        }
    } else if l == "providers"@ {
        Ok(DesiredView { providers: Set::empty(), ..d })
    } else {
        Ok(d)
    }
}

/// The desired state that lines describe: a later line replaces an earlier one, unknown
/// lines are passed over, and the first bad line is the error.
pub open spec fn desired_from(lines: Seq<Seq<char>>) -> Result<DesiredView, ErrorView>
    decreases lines.len(),
{
    if lines.len() == 0 {
        Ok(DesiredView { generation: 0, providers: Set::empty() })
    } else {
        match desired_from(lines.drop_last()) {
            Err(e) => Err(e),
            Ok(d) => desired_step(d, lines.last()),
        }
    }
}

/// The error is that of the first bad line, whatever follows it.
proof fn lemma_desired_fails_early(lines: Seq<Seq<char>>, i: int)
    requires
        0 <= i <= lines.len(),
        desired_from(lines.take(i)) is Err,
    ensures
        desired_from(lines) == desired_from(lines.take(i)),
    decreases lines.len() - i,
{
    if i == lines.len() {
        assert(lines.take(i) == lines);
    } else {
        assert(lines.take(i + 1).drop_last() == lines.take(i));
        lemma_desired_fails_early(lines, i + 1);
    }
}

fn parse_generation(rest: &Vec<char>) -> (res: Result<u64, Error>)
    ensures
        match res {
            Ok(n) => generation_of(rest@) == Ok::<u64, ErrorView>(n),
            Err(e) => generation_of(rest@) == Err::<u64, ErrorView>(e@),
        },
{
    let digits = text::trimmed(rest);
    match number::parsed_unsigned(&digits, 10, u64::MAX) {
        Some(n) => Ok(n),
        None => Err(Error::BadNumber(text::string_of(&digits))),
    }
}

fn parse_members(rest: &Vec<char>) -> (res: Result<ProviderSet, Error>)
    ensures
        match res {
            Ok(set) => types::set_of(text::trim(rest@)) == Ok::<Set<ProviderId>, ErrorView>(set@),
            Err(e) => types::set_of(text::trim(rest@)) == Err::<Set<ProviderId>, ErrorView>(e@),
        },
{
    types::parse_set(text::string_of(&text::trimmed(rest)).as_str())
}

/// A keyword and, for a set that is not empty, a blank and the set.
fn with_suffix(keyword: &str, set: &ProviderSet) -> (res: String)
    ensures
        res@ == keyword@ + suffix(set@),
{
    let mut out = keyword.to_string();
    if !set.is_empty() {
        out.push(' ');
        out.append(types::format_set(set).as_str());
        assert(out@ == keyword@ + suffix(set@));
    } else {
        assert(out@ == keyword@ + suffix(set@));
    }
    out
}

fn generation_line(generation: u64) -> (res: String)
    ensures
        res@ == "generation "@ + number::decimal(generation as nat),
{
    let mut out = "generation ".to_string();
    out.append(number::decimal_of(generation as u128).as_str());
    out
}

impl Desired {
    pub fn serialize(&self) -> (res: String)
        ensures
            res@ == text::unlines(desired_lines(self@)),
    {
        let mut lines: Vec<String> = Vec::new();
        lines.push(generation_line(self.generation));
        lines.push(with_suffix("providers", &self.providers));
        assert(text::texts(lines@) == desired_lines(self@));
        text::unlined(&lines)
    }

    pub fn parse(text: &str) -> (res: Result<Desired, Error>)
        ensures
            match res {
                Ok(d) => desired_from(text::lines(text@)) == Ok::<DesiredView, ErrorView>(d@),
                Err(e) => desired_from(text::lines(text@)) == Err::<DesiredView, ErrorView>(e@),
            },
    {
        let lines = text::lines_of(&text::chars_of(text));
        let ghost all = text::views(lines@);
        let mut d = Desired { generation: 0, providers: ProviderSet::new() };
        let mut i: usize = 0;
        assert(all.take(0) == Seq::<Seq<char>>::empty());
        while i < lines.len()
            invariant
                i <= lines.len(),
                all == text::views(lines@),
                all == text::lines(text@),
                desired_from(all.take(i as int)) == Ok::<DesiredView, ErrorView>(d@),
            decreases lines.len() - i,
        {
            let line = text::trimmed(&lines[i]);
            proof {
                assert(all[i as int] == lines@[i as int]@);
                assert(all.take(i + 1).drop_last() == all.take(i as int));
                assert(all.take(i + 1).last() == all[i as int]);
                if desired_from(all.take(i + 1)) is Err {
                    lemma_desired_fails_early(all, i + 1);
                }
            }
            if let Some(rest) = text::stripped_prefix(&line, "generation ") {
                match parse_generation(&rest) {
                    Ok(generation) => {
                        d.generation = generation;
                    },
                    Err(e) => {
                        return Err(e);
                    },
                }
            } else if let Some(rest) = text::stripped_prefix(&line, "providers ") {
                match parse_members(&rest) {
                    Ok(providers) => {
                        d.providers = providers;
                    },
                    Err(e) => {
                        return Err(e);
                    },
                }
            } else if text::is(&line, "providers") {
                d.providers = ProviderSet::new();
            }
            i = i + 1;
        }
        assert(all.take(all.len() as int) == all);
        Ok(d)
    }
}

/// What the daemon reports of the last pass.
#[derive(Debug, Clone, PartialEq)]
pub struct Status {
    pub generation: u64,
    /// The providers that are up.
    pub active: ProviderSet,
    /// The providers that could be engaged.
    pub available: ProviderSet,
    /// The providers that were asked for and could not be engaged, with the reason.
    pub unavailable: Vec<(ProviderId, String)>,
    /// How `resolv.conf` is managed.
    pub dns: DnsBackend,
}

pub struct StatusView {
    pub generation: u64,
    pub active: Set<ProviderId>,
    pub available: Set<ProviderId>,
    pub unavailable: Seq<(ProviderId, Seq<char>)>,
    pub dns: DnsBackend,
}

impl View for Status {
    type V = StatusView;

    open spec fn view(&self) -> StatusView {
        StatusView {
            generation: self.generation,
            active: self.active@,
            available: self.available@,
            unavailable: reconcile::reasons(self.unavailable@),
            dns: self.dns,
        }
    }
}

/// The line of a provider that could not be engaged.
pub open spec fn unavailable_line(x: (ProviderId, Seq<char>)) -> Seq<char> {
    "unavailable "@ + types::id_name(x.0) + seq![':'] + x.1
}

/// The lines of a status file. Where no provider is available there is no line for that,
/// nor is there one for a static `resolv.conf`.
pub open spec fn status_lines(s: StatusView) -> Seq<Seq<char>> {
    status_head(s) + s.unavailable.map_values(|x: (ProviderId, Seq<char>)| unavailable_line(x))
}

/// The lines of a status file before those of the providers that could not be engaged.
pub open spec fn status_head(s: StatusView) -> Seq<Seq<char>> {
    seq!["generation "@ + number::decimal(s.generation as nat), "active"@ + suffix(s.active)] + (if
    s.available == Set::<ProviderId>::empty() {
        Seq::empty()
    } else {
        seq!["available"@ + suffix(s.available)]
    }) + (if s.dns == DnsBackend::Static {
        Seq::empty()
    } else {
        seq!["dns "@ + dns::backend_name(s.dns)]
    })
}

/// What one more line does to the status that was read so far. An unavailable provider
/// that is not known is passed over, and so is a list of available providers that names
/// one that is not known.
pub open spec fn status_step(s: StatusView, line: Seq<char>) -> Result<StatusView, ErrorView> {
    let l = text::trim(line);
    if let Some(rest) = text::strip_prefix(l, "generation "@) {
        match generation_of(rest) {
            Ok(generation) => Ok(StatusView { generation, ..s }),
            Err(e) => Err(e),
        }
    } else if let Some(rest) = text::strip_prefix(l, "unavailable "@) {
        match text::split_once(rest, ':') {
            None => Ok(s),
            Some((name, reason)) => match types::parse_id(name) {
                Err(_) => Ok(s),
                Ok(id) => Ok(StatusView { unavailable: s.unavailable.push((id, reason)), ..s }),
            },
        }
    } else if let Some(rest) = text::strip_prefix(l, "active"@) {
        match types::set_of(text::trim(rest)) {
            Ok(active) => Ok(StatusView { active, ..s }),
            Err(e) => Err(e),
        }
    } else if let Some(rest) = text::strip_prefix(l, "available"@) {
        match types::set_of(text::trim(rest)) {
            Ok(available) => Ok(StatusView { available, ..s }),
            Err(_) => Ok(s),
        }
    } else if let Some(rest) = text::strip_prefix(l, "dns "@) {
        Ok(StatusView { dns: dns::named_backend(text::trim(rest)), ..s })
    } else {
        Ok(s)
    }
}

pub open spec fn blank_status() -> StatusView {
    StatusView {
        generation: 0,
        active: Set::empty(),
        available: Set::empty(),
        unavailable: Seq::empty(),
        dns: DnsBackend::Static,
    }
}

/// The status that lines describe; the first bad line is the error.
pub open spec fn status_from(lines: Seq<Seq<char>>) -> Result<StatusView, ErrorView>
    decreases lines.len(),
{
    if lines.len() == 0 {
        Ok(blank_status())
    } else {
        match status_from(lines.drop_last()) {
            Err(e) => Err(e),
            Ok(s) => status_step(s, lines.last()),
        }
    }
}

/// The error is that of the first bad line, whatever follows it.
proof fn lemma_status_fails_early(lines: Seq<Seq<char>>, i: int)
    requires
        0 <= i <= lines.len(),
        status_from(lines.take(i)) is Err,
    ensures
        status_from(lines) == status_from(lines.take(i)),
    decreases lines.len() - i,
{
    if i == lines.len() {
        assert(lines.take(i) == lines);
    } else {
        assert(lines.take(i + 1).drop_last() == lines.take(i));
        lemma_status_fails_early(lines, i + 1);
    }
}

impl Status {
    pub fn serialize(&self) -> (res: String)
        ensures
            res@ == text::unlines(status_lines(self@)),
    {
        let mut lines: Vec<String> = Vec::new();
        lines.push(generation_line(self.generation));
        lines.push(with_suffix("active", &self.active));
        if !self.available.is_empty() {
            lines.push(with_suffix("available", &self.available));
        }
        if self.dns != DnsBackend::Static {
            let mut line = "dns ".to_string();
            line.append(self.dns.as_str());
            lines.push(line);
        }
        let ghost head = text::texts(lines@);
        let ghost rest = self@.unavailable.map_values(
            |x: (ProviderId, Seq<char>)| unavailable_line(x),
        );
        assert(head == status_head(self@));
        let mut i: usize = 0;
        assert(head + rest.take(0) == head);
        while i < self.unavailable.len()
            invariant
                i <= self.unavailable.len(),
                rest == self@.unavailable.map_values(
                    |x: (ProviderId, Seq<char>)| unavailable_line(x),
                ),
                text::texts(lines@) == head + rest.take(i as int),
            decreases self.unavailable.len() - i,
        {
            let entry = &self.unavailable[i];
            let mut line = "unavailable ".to_string();
            line.append(entry.0.as_str());
            line.push(':');
            line.append(entry.1.as_str());
            assert(self@.unavailable[i as int] == (entry.0, entry.1@));
            assert(line@ == unavailable_line((entry.0, entry.1@)));
            let ghost before = lines@;
            lines.push(line);
            assert(text::texts(lines@) == text::texts(before).push(line@));
            assert(rest.take(i + 1) == rest.take(i as int).push(line@));
            i = i + 1;
        }
        assert(rest.take(rest.len() as int) == rest);
        text::unlined(&lines)
    }

    pub fn parse(text: &str) -> (res: Result<Status, Error>)
        ensures
            match res {
                Ok(s) => status_from(text::lines(text@)) == Ok::<StatusView, ErrorView>(s@),
                Err(e) => status_from(text::lines(text@)) == Err::<StatusView, ErrorView>(e@),
            },
    {
        let lines = text::lines_of(&text::chars_of(text));
        let ghost all = text::views(lines@);
        let mut s = Status {
            generation: 0,
            active: ProviderSet::new(),
            available: ProviderSet::new(),
            unavailable: Vec::new(),
            dns: DnsBackend::Static,
        };
        let mut i: usize = 0;
        proof {
            assert(all.take(0) == Seq::<Seq<char>>::empty());
            assert(s@.unavailable == Seq::<(ProviderId, Seq<char>)>::empty());
        }
        while i < lines.len()
            invariant
                i <= lines.len(),
                all == text::views(lines@),
                all == text::lines(text@),
                status_from(all.take(i as int)) == Ok::<StatusView, ErrorView>(s@),
            decreases lines.len() - i,
        {
            let line = text::trimmed(&lines[i]);
            let ghost before = s@;
            proof {
                assert(all[i as int] == lines@[i as int]@);
                assert(all.take(i + 1).drop_last() == all.take(i as int));
                assert(all.take(i + 1).last() == all[i as int]);
                if status_from(all.take(i + 1)) is Err {
                    lemma_status_fails_early(all, i + 1);
                }
            }
            if let Some(rest) = text::stripped_prefix(&line, "generation ") {
                match parse_generation(&rest) {
                    Ok(generation) => {
                        s.generation = generation;
                    },
                    Err(e) => {
                        return Err(e);
                    },
                }
            } else if let Some(rest) = text::stripped_prefix(&line, "unavailable ") {
                if let Some((name, reason)) = text::parted(&rest, ':') {
                    if let Ok(id) = ProviderId::from_str(text::string_of(&name).as_str()) {
                        s.unavailable.push((id, text::string_of(&reason)));
                        assert(s@.unavailable == before.unavailable.push((id, reason@)));
                    }
                }
            } else if let Some(rest) = text::stripped_prefix(&line, "active") {
                match parse_members(&rest) {
                    Ok(active) => {
                        s.active = active;
                    },
                    Err(e) => {
                        return Err(e);
                    },
                }
            } else if let Some(rest) = text::stripped_prefix(&line, "available") {
                if let Ok(available) = parse_members(&rest) {
                    s.available = available;
                }
            } else if let Some(rest) = text::stripped_prefix(&line, "dns ") {
                s.dns = DnsBackend::from_str(text::string_of(&text::trimmed(&rest)).as_str());
            }
            i = i + 1;
        }
        assert(all.take(all.len() as int) == all);
        Ok(s)
    }
}

/// The desired state in a file that holds `text`; no file means that nothing is desired.
pub fn read_desired(text: Option<&str>) -> (res: Result<Option<Desired>, Error>)
    ensures
        match res {
            Ok(None) => text is None,
            Ok(Some(d)) => text is Some && desired_from(text::lines(text->0@)) == Ok::<
                DesiredView,
                ErrorView,
            >(d@),
            Err(e) => text is Some && desired_from(text::lines(text->0@)) == Err::<
                DesiredView,
                ErrorView,
            >(e@),
        },
{
    match text {
        None => Ok(None),
        Some(text) => match Desired::parse(text) {
            Ok(d) => Ok(Some(d)),
            Err(e) => Err(e),
        },
    }
}

/// The status in a file that holds `text`, if there is one.
pub fn read_status(text: Option<&str>) -> (res: Result<Option<Status>, Error>)
    ensures
        match res {
            Ok(None) => text is None,
            Ok(Some(s)) => text is Some && status_from(text::lines(text->0@)) == Ok::<
                StatusView,
                ErrorView,
            >(s@),
            Err(e) => text is Some && status_from(text::lines(text->0@)) == Err::<
                StatusView,
                ErrorView,
            >(e@),
        },
{
    match text {
        None => Ok(None),
        Some(text) => match Status::parse(text) {
            Ok(s) => Ok(Some(s)),
            Err(e) => Err(e),
        },
    }
}

/// The file that records what is desired.
pub fn write_desired(path: &str, d: &Desired) -> (res: FileWrite)
    ensures
        res@ == desired_file(path@, d@),
        res@ == (FileWriteView {
            path: path@,
            contents: text::unlines(desired_lines(d@)),
            mode: STATE_MODE,
        }),
{
    FileWrite { path: path.to_string(), contents: d.serialize(), mode: STATE_MODE }
}

/// The file that reports the status.
pub fn write_status(path: &str, s: &Status) -> (res: FileWrite)
    ensures
        res@ == status_file(path@, s@),
        res@ == (FileWriteView {
            path: path@,
            contents: text::unlines(status_lines(s@)),
            mode: STATE_MODE,
        }),
{
    FileWrite { path: path.to_string(), contents: s.serialize(), mode: STATE_MODE }
}

/// A line that says the generation is read as the generation.
proof fn lemma_generation_line(n: u64)
    ensures
        ({
            let line = "generation "@ + number::decimal(n as nat);
            &&& text::lacks(line, '\n')
            &&& text::strip_cr(line) == line
            &&& text::trim(line) == line
            &&& text::strip_prefix(line, "generation "@) == Some(number::decimal(n as nat))
            &&& generation_of(number::decimal(n as nat)) == Ok::<u64, ErrorView>(n)
        }),
{
    let digits = number::decimal(n as nat);
    let line = "generation "@ + digits;
    reveal_strlit("generation ");
    number::lemma_decimal(n as nat);
    number::lemma_decimal_reads_back(n as nat, u64::MAX as nat);
    assert('0' <= digits[0] <= '9');
    assert('0' <= digits[digits.len() - 1] <= '9');
    assert(digits.last() == digits[digits.len() - 1]);
    assert(line.last() == digits.last());
    assert forall|i: int| 0 <= i < line.len() implies line[i] != '\n' by {
        if i >= 11 {
            assert(line[i] == digits[i - 11]);
            assert('0' <= digits[i - 11] <= '9');
        }
    }
    text::lemma_trim_of_trimmed(line);
    text::lemma_trim_of_trimmed(digits);
    text::lemma_strip_prefix_concat("generation "@, digits);
}

/// A keyword with a set after it is a clean line, from which the set is read.
proof fn lemma_suffix_line(keyword: Seq<char>, set: Set<ProviderId>)
    requires
        keyword.len() > 0,
        text::is_trimmed(keyword),
        text::lacks(keyword, '\n'),
    ensures
        ({
            let line = keyword + suffix(set);
            &&& text::lacks(line, '\n')
            &&& text::strip_cr(line) == line
            &&& text::trim(line) == line
            &&& line[0] == keyword[0]
            &&& text::strip_prefix(line, keyword) == Some(suffix(set))
            &&& set != Set::<ProviderId>::empty() ==> text::strip_prefix(line, keyword.push(' '))
                == Some(types::set_text(set))
            &&& types::set_of(text::trim(suffix(set))) == Ok::<Set<ProviderId>, ErrorView>(set)
            &&& types::set_of(text::trim(types::set_text(set))) == Ok::<
                Set<ProviderId>,
                ErrorView,
            >(set)
        }),
{
    let line = keyword + suffix(set);
    let members = types::set_text(set);
    types::lemma_set_text_is_plain(set);
    types::lemma_set_reads_back(set);
    text::lemma_trim_of_trimmed(members);
    text::lemma_strip_prefix_concat(keyword, suffix(set));
    text::lemma_strip_prefix_concat(keyword.push(' '), members);
    if set == Set::<ProviderId>::empty() {
        assert(line == keyword);
        types::lemma_set_text(set);
        assert(members == Seq::<char>::empty());
        text::lemma_trim_of_trimmed(suffix(set));
    } else {
        assert(line == keyword.push(' ') + members);
        assert(line.last() == members.last());
        assert(suffix(set).skip(1) == members);
        assert(text::trim_start(suffix(set)) == text::trim_start(members));
    }
    text::lemma_trim_of_trimmed(line);
}

/// What is written as the desired state is read back as it was.
pub proof fn lemma_desired_reads_back(d: DesiredView)
    ensures
        desired_from(text::lines(text::unlines(desired_lines(d)))) == Ok::<DesiredView, ErrorView>(
            d,
        ),
{
    let lines = desired_lines(d);
    reveal_strlit("generation ");
    reveal_strlit("providers");
    reveal_strlit("providers ");
    lemma_generation_line(d.generation);
    lemma_suffix_line("providers"@, d.providers);
    assert("providers"@.push(' ') == "providers "@);
    text::lemma_lines_of_unlines(lines);
    assert(lines.map_values(|l: Seq<char>| text::strip_cr(l)) == lines);
    text::lemma_other_start(lines[1], "generation "@);
    assert(lines.drop_last() == seq![lines[0]]);
    assert(lines.drop_last().drop_last() == Seq::<Seq<char>>::empty());
    let none = DesiredView { generation: 0, providers: Set::<ProviderId>::empty() };
    let first = DesiredView { generation: d.generation, ..none };
    assert(desired_from(lines.drop_last().drop_last()) == Ok::<DesiredView, ErrorView>(none));
    assert(desired_from(lines.drop_last()) == Ok::<DesiredView, ErrorView>(first));
    if d.providers == Set::<ProviderId>::empty() {
        assert(lines[1] == "providers"@);
        assert(text::strip_prefix(lines[1], "providers "@) is None);
    }
    assert(desired_step(first, lines[1]) == Ok::<DesiredView, ErrorView>(d));
}

/// Whether a reason can stand in a status file: it is one line, without whitespace at its
/// end.
pub open spec fn is_reason(reason: Seq<char>) -> bool {
    &&& text::lacks(reason, '\n')
    &&& reason.len() > 0 ==> !text::is_white(reason.last())
}

/// The line of an unavailable provider is a clean line, from which the provider and the
/// reason are read.
proof fn lemma_unavailable_line(s: StatusView, x: (ProviderId, Seq<char>))
    requires
        is_reason(x.1),
    ensures
        text::lacks(unavailable_line(x), '\n'),
        text::strip_cr(unavailable_line(x)) == unavailable_line(x),
        status_step(s, unavailable_line(x)) == Ok::<StatusView, ErrorView>(
            StatusView { unavailable: s.unavailable.push(x), ..s },
        ),
{
    let name = types::id_name(x.0);
    let line = unavailable_line(x);
    let rest = name + seq![':'] + x.1;
    reveal_strlit("unavailable ");
    reveal_strlit("generation ");
    types::lemma_id_names(x.0);
    types::lemma_id_reads_back(x.0);
    assert(line == "unavailable "@ + rest);
    assert(rest.len() > 0);
    if x.1.len() > 0 {
        assert(line.last() == x.1.last());
    } else {
        assert(line.last() == ':');
    }
    assert forall|i: int| 0 <= i < rest.len() implies rest[i] != '\n' by {
        if i > name.len() {
            assert(rest[i] == x.1[i - name.len() - 1]);
        }
    }
    assert forall|i: int| 0 <= i < line.len() implies line[i] != '\n' by {
        if i >= 12 {
            assert(line[i] == rest[i - 12]);
        }
    }
    text::lemma_trim_of_trimmed(line);
    text::lemma_other_start(line, "generation "@);
    text::lemma_strip_prefix_concat("unavailable "@, rest);
    let i = name.len() as int;
    text::lemma_position_is(rest, ':', i);
    assert(rest.take(i) == name);
    assert(rest.skip(i + 1) == x.1);
}

/// A line with the active set is clean, and the set is read from it.
proof fn lemma_active_line(s: StatusView, set: Set<ProviderId>)
    ensures
        text::lacks("active"@ + suffix(set), '\n'),
        text::strip_cr("active"@ + suffix(set)) == "active"@ + suffix(set),
        status_step(s, "active"@ + suffix(set)) == Ok::<StatusView, ErrorView>(
            StatusView { active: set, ..s },
        ),
{
    let line = "active"@ + suffix(set);
    reveal_strlit("generation ");
    reveal_strlit("unavailable ");
    reveal_strlit("active");
    lemma_suffix_line("active"@, set);
    text::lemma_other_start(line, "generation "@);
    text::lemma_other_start(line, "unavailable "@);
}

/// A line with the available set is clean, and the set is read from it.
proof fn lemma_available_line(s: StatusView, set: Set<ProviderId>)
    ensures
        text::lacks("available"@ + suffix(set), '\n'),
        text::strip_cr("available"@ + suffix(set)) == "available"@ + suffix(set),
        status_step(s, "available"@ + suffix(set)) == Ok::<StatusView, ErrorView>(
            StatusView { available: set, ..s },
        ),
{
    let line = "available"@ + suffix(set);
    reveal_strlit("generation ");
    reveal_strlit("unavailable ");
    reveal_strlit("active");
    reveal_strlit("available");
    lemma_suffix_line("available"@, set);
    text::lemma_other_start(line, "generation "@);
    text::lemma_other_start(line, "unavailable "@);
    assert(text::strip_prefix(line, "active"@) is None) by {
        if "active"@.is_prefix_of(line) {
            assert(line[1] == "available"@[1]);
            assert("active"@[1] == line.subrange(0, 6)[1]);
        }
    }
}

/// A line with the backend is clean, and the backend is read from it.
proof fn lemma_dns_line(s: StatusView, b: DnsBackend)
    ensures
        text::lacks("dns "@ + dns::backend_name(b), '\n'),
        text::strip_cr("dns "@ + dns::backend_name(b)) == "dns "@ + dns::backend_name(b),
        status_step(s, "dns "@ + dns::backend_name(b)) == Ok::<StatusView, ErrorView>(
            StatusView { dns: b, ..s },
        ),
{
    let name = dns::backend_name(b);
    let line = "dns "@ + name;
    reveal_strlit("dns ");
    reveal_strlit("generation ");
    reveal_strlit("unavailable ");
    reveal_strlit("active");
    reveal_strlit("available");
    dns::lemma_backend_names(b);
    dns::lemma_backend_reads_back(b);
    assert(line.last() == name.last());
    assert forall|i: int| 0 <= i < line.len() implies line[i] != '\n' by {
        if i >= 4 {
            assert(line[i] == name[i - 4]);
        }
    }
    text::lemma_trim_of_trimmed(line);
    text::lemma_trim_of_trimmed(name);
    text::lemma_other_start(line, "generation "@);
    text::lemma_other_start(line, "unavailable "@);
    text::lemma_other_start(line, "active"@);
    text::lemma_other_start(line, "available"@);
    text::lemma_strip_prefix_concat("dns "@, name);
}

/// The lines at the head of a status file are clean, and all but the unavailable
/// providers are read from them.
proof fn lemma_status_head(s: StatusView)
    ensures
        forall|i: int|
            0 <= i < status_head(s).len() ==> text::lacks(#[trigger] status_head(s)[i], '\n')
                && text::strip_cr(status_head(s)[i]) == status_head(s)[i],
        status_from(status_head(s)) == Ok::<StatusView, ErrorView>(
            StatusView { unavailable: Seq::empty(), ..s },
        ),
{
    let a = "generation "@ + number::decimal(s.generation as nat);
    let b = "active"@ + suffix(s.active);
    let c = "available"@ + suffix(s.available);
    let d = "dns "@ + dns::backend_name(s.dns);
    let none = Set::<ProviderId>::empty();
    let s0 = blank_status();
    let s1 = StatusView { generation: s.generation, ..s0 };
    let s2 = StatusView { active: s.active, ..s1 };
    let s3 = StatusView { available: s.available, ..s2 };
    let s4 = StatusView { dns: s.dns, ..s3 };
    lemma_generation_line(s.generation);
    lemma_active_line(s1, s.active);
    lemma_available_line(s2, s.available);
    lemma_dns_line(s3, s.dns);
    let one = Seq::empty().push(a);
    let two = one.push(b);
    lemma_status_push(Seq::empty(), s0, a);
    lemma_status_push(one, s1, b);
    let three = if s.available == none {
        two
    } else {
        two.push(c)
    };
    if s.available != none {
        lemma_status_push(two, s2, c);
    }
    let four = if s.dns == DnsBackend::Static {
        three
    } else {
        three.push(d)
    };
    if s.dns != DnsBackend::Static {
        lemma_status_push(three, s3, d);
    }
    assert(status_head(s) == four);
}

/// One more line after lines that were read.
proof fn lemma_status_push(lines: Seq<Seq<char>>, s: StatusView, line: Seq<char>)
    requires
        status_from(lines) == Ok::<StatusView, ErrorView>(s),
    ensures
        status_from(lines.push(line)) == status_step(s, line),
{
    assert(lines.push(line).drop_last() == lines);
}

/// The unavailable providers are read one by one after the head.
proof fn lemma_status_tail(s: StatusView, i: int)
    requires
        0 <= i <= s.unavailable.len(),
        forall|k: int| 0 <= k < s.unavailable.len() ==> is_reason((#[trigger] s.unavailable[k]).1),
    ensures
        status_from(
            status_head(s) + s.unavailable.map_values(
                |x: (ProviderId, Seq<char>)| unavailable_line(x),
            ).take(i),
        ) == Ok::<StatusView, ErrorView>(StatusView { unavailable: s.unavailable.take(i), ..s }),
    decreases i,
{
    let head = status_head(s);
    let tail = s.unavailable.map_values(|x: (ProviderId, Seq<char>)| unavailable_line(x));
    lemma_status_head(s);
    if i == 0 {
        assert(head + tail.take(0) == head);
        assert(s.unavailable.take(0) == Seq::<(ProviderId, Seq<char>)>::empty());
    } else {
        lemma_status_tail(s, i - 1);
        let before = StatusView { unavailable: s.unavailable.take(i - 1), ..s };
        let x = s.unavailable[i - 1];
        lemma_unavailable_line(before, x);
        lemma_status_push(head + tail.take(i - 1), before, tail[i - 1]);
        assert((head + tail.take(i - 1)).push(tail[i - 1]) == head + tail.take(i));
        assert(s.unavailable.take(i - 1).push(x) == s.unavailable.take(i));
    }
}

/// What is written as the status is read back as it was, as long as every reason is one
/// line without whitespace at its end.
pub proof fn lemma_status_reads_back(s: StatusView)
    requires
        forall|k: int| 0 <= k < s.unavailable.len() ==> is_reason((#[trigger] s.unavailable[k]).1),
    ensures
        status_from(text::lines(text::unlines(status_lines(s)))) == Ok::<StatusView, ErrorView>(s),
{
    let lines = status_lines(s);
    let head = status_head(s);
    let tail = s.unavailable.map_values(|x: (ProviderId, Seq<char>)| unavailable_line(x));
    lemma_status_head(s);
    assert forall|i: int| 0 <= i < lines.len() implies text::lacks(#[trigger] lines[i], '\n')
        && text::strip_cr(lines[i]) == lines[i] by {
        if i < head.len() {
            assert(lines[i] == head[i]);
        } else {
            assert(lines[i] == unavailable_line(s.unavailable[i - head.len()]));
            lemma_unavailable_line(s, s.unavailable[i - head.len()]);
        }
    }
    text::lemma_lines_of_unlines(lines);
    assert(lines.map_values(|l: Seq<char>| text::strip_cr(l)) == lines);
    lemma_status_tail(s, s.unavailable.len() as int);
    assert(tail.take(s.unavailable.len() as int) == tail);
    assert(s.unavailable.take(s.unavailable.len() as int) == s.unavailable);
}

/// No line of a desired-state file ends in a blank.
pub proof fn lemma_desired_has_no_trailing_blank(d: DesiredView)
    ensures
        forall|i: int|
            0 <= i < desired_lines(d).len() ==> (#[trigger] desired_lines(d)[i]).len() > 0
                && !text::is_white(desired_lines(d)[i].last()),
{
    reveal_strlit("providers");
    lemma_generation_line(d.generation);
    lemma_suffix_line("providers"@, d.providers);
    assert forall|i: int| 0 <= i < desired_lines(d).len() implies (
    #[trigger] desired_lines(d)[i]).len() > 0 && !text::is_white(desired_lines(d)[i].last()) by {
        text::lemma_trim_is_trimmed(desired_lines(d)[i]);
    }
}

/// No line of a status file ends in a blank, as long as no reason does.
pub proof fn lemma_status_has_no_trailing_blank(s: StatusView)
    requires
        forall|k: int| 0 <= k < s.unavailable.len() ==> is_reason((#[trigger] s.unavailable[k]).1),
    ensures
        forall|i: int|
            0 <= i < status_lines(s).len() ==> (#[trigger] status_lines(s)[i]).len() > 0
                && !text::is_white(status_lines(s)[i].last()),
{
    let lines = status_lines(s);
    let head = status_head(s);
    let dns_line = "dns "@ + dns::backend_name(s.dns);
    reveal_strlit("active");
    reveal_strlit("available");
    lemma_generation_line(s.generation);
    lemma_suffix_line("active"@, s.active);
    lemma_suffix_line("available"@, s.available);
    dns::lemma_backend_names(s.dns);
    assert(dns_line.last() == dns::backend_name(s.dns).last());
    assert forall|i: int| 0 <= i < lines.len() implies (#[trigger] lines[i]).len() > 0
        && !text::is_white(lines[i].last()) by {
        if i < head.len() {
            assert(lines[i] == head[i]);
            if head[i] != dns_line {
                text::lemma_trim_is_trimmed(head[i]);
            }
        } else {
            let x = s.unavailable[i - head.len()];
            assert(lines[i] == unavailable_line(x));
            if x.1.len() > 0 {
                assert(lines[i].last() == x.1.last());
            } else {
                assert(lines[i].last() == ':');
            }
        }
    }
}

/// Whether a line makes a desired-state file unreadable: a generation that is not a
/// number, or a provider that is not known.
pub open spec fn spoils_desired(line: Seq<char>) -> bool {
    let l = text::trim(line);
    if let Some(rest) = text::strip_prefix(l, "generation "@) {
        generation_of(rest) is Err
    } else if let Some(rest) = text::strip_prefix(l, "providers "@) {
        types::set_of(text::trim(rest)) is Err
    } else {
        false
    }
}

/// Whether a line makes a status file unreadable: a generation that is not a number, or an
/// active provider that is not known.
pub open spec fn spoils_status(line: Seq<char>) -> bool {
    let l = text::trim(line);
    if let Some(rest) = text::strip_prefix(l, "generation "@) {
        generation_of(rest) is Err
    } else if text::strip_prefix(l, "unavailable "@) is Some {
        false
    } else if let Some(rest) = text::strip_prefix(l, "active"@) {
        types::set_of(text::trim(rest)) is Err
    } else {
        false
    }
}

/// A desired-state file is unreadable exactly where one of its lines makes it so.
pub proof fn lemma_desired_is_readable(lines: Seq<Seq<char>>)
    ensures
        desired_from(lines) is Err <==> exists|i: int|
            0 <= i < lines.len() && spoils_desired(#[trigger] lines[i]),
    decreases lines.len(),
{
    if lines.len() > 0 {
        let init = lines.drop_last();
        lemma_desired_is_readable(init);
        if desired_from(init) is Err {
            let i = choose|i: int| 0 <= i < init.len() && spoils_desired(#[trigger] init[i]);
            assert(spoils_desired(lines[i]));
        } else {
            assert forall|i: int| 0 <= i < init.len() implies !spoils_desired(
                #[trigger] lines[i],
            ) by {
                assert(lines[i] == init[i]);
            }
            assert(lines.last() == lines[lines.len() - 1]);
        }
    }
}

/// A status file is unreadable exactly where one of its lines makes it so.
pub proof fn lemma_status_is_readable(lines: Seq<Seq<char>>)
    ensures
        status_from(lines) is Err <==> exists|i: int|
            0 <= i < lines.len() && spoils_status(#[trigger] lines[i]),
    decreases lines.len(),
{
    if lines.len() > 0 {
        let init = lines.drop_last();
        lemma_status_is_readable(init);
        if status_from(init) is Err {
            let i = choose|i: int| 0 <= i < init.len() && spoils_status(#[trigger] init[i]);
            assert(spoils_status(lines[i]));
        } else {
            assert forall|i: int| 0 <= i < init.len() implies !spoils_status(
                #[trigger] lines[i],
            ) by {
                assert(lines[i] == init[i]);
            }
            assert(lines.last() == lines[lines.len() - 1]);
        }
    }
}

/// A desired-state file, word for word: the generation, and the providers after a blank, or
/// the bare word where there are none.
#[verifier::rlimit(40)]
pub proof fn lemma_desired_word_for_word(generation: u64)
    ensures
        ({
            let first = "generation "@ + number::decimal(generation as nat);
            let file = |providers: Set<ProviderId>|
                text::unlines(desired_lines(DesiredView { generation, providers }));
            &&& file(Set::empty()) == first + "\nproviders\n"@
            &&& file(set![ProviderId::Mullvad]) == first + "\nproviders mullvad\n"@
            &&& file(set![ProviderId::Tailscale]) == first + "\nproviders tailscale\n"@
            &&& file(set![ProviderId::Mullvad, ProviderId::Tailscale]) == first
                + "\nproviders mullvad,tailscale\n"@
        }),
{
    let first = "generation "@ + number::decimal(generation as nat);
    types::lemma_names_in_text();
    reveal_strlit("providers");
    reveal_strlit("mullvad");
    reveal_strlit("tailscale");
    reveal_strlit("mullvad,tailscale");
    reveal_strlit("\nproviders\n");
    reveal_strlit("\nproviders mullvad\n");
    reveal_strlit("\nproviders tailscale\n");
    reveal_strlit("\nproviders mullvad,tailscale\n");
    let none = Set::<ProviderId>::empty();
    let m = set![ProviderId::Mullvad];
    let t = set![ProviderId::Tailscale];
    let both = set![ProviderId::Mullvad, ProviderId::Tailscale];
    assert(m.contains(ProviderId::Mullvad));
    assert(t.contains(ProviderId::Tailscale));
    assert(both.contains(ProviderId::Mullvad));
    lemma_two_lines(first, "providers"@ + suffix(none));
    lemma_two_lines(first, "providers"@ + suffix(m));
    lemma_two_lines(first, "providers"@ + suffix(t));
    lemma_two_lines(first, "providers"@ + suffix(both));
    assert(first + (seq!['\n'] + ("providers"@ + suffix(none)) + seq!['\n']) == first
        + "\nproviders\n"@);
    assert(seq!['\n'] + ("providers"@ + suffix(m)) + seq!['\n'] == "\nproviders mullvad\n"@);
    assert(seq!['\n'] + ("providers"@ + suffix(t)) + seq!['\n'] == "\nproviders tailscale\n"@);
    assert(seq!['\n'] + ("providers"@ + suffix(both)) + seq!['\n']
        == "\nproviders mullvad,tailscale\n"@);
}

proof fn lemma_two_lines(a: Seq<char>, b: Seq<char>)
    ensures
        text::unlines(seq![a, b]) == a + (seq!['\n'] + b + seq!['\n']),
{
    text::lemma_unlines(Seq::empty(), a);
    text::lemma_unlines(Seq::empty().push(a), b);
    assert(seq![a, b] == Seq::empty().push(a).push(b));
    assert(text::unlines(seq![a, b]) == a + (seq!['\n'] + b + seq!['\n']));
}

/// The lines of a status file, word for word: the generation and the active providers
/// always, the available ones where there are any, the DNS backend where it is not static,
/// and one line for each provider that could not be engaged, in order.
pub proof fn lemma_status_word_for_word(s: StatusView)
    ensures
        ({
            let lines = status_lines(s);
            let available = s.available != Set::<ProviderId>::empty();
            let managed = s.dns != DnsBackend::Static;
            let n = 2 + (if available {
                1int
            } else {
                0
            }) + (if managed {
                1int
            } else {
                0
            });
            &&& lines.len() == n + s.unavailable.len()
            &&& lines[0] == "generation "@ + number::decimal(s.generation as nat)
            &&& s.active == Set::<ProviderId>::empty() ==> lines[1] == "active"@
            &&& s.active != Set::<ProviderId>::empty() ==> lines[1] == "active "@ + types::set_text(
                s.active,
            )
            &&& available ==> lines[2] == "available "@ + types::set_text(s.available)
            &&& managed ==> lines[n - 1] == "dns "@ + dns::backend_name(s.dns)
            &&& forall|k: int|
                0 <= k < s.unavailable.len() ==> lines[n + k] == "unavailable "@ + types::id_name(
                    (#[trigger] s.unavailable[k]).0,
                ) + ":"@ + s.unavailable[k].1
        }),
{
    reveal_strlit("active");
    reveal_strlit("active ");
    reveal_strlit("available");
    reveal_strlit("available ");
    reveal_strlit(":");
    assert(":"@ == seq![':']);
    assert("active"@ + suffix(Set::<ProviderId>::empty()) == "active"@);
    assert("active"@ + (seq![' '] + types::set_text(s.active)) == "active "@ + types::set_text(
        s.active,
    ));
    assert("available"@ + (seq![' '] + types::set_text(s.available)) == "available "@
        + types::set_text(s.available));
    let head = status_head(s);
    let lines = status_lines(s);
    assert forall|k: int| 0 <= k < s.unavailable.len() implies lines[head.len() + k]
        == unavailable_line(#[trigger] s.unavailable[k]) by {}
}

/// What each line of a desired-state file does, blanks around it aside: a generation or a
/// list replaces what was read before, and touches nothing else; other lines do nothing.
pub proof fn lemma_desired_lines_count(d: DesiredView, line: Seq<char>)
    ensures
        ({
            let l = text::trim(line);
            let step = desired_step(d, line);
            &&& forall|rest: Seq<char>|
                l == #[trigger] ("generation "@ + rest) ==> match number::parse_unsigned(
                    text::trim(rest),
                    10,
                    u64::MAX as nat,
                ) {
                    Some(n) => step matches Ok(e) && e.generation == n && e.providers
                        == d.providers,
                    None => step == Err::<DesiredView, ErrorView>(
                        ErrorView::BadNumber(text::trim(rest)),
                    ),
                }
            &&& forall|rest: Seq<char>|
                l == #[trigger] ("providers "@ + rest) ==> match types::set_of(text::trim(rest)) {
                    Ok(set) => step matches Ok(e) && e.generation == d.generation && e.providers
                        == set,
                    Err(e) => step == Err::<DesiredView, ErrorView>(e),
                }
            &&& l == "providers"@ ==> (step matches Ok(e) && e.generation == d.generation
                && e.providers == Set::<ProviderId>::empty())
            &&& l != "providers"@ && !"providers "@.is_prefix_of(l) && !"generation "@.is_prefix_of(
                l,
            ) ==> step == Ok::<DesiredView, ErrorView>(d)
        }),
{
    let l = text::trim(line);
    reveal_strlit("generation ");
    reveal_strlit("providers ");
    reveal_strlit("providers");
    assert forall|rest: Seq<char>| l == #[trigger] ("generation "@ + rest) implies
        text::strip_prefix(l, "generation "@) == Some(rest) by {
        text::lemma_strip_prefix_concat("generation "@, rest);
    }
    assert forall|rest: Seq<char>| l == #[trigger] ("providers "@ + rest) implies
        text::strip_prefix(l, "providers "@) == Some(rest) && text::strip_prefix(l, "generation "@)
        is None by {
        text::lemma_strip_prefix_concat("providers "@, rest);
        text::lemma_other_start(l, "generation "@);
    }
    if l == "providers"@ {
        text::lemma_other_start(l, "generation "@);
        assert(l.len() < "providers "@.len());
    }
}

/// What each line of a status file does, blanks around it aside.
#[verifier::rlimit(40)]
pub proof fn lemma_status_lines_count(s: StatusView, line: Seq<char>)
    ensures
        ({
            let l = text::trim(line);
            let step = status_step(s, line);
            &&& forall|rest: Seq<char>|
                l == #[trigger] ("generation "@ + rest) ==> match number::parse_unsigned(
                    text::trim(rest),
                    10,
                    u64::MAX as nat,
                ) {
                    Some(n) => step == Ok::<StatusView, ErrorView>(
                        StatusView { generation: n as u64, ..s },
                    ),
                    None => step == Err::<StatusView, ErrorView>(
                        ErrorView::BadNumber(text::trim(rest)),
                    ),
                }
            &&& forall|rest: Seq<char>|
                l == #[trigger] ("active"@ + rest) ==> match types::set_of(text::trim(rest)) {
                    Ok(active) => step == Ok::<StatusView, ErrorView>(StatusView { active, ..s }),
                    Err(e) => step == Err::<StatusView, ErrorView>(e),
                }
            &&& forall|rest: Seq<char>|
                l == #[trigger] ("available"@ + rest) ==> match types::set_of(text::trim(rest)) {
                    Ok(available) => step == Ok::<StatusView, ErrorView>(
                        StatusView { available, ..s },
                    ),
                    Err(_) => step == Ok::<StatusView, ErrorView>(s),
                }
            &&& forall|rest: Seq<char>|
                l == #[trigger] ("dns "@ + rest) ==> step == Ok::<StatusView, ErrorView>(
                    StatusView { dns: dns::named_backend(text::trim(rest)), ..s },
                )
            &&& forall|name: Seq<char>, reason: Seq<char>|
                text::lacks(name, ':') && l == #[trigger] ("unavailable "@ + name + seq![':']
                    + reason) ==> match types::parse_id(name) {
                    Ok(id) => step == Ok::<StatusView, ErrorView>(
                        StatusView { unavailable: s.unavailable.push((id, reason)), ..s },
                    ),
                    Err(_) => step == Ok::<StatusView, ErrorView>(s),
                }
        }),
{
    let l = text::trim(line);
    reveal_strlit("generation ");
    reveal_strlit("unavailable ");
    reveal_strlit("active");
    reveal_strlit("available");
    reveal_strlit("dns ");
    assert forall|rest: Seq<char>| l == #[trigger] ("generation "@ + rest) implies
        text::strip_prefix(l, "generation "@) == Some(rest) by {
        text::lemma_strip_prefix_concat("generation "@, rest);
    }
    assert forall|rest: Seq<char>| l == #[trigger] ("active"@ + rest) implies text::strip_prefix(
        l,
        "active"@,
    ) == Some(rest) && text::strip_prefix(l, "generation "@) is None && text::strip_prefix(
        l,
        "unavailable "@,
    ) is None by {
        text::lemma_strip_prefix_concat("active"@, rest);
        text::lemma_other_start(l, "generation "@);
        text::lemma_other_start(l, "unavailable "@);
    }
    assert forall|rest: Seq<char>| l == #[trigger] ("available"@ + rest) implies text::strip_prefix(
        l,
        "available"@,
    ) == Some(rest) && text::strip_prefix(l, "generation "@) is None && text::strip_prefix(
        l,
        "unavailable "@,
    ) is None && text::strip_prefix(l, "active"@) is None by {
        text::lemma_strip_prefix_concat("available"@, rest);
        text::lemma_other_start(l, "generation "@);
        text::lemma_other_start(l, "unavailable "@);
        assert(l[1] == 'v');
        if "active"@.is_prefix_of(l) {
            assert("active"@[1] == l.subrange(0, 6)[1]);
        }
    }
    assert forall|rest: Seq<char>| l == #[trigger] ("dns "@ + rest) implies text::strip_prefix(
        l,
        "dns "@,
    ) == Some(rest) && text::strip_prefix(l, "generation "@) is None && text::strip_prefix(
        l,
        "unavailable "@,
    ) is None && text::strip_prefix(l, "active"@) is None && text::strip_prefix(l, "available"@)
        is None by {
        text::lemma_strip_prefix_concat("dns "@, rest);
        text::lemma_other_start(l, "generation "@);
        text::lemma_other_start(l, "unavailable "@);
        text::lemma_other_start(l, "active"@);
        text::lemma_other_start(l, "available"@);
    }
    assert forall|name: Seq<char>, reason: Seq<char>|
        text::lacks(name, ':') && l == #[trigger] ("unavailable "@ + name + seq![':'] + reason) implies
        text::strip_prefix(l, "generation "@) is None && text::strip_prefix(l, "unavailable "@)
        == Some(name + seq![':'] + reason) && text::split_once(name + seq![':'] + reason, ':')
        == Some((name, reason)) by {
        let rest = name + seq![':'] + reason;
        assert(l == "unavailable "@ + rest);
        text::lemma_strip_prefix_concat("unavailable "@, rest);
        text::lemma_other_start(l, "generation "@);
        text::lemma_position_is(rest, ':', name.len() as int);
        assert(rest.take(name.len() as int) == name);
        assert(rest.skip(name.len() as int + 1) == reason);
    }
}

/// A file is read line by line, from a blank state, and a line that does not count does not
/// stop the reading.
pub proof fn lemma_read_line_by_line(lines: Seq<Seq<char>>, line: Seq<char>)
    ensures
        desired_from(Seq::<Seq<char>>::empty()) == Ok::<DesiredView, ErrorView>(
            DesiredView { generation: 0, providers: Set::empty() },
        ),
        desired_from(lines) matches Ok(d) ==> desired_from(lines.push(line)) == desired_step(
            d,
            line,
        ),
        desired_from(lines) is Err ==> desired_from(lines.push(line)) == desired_from(lines),
        status_from(Seq::<Seq<char>>::empty()) == Ok::<StatusView, ErrorView>(
            StatusView {
                generation: 0,
                active: Set::empty(),
                available: Set::empty(),
                unavailable: Seq::empty(),
                dns: DnsBackend::Static,
            },
        ),
        status_from(lines) matches Ok(s) ==> status_from(lines.push(line)) == status_step(s, line),
        status_from(lines) is Err ==> status_from(lines.push(line)) == status_from(lines),
{
    assert(lines.push(line).drop_last() == lines);
    assert(lines.push(line).last() == line);
}

/// A line that begins with none of the known words, and an entry without a colon, leave the
/// status as it is.
pub proof fn lemma_other_lines_do_not_count(s: StatusView, line: Seq<char>)
    ensures
        ({
            let l = text::trim(line);
            &&& !"generation "@.is_prefix_of(l) && !"active"@.is_prefix_of(l)
                && !"available"@.is_prefix_of(l) && !"dns "@.is_prefix_of(l)
                && !"unavailable "@.is_prefix_of(l) ==> status_step(s, line) == Ok::<
                StatusView,
                ErrorView,
            >(s)
            &&& forall|entry: Seq<char>|
                l == #[trigger] ("unavailable "@ + entry) && text::lacks(entry, ':')
                    ==> status_step(s, line) == Ok::<StatusView, ErrorView>(s)
        }),
{
    let l = text::trim(line);
    reveal_strlit("generation ");
    reveal_strlit("unavailable ");
    assert forall|entry: Seq<char>|
        l == #[trigger] ("unavailable "@ + entry) && text::lacks(entry, ':') implies status_step(
        s,
        line,
    ) == Ok::<StatusView, ErrorView>(s) by {
        text::lemma_strip_prefix_concat("unavailable "@, entry);
        text::lemma_other_start(l, "generation "@);
        text::lemma_split_once_parts(entry, ':');
        text::lemma_position(entry, ':');
    }
}

/// The state files are for their owner and the group, and no larger one is read than a
/// state needs by far.
pub proof fn lemma_file_limits()
    ensures
        STATE_MODE == 0o660,
        MAX_STATE_BYTES == 65536,
{
}

/// The file that records a desired state.
pub open spec fn desired_file(path: Seq<char>, d: DesiredView) -> FileWriteView {
    FileWriteView { path, contents: text::unlines(desired_lines(d)), mode: STATE_MODE }
}

/// The file that reports a status.
pub open spec fn status_file(path: Seq<char>, s: StatusView) -> FileWriteView {
    FileWriteView { path, contents: text::unlines(status_lines(s)), mode: STATE_MODE }
}

/// What a read gives back of a write, for both files: the same state, at the path that was
/// asked for. Both are open to their owner and the group alone.
pub proof fn lemma_files_read_back(path: Seq<char>, d: DesiredView, s: StatusView)
    requires
        forall|k: int|
            0 <= k < s.unavailable.len() ==> is_reason((#[trigger] s.unavailable[k]).1),
    ensures
        desired_file(path, d).path == path,
        desired_file(path, d).mode == 0o660,
        desired_from(text::lines(desired_file(path, d).contents)) == Ok::<DesiredView, ErrorView>(
            d,
        ),
        status_file(path, s).path == path,
        status_file(path, s).mode == 0o660,
        status_from(text::lines(status_file(path, s).contents)) == Ok::<StatusView, ErrorView>(s),
{
    lemma_desired_reads_back(d);
    lemma_status_reads_back(s);
}

} // verus!
