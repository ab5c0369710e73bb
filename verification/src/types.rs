//! Providers, sets of providers, and the error type.

use crate::mullvad::Mullvad;
use crate::provider::AnyProvider;
use crate::tailscale::Tailscale;
use crate::text;
use vstd::prelude::*;

verus! {

/// What can go wrong while reading state or running commands.
#[derive(Debug, Clone, PartialEq)]
pub enum Error {
    /// A provider name that is not known.
    UnknownProvider(String),
    /// A generation that is not a number.
    BadNumber(String),
    /// A command that could not be run, with the reason.
    Command(String),
}

pub enum ErrorView {
    UnknownProvider(Seq<char>),
    BadNumber(Seq<char>),
    Command(Seq<char>),
}

impl View for Error {
    type V = ErrorView;

    open spec fn view(&self) -> ErrorView {
        match self {
            Error::UnknownProvider(name) => ErrorView::UnknownProvider(name@),
            Error::BadNumber(text) => ErrorView::BadNumber(text@),
            Error::Command(reason) => ErrorView::Command(reason@),
        }
    }
}

#[derive(Debug, Clone, Copy, PartialEq, Eq, PartialOrd, Ord, Hash, Structural)]
pub enum ProviderId {
    Mullvad,
    Tailscale,
}

/// The name of a provider.
pub open spec fn id_name(id: ProviderId) -> Seq<char> {
    match id {
        ProviderId::Mullvad => "mullvad"@,
        ProviderId::Tailscale => "tailscale"@,
    }
}

/// The provider that a name stands for, whitespace around the name aside.
pub open spec fn parse_id(s: Seq<char>) -> Result<ProviderId, ErrorView> {
    let name = text::trim(s);
    if name == "mullvad"@ {
        Ok(ProviderId::Mullvad)
    } else if name == "tailscale"@ {
        Ok(ProviderId::Tailscale)
    } else {
        Err(ErrorView::UnknownProvider(name))
    }
}

impl ProviderId {
    /// Every provider that vpnmux knows about, in order.
    pub fn all() -> (res: Vec<ProviderId>)
        ensures
            res@ == every_id(),
    {
        vec![ProviderId::Mullvad, ProviderId::Tailscale]
    }

    pub fn as_str(self) -> (res: &'static str)
        ensures
            res@ == id_name(self),
    {
        match self {
            ProviderId::Mullvad => "mullvad",
            ProviderId::Tailscale => "tailscale",
        }
    }

    pub fn from_str(s: &str) -> (res: Result<ProviderId, Error>)
        ensures
            match res {
                Ok(id) => parse_id(s@) == Ok::<ProviderId, ErrorView>(id),
                Err(e) => parse_id(s@) == Err::<ProviderId, ErrorView>(e@),
            },
    {
        let name = text::trimmed(&text::chars_of(s));
        if text::is(&name, "mullvad") {
            Ok(ProviderId::Mullvad)
        } else if text::is(&name, "tailscale") {
            Ok(ProviderId::Tailscale)
        } else {
            Err(Error::UnknownProvider(text::string_of(&name)))
        }
    }

    /// The provider with this id, to be driven through the given programs.
    pub fn provider(self, mullvad_bin: &str, tailscale_bin: &str, nft: &str) -> (res: AnyProvider)
        ensures
            is_provider(res, self, mullvad_bin@, tailscale_bin@, nft@),
    {
        match self {
            ProviderId::Mullvad => AnyProvider::Mullvad(
                Mullvad { bin: mullvad_bin.to_string(), nft: nft.to_string() },
            ),
            ProviderId::Tailscale => AnyProvider::Tailscale(
                Tailscale { bin: tailscale_bin.to_string() },
            ),
        }
    }
}

/// Whether `p` is the provider `id` that drives the given programs.
pub open spec fn is_provider(
    p: AnyProvider,
    id: ProviderId,
    mullvad_bin: Seq<char>,
    tailscale_bin: Seq<char>,
    nft: Seq<char>,
) -> bool {
    match id {
        ProviderId::Mullvad => p matches AnyProvider::Mullvad(m) && m.bin@ == mullvad_bin
            && m.nft@ == nft,
        ProviderId::Tailscale => p matches AnyProvider::Tailscale(t) && t.bin@ == tailscale_bin,
    }
}

/// The one registry of providers: every known provider, in order.
pub fn providers(mullvad_bin: &str, tailscale_bin: &str, nft: &str) -> (res: Vec<AnyProvider>)
    ensures
        res@.len() == every_id().len(),
        forall|i: int|
            0 <= i < res@.len() ==> is_provider(
                #[trigger] res@[i],
                every_id()[i],
                mullvad_bin@,
                tailscale_bin@,
                nft@,
            ),
{
    let ids = ProviderId::all();
    let mut out: Vec<AnyProvider> = Vec::new();
    let mut i: usize = 0;
    while i < ids.len()
        invariant
            i <= ids.len(),
            ids@ == every_id(),
            out@.len() == i,
            forall|k: int|
                0 <= k < i ==> is_provider(
                    #[trigger] out@[k],
                    every_id()[k],
                    mullvad_bin@,
                    tailscale_bin@,
                    nft@,
                ),
        decreases ids.len() - i,
    {
        out.push(ids[i].provider(mullvad_bin, tailscale_bin, nft));
        i = i + 1;
    }
    out
}

/// Every provider, in order.
pub open spec fn every_id() -> Seq<ProviderId> {
    seq![ProviderId::Mullvad, ProviderId::Tailscale]
}

/// A set of providers, held as one flag for each.
#[derive(Debug, Clone, Copy, PartialEq, Eq, Structural)]
pub struct ProviderSet {
    pub mullvad: bool,
    pub tailscale: bool,
}

impl View for ProviderSet {
    type V = Set<ProviderId>;

    open spec fn view(&self) -> Set<ProviderId> {
        Set::new(
            |id: ProviderId|
                match id {
                    ProviderId::Mullvad => self.mullvad,
                    ProviderId::Tailscale => self.tailscale,
                },
        )
    }
}

/// The members of a set, in order.
pub open spec fn ordered(set: Set<ProviderId>) -> Seq<ProviderId> {
    every_id().filter(|id: ProviderId| set.contains(id))
}

/// The members of a set, spelled out for each of its two possible members.
pub proof fn lemma_ordered(set: Set<ProviderId>)
    ensures
        ordered(set) == (if set.contains(ProviderId::Mullvad) {
            seq![ProviderId::Mullvad]
        } else {
            seq![]
        }) + (if set.contains(ProviderId::Tailscale) {
            seq![ProviderId::Tailscale]
        } else {
            seq![]
        }),
{
    let f = |id: ProviderId| set.contains(id);
    reveal_with_fuel(Seq::filter, 3);
    assert(every_id().drop_last() == seq![ProviderId::Mullvad]);
    assert(every_id().drop_last().drop_last() == Seq::<ProviderId>::empty());
}

impl ProviderSet {
    pub fn new() -> (res: ProviderSet)
        ensures
            res@ == Set::<ProviderId>::empty(),
    {
        ProviderSet { mullvad: false, tailscale: false }
    }

    pub fn contains(&self, id: &ProviderId) -> (res: bool)
        ensures
            res == self@.contains(*id),
    {
        match id {
            ProviderId::Mullvad => self.mullvad,
            ProviderId::Tailscale => self.tailscale,
        }
    }

    pub fn is_empty(&self) -> (res: bool)
        ensures
            res == (self@ == Set::<ProviderId>::empty()),
    {
        proof {
            assert(self.mullvad ==> self@.contains(ProviderId::Mullvad));
            assert(self.tailscale ==> self@.contains(ProviderId::Tailscale));
            if !self.mullvad && !self.tailscale {
                assert(self@ =~= Set::<ProviderId>::empty());
            }
        }
        !self.mullvad && !self.tailscale
    }

    /// Adds a provider; whether it was not there before.
    pub fn insert(&mut self, id: ProviderId) -> (added: bool)
        ensures
            final(self)@ == old(self)@.insert(id),
            added == !old(self)@.contains(id),
    {
        let added = !self.contains(&id);
        match id {
            ProviderId::Mullvad => {
                self.mullvad = true;
            },
            ProviderId::Tailscale => {
                self.tailscale = true;
            },
        }
        assert(self@ =~= old(self)@.insert(id));
        added
    }

    /// Adds every provider of `other`.
    pub fn extend(&mut self, other: ProviderSet)
        ensures
            final(self)@ == old(self)@.union(other@),
    {
        self.mullvad = self.mullvad || other.mullvad;
        self.tailscale = self.tailscale || other.tailscale;
        assert(self@ =~= old(self)@.union(other@));
    }

    /// The providers of this set that `other` lacks.
    pub fn difference(&self, other: &ProviderSet) -> (res: ProviderSet)
        ensures
            res@ == self@.difference(other@),
    {
        let res = ProviderSet {
            mullvad: self.mullvad && !other.mullvad,
            tailscale: self.tailscale && !other.tailscale,
        };
        assert(res@ =~= self@.difference(other@));
        res
    }

    /// The providers of this set, in order.
    pub fn to_vec(&self) -> (res: Vec<ProviderId>)
        ensures
            res@ == ordered(self@),
    {
        let mut out: Vec<ProviderId> = Vec::new();
        proof {
            lemma_ordered(self@);
        }
        if self.mullvad {
            out.push(ProviderId::Mullvad);
        }
        if self.tailscale {
            out.push(ProviderId::Tailscale);
        }
        assert(out@ =~= ordered(self@));
        out
    }
}

/// Two sets with the same members are the same value.
pub proof fn lemma_set_is_its_members(a: ProviderSet, b: ProviderSet)
    ensures
        a@ == b@ <==> a == b,
{
    if a@ == b@ {
        assert(a.mullvad == a@.contains(ProviderId::Mullvad));
        assert(b.mullvad == b@.contains(ProviderId::Mullvad));
        assert(a.tailscale == a@.contains(ProviderId::Tailscale));
        assert(b.tailscale == b@.contains(ProviderId::Tailscale));
    }
}

/// The set that a list of names stands for, empty names aside, or the first name
/// that is not known.
pub open spec fn parse_names(names: Seq<Seq<char>>) -> Result<Set<ProviderId>, ErrorView>
    decreases names.len(),
{
    if names.len() == 0 {
        Ok(Set::empty())
    } else {
        match parse_names(names.drop_last()) {
            Err(e) => Err(e),
            Ok(set) => if text::trim(names.last()).len() == 0 {
                Ok(set)
            } else {
                match parse_id(names.last()) {
                    Ok(id) => Ok(set.insert(id)),
                    Err(e) => Err(e),
                }
            },
        }
    }
}

/// The set that a comma-separated list stands for.
pub open spec fn set_of(s: Seq<char>) -> Result<Set<ProviderId>, ErrorView> {
    parse_names(text::split(s, ','))
}

/// A set as a comma-separated list in order.
pub open spec fn set_text(set: Set<ProviderId>) -> Seq<char> {
    text::join(ordered(set).map_values(|id: ProviderId| id_name(id)), ","@)
}

/// An error among the first names is an error of all of them.
proof fn lemma_parse_names_fails_early(names: Seq<Seq<char>>, i: int)
    requires
        0 <= i <= names.len(),
        parse_names(names.take(i)) is Err,
    ensures
        parse_names(names) == parse_names(names.take(i)),
    decreases names.len() - i,
{
    if i == names.len() {
        assert(names.take(i) == names);
    } else {
        assert(names.take(i + 1).drop_last() == names.take(i));
        lemma_parse_names_fails_early(names, i + 1);
    }
}

/// Parses a comma-separated list of providers ("mullvad,tailscale"); the empty
/// string is the empty set.
pub fn parse_set(s: &str) -> (res: Result<ProviderSet, Error>)
    ensures
        match res {
            Ok(set) => set_of(s@) == Ok::<Set<ProviderId>, ErrorView>(set@),
            Err(e) => set_of(s@) == Err::<Set<ProviderId>, ErrorView>(e@),
        },
{
    let parts = text::pieces(&text::chars_of(s), ',');
    let ghost names = text::views(parts@);
    let mut set = ProviderSet::new();
    let mut i: usize = 0;
    while i < parts.len()
        invariant
            i <= parts.len(),
            names == text::views(parts@),
            names == text::split(s@, ','),
            parse_names(names.take(i as int)) == Ok::<Set<ProviderId>, ErrorView>(set@),
        decreases parts.len() - i,
    {
        let name = text::trimmed(&parts[i]);
        assert(names.take(i + 1).drop_last() == names.take(i as int));
        proof {
            text::lemma_trim_is_trimmed(names[i as int]);
        }
        if name.len() > 0 {
            match ProviderId::from_str(text::string_of(&name).as_str()) {
                Ok(id) => {
                    set.insert(id);
                },
                Err(e) => {
                    proof {
                        lemma_parse_names_fails_early(names, i + 1);
                    }
                    return Err(e);
                },
            }
        }
        i = i + 1;
    }
    assert(names.take(names.len() as int) == names);
    Ok(set)
}

/// Renders a set as a sorted comma-separated list ("mullvad,tailscale"); the empty
/// set is "".
pub fn format_set(set: &ProviderSet) -> (res: String)
    ensures
        res@ == set_text(set@),
{
    let ids = set.to_vec();
    let mut names: Vec<String> = Vec::new();
    let mut i: usize = 0;
    while i < ids.len()
        invariant
            i <= ids.len(),
            names.len() == i,
            forall|k: int| 0 <= k < i ==> (#[trigger] names@[k])@ == id_name(ids@[k]),
        decreases ids.len() - i,
    {
        names.push(ids[i].as_str().to_string());
        i = i + 1;
    }
    assert(text::texts(names@) == ids@.map_values(|id: ProviderId| id_name(id)));
    text::joined(&names, ",")
}

/// The names of providers are plain words: not empty, and free of whitespace at the
/// ends, commas, colons, line feeds and carriage returns.
pub proof fn lemma_id_names(id: ProviderId)
    ensures
        id_name(id).len() > 0,
        text::is_trimmed(id_name(id)),
        text::lacks(id_name(id), ','),
        text::lacks(id_name(id), ':'),
        text::lacks(id_name(id), '\n'),
        id_name(id).last() != '\r',
{
    reveal_strlit("mullvad");
    reveal_strlit("tailscale");
}

/// A provider's name reads back as the provider.
pub proof fn lemma_id_reads_back(id: ProviderId)
    ensures
        parse_id(id_name(id)) == Ok::<ProviderId, ErrorView>(id),
{
    lemma_id_names(id);
    text::lemma_trim_of_trimmed(id_name(id));
    reveal_strlit("mullvad");
    reveal_strlit("tailscale");
    assert("mullvad"@.len() != "tailscale"@.len());
}

/// The text of a set, for each of its two possible members.
pub proof fn lemma_set_text(set: Set<ProviderId>)
    ensures
        set_text(set) == (if set.contains(ProviderId::Mullvad) {
            if set.contains(ProviderId::Tailscale) {
                "mullvad"@ + seq![','] + "tailscale"@
            } else {
                "mullvad"@
            }
        } else if set.contains(ProviderId::Tailscale) {
            "tailscale"@
        } else {
            seq![]
        }),
{
    lemma_ordered(set);
    reveal_strlit(",");
    assert(","@ == seq![',']);
    let names = ordered(set).map_values(|id: ProviderId| id_name(id));
    reveal_with_fuel(text::join, 3);
    if set.contains(ProviderId::Mullvad) && set.contains(ProviderId::Tailscale) {
        assert(names == seq!["mullvad"@, "tailscale"@]);
        assert(names.drop_last() == seq!["mullvad"@]);
    } else if set.contains(ProviderId::Mullvad) {
        assert(names == seq!["mullvad"@]);
    } else if set.contains(ProviderId::Tailscale) {
        assert(names == seq!["tailscale"@]);
    } else {
        assert(names == Seq::<Seq<char>>::empty());
    }
}

/// The names of two lists stand for the members of both; the first unknown name in
/// either is the error.
pub proof fn lemma_parse_names_concat(a: Seq<Seq<char>>, b: Seq<Seq<char>>)
    ensures
        parse_names(a + b) == (match parse_names(a) {
            Err(e) => Err(e),
            Ok(x) => match parse_names(b) {
                Err(e) => Err(e),
                Ok(y) => Ok(x.union(y)),
            },
        }),
    decreases b.len(),
{
    if b.len() == 0 {
        assert(a + b == a);
        if let Ok(x) = parse_names(a) {
            assert(x.union(Set::empty()) =~= x);
        }
    } else {
        lemma_parse_names_concat(a, b.drop_last());
        assert((a + b).drop_last() == a + b.drop_last());
        if let Ok(x) = parse_names(a) {
            if let Ok(y) = parse_names(b.drop_last()) {
                if let Ok(id) = parse_id(b.last()) {
                    assert(x.union(y).insert(id) =~= x.union(y.insert(id)));
                }
            }
        }
    }
}

/// A list that joins two lists with a comma stands for the members of both.
pub proof fn lemma_comma_is_union(a: Seq<char>, b: Seq<char>)
    ensures
        set_of(a + seq![','] + b) == (match set_of(a) {
            Err(e) => Err(e),
            Ok(x) => match set_of(b) {
                Err(e) => Err(e),
                Ok(y) => Ok(x.union(y)),
            },
        }),
{
    text::lemma_split_concat(a, ',', b);
    lemma_parse_names_concat(text::split(a, ','), text::split(b, ','));
}

/// The text of a set that is not empty is not empty either, and has no whitespace at its
/// ends and no line feed.
pub proof fn lemma_set_text_is_plain(set: Set<ProviderId>)
    ensures
        set != Set::<ProviderId>::empty() ==> set_text(set).len() > 0,
        text::is_trimmed(set_text(set)),
        text::lacks(set_text(set), '\n'),
{
    lemma_set_text(set);
    reveal_strlit("mullvad");
    reveal_strlit("tailscale");
    if set_text(set).len() == 0 {
        assert(set =~= Set::<ProviderId>::empty());
    }
}

/// A single name stands for the set of that provider alone.
proof fn lemma_one_name(id: ProviderId)
    ensures
        set_of(id_name(id)) == Ok::<Set<ProviderId>, ErrorView>(Set::empty().insert(id)),
{
    let name = id_name(id);
    lemma_id_names(id);
    lemma_id_reads_back(id);
    text::lemma_trim_of_trimmed(name);
    text::lemma_split_single(name, ',');
    let names = text::split(name, ',');
    assert(names.drop_last() == Seq::<Seq<char>>::empty());
    assert(parse_names(names.drop_last()) == Ok::<Set<ProviderId>, ErrorView>(Set::empty()));
}

/// A set's text reads back as the set.
pub proof fn lemma_set_reads_back(set: Set<ProviderId>)
    ensures
        set_of(set_text(set)) == Ok::<Set<ProviderId>, ErrorView>(set),
{
    lemma_set_text(set);
    lemma_one_name(ProviderId::Mullvad);
    lemma_one_name(ProviderId::Tailscale);
    lemma_comma_is_union("mullvad"@, "tailscale"@);
    let none = Set::<ProviderId>::empty();
    if set.contains(ProviderId::Mullvad) {
        if set.contains(ProviderId::Tailscale) {
            assert(none.insert(ProviderId::Mullvad).union(none.insert(ProviderId::Tailscale))
                =~= set);
        } else {
            assert(none.insert(ProviderId::Mullvad) =~= set);
        }
    } else if set.contains(ProviderId::Tailscale) {
        assert(none.insert(ProviderId::Tailscale) =~= set);
    } else {
        let empty = Seq::<char>::empty();
        text::lemma_split_single(empty, ',');
        let names = text::split(empty, ',');
        assert(names.drop_last() == Seq::<Seq<char>>::empty());
        assert(parse_names(names.drop_last()) == Ok::<Set<ProviderId>, ErrorView>(none));
        assert(none =~= set);
    }
}

/// The providers are called "mullvad" and "tailscale", and in text they come in that order
/// with a comma between them.
pub proof fn lemma_names_in_text()
    ensures
        id_name(ProviderId::Mullvad) == "mullvad"@,
        id_name(ProviderId::Tailscale) == "tailscale"@,
        set_text(Set::<ProviderId>::empty()) == Seq::<char>::empty(),
        set_text(set![ProviderId::Mullvad]) == "mullvad"@,
        set_text(set![ProviderId::Tailscale]) == "tailscale"@,
        set_text(set![ProviderId::Mullvad, ProviderId::Tailscale]) == "mullvad,tailscale"@,
{
    reveal_strlit("mullvad");
    reveal_strlit("tailscale");
    reveal_strlit(",");
    reveal_strlit("mullvad,tailscale");
    lemma_set_text(Set::<ProviderId>::empty());
    lemma_set_text(set![ProviderId::Mullvad]);
    lemma_set_text(set![ProviderId::Tailscale]);
    lemma_set_text(set![ProviderId::Mullvad, ProviderId::Tailscale]);
    assert("mullvad,tailscale"@ == "mullvad"@ + seq![','] + "tailscale"@);
}

/// Whether a piece of a list, blanks aside, is neither empty nor a known name.
pub open spec fn is_stranger(piece: Seq<char>) -> bool {
    let name = text::trim(piece);
    name.len() > 0 && name != "mullvad"@ && name != "tailscale"@
}

proof fn lemma_parse_names_members(names: Seq<Seq<char>>)
    ensures
        match parse_names(names) {
            Ok(set) => {
                &&& forall|i: int| 0 <= i < names.len() ==> !is_stranger(#[trigger] names[i])
                &&& set.contains(ProviderId::Mullvad) <==> exists|i: int|
                    0 <= i < names.len() && text::trim(#[trigger] names[i]) == "mullvad"@
                &&& set.contains(ProviderId::Tailscale) <==> exists|i: int|
                    0 <= i < names.len() && text::trim(#[trigger] names[i]) == "tailscale"@
            },
            Err(e) => exists|i: int|
                {
                    &&& 0 <= i < names.len()
                    &&& is_stranger(#[trigger] names[i])
                    &&& e == ErrorView::UnknownProvider(text::trim(names[i]))
                    &&& forall|k: int| 0 <= k < i ==> !is_stranger(#[trigger] names[k])
                },
        },
    decreases names.len(),
{
    reveal_strlit("mullvad");
    reveal_strlit("tailscale");
    assert("mullvad"@.len() == 7 && "tailscale"@.len() == 9);
    if names.len() > 0 {
        let init = names.drop_last();
        let last = names.last();
        let n = names.len() - 1;
        lemma_parse_names_members(init);
        assert(names[n] == last);
        assert forall|i: int| 0 <= i < n implies names[i] == init[i] by {}
        match parse_names(init) {
            Err(e) => {
                let i = choose|i: int|
                    {
                        &&& 0 <= i < init.len()
                        &&& is_stranger(#[trigger] init[i])
                        &&& e == ErrorView::UnknownProvider(text::trim(init[i]))
                        &&& forall|k: int| 0 <= k < i ==> !is_stranger(#[trigger] init[k])
                    };
                assert(is_stranger(names[i]));
                assert forall|k: int| 0 <= k < i implies !is_stranger(#[trigger] names[k]) by {
                    assert(names[k] == init[k]);
                }
            },
            Ok(set) => {
                assert forall|i: int| 0 <= i < n implies !is_stranger(#[trigger] names[i]) by {
                    assert(names[i] == init[i]);
                }
                let m = "mullvad"@;
                let t = "tailscale"@;
                if exists|i: int| 0 <= i < init.len() && text::trim(#[trigger] init[i]) == m {
                    let i = choose|i: int| 0 <= i < init.len() && text::trim(#[trigger] init[i]) == m;
                    assert(text::trim(names[i]) == m);
                }
                if exists|i: int| 0 <= i < init.len() && text::trim(#[trigger] init[i]) == t {
                    let i = choose|i: int| 0 <= i < init.len() && text::trim(#[trigger] init[i]) == t;
                    assert(text::trim(names[i]) == t);
                }
                if exists|i: int| 0 <= i < names.len() && text::trim(#[trigger] names[i]) == m {
                    let i = choose|i: int|
                        0 <= i < names.len() && text::trim(#[trigger] names[i]) == m;
                    if i < n {
                        assert(text::trim(init[i]) == m);
                    }
                }
                if exists|i: int| 0 <= i < names.len() && text::trim(#[trigger] names[i]) == t {
                    let i = choose|i: int|
                        0 <= i < names.len() && text::trim(#[trigger] names[i]) == t;
                    if i < n {
                        assert(text::trim(init[i]) == t);
                    }
                }
            },
        }
    }
}

/// A list stands for exactly the providers that are named in it between commas, blanks
/// aside; the first thing in it that is no name is the error.
pub proof fn lemma_list_members(s: Seq<char>)
    ensures
        match set_of(s) {
            Ok(set) => {
                let pieces = text::split(s, ',');
                &&& forall|i: int| 0 <= i < pieces.len() ==> !is_stranger(#[trigger] pieces[i])
                &&& set.contains(ProviderId::Mullvad) <==> exists|i: int|
                    0 <= i < pieces.len() && text::trim(#[trigger] pieces[i]) == "mullvad"@
                &&& set.contains(ProviderId::Tailscale) <==> exists|i: int|
                    0 <= i < pieces.len() && text::trim(#[trigger] pieces[i]) == "tailscale"@
            },
            Err(e) => {
                let pieces = text::split(s, ',');
                exists|i: int|
                    {
                        &&& 0 <= i < pieces.len()
                        &&& is_stranger(#[trigger] pieces[i])
                        &&& e == ErrorView::UnknownProvider(text::trim(pieces[i]))
                        &&& forall|k: int| 0 <= k < i ==> !is_stranger(#[trigger] pieces[k])
                    }
            },
        },
{
    lemma_parse_names_members(text::split(s, ','));
}

/// A name stands for a provider exactly where it is the provider's, blanks aside.
pub proof fn lemma_names_of_providers(s: Seq<char>)
    ensures
        parse_id(s) == Ok::<ProviderId, ErrorView>(ProviderId::Mullvad) <==> text::trim(s)
            == "mullvad"@,
        parse_id(s) == Ok::<ProviderId, ErrorView>(ProviderId::Tailscale) <==> text::trim(s)
            == "tailscale"@,
        parse_id(s) matches Err(e) ==> e == ErrorView::UnknownProvider(text::trim(s)),
{
    reveal_strlit("mullvad");
    reveal_strlit("tailscale");
    assert("mullvad"@.len() != "tailscale"@.len());
}

/// The registry's providers drive the programs that they were given.
pub proof fn lemma_providers_drive_their_programs(
    p: AnyProvider,
    id: ProviderId,
    mullvad_bin: Seq<char>,
    tailscale_bin: Seq<char>,
    nft: Seq<char>,
)
    requires
        is_provider(p, id, mullvad_bin, tailscale_bin, nft),
    ensures
        id == ProviderId::Mullvad ==> p is Mullvad && p->Mullvad_0.bin@ == mullvad_bin
            && p->Mullvad_0.nft@ == nft,
        id == ProviderId::Tailscale ==> p is Tailscale && p->Tailscale_0.bin@ == tailscale_bin,
        every_id() == seq![ProviderId::Mullvad, ProviderId::Tailscale],
{
}

} // verus!
