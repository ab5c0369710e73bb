//! The group database.

use crate::number;
use crate::text;
use vstd::prelude::*;

verus! {

/// The group id in a line of the group database, which reads `name:password:id:members`.
pub open spec fn line_gid(line: Seq<char>) -> Option<u32> {
    let fields = text::split(line, ':');
    if fields.len() < 3 {
        None
    } else {
        match number::parse_unsigned(fields[2], 10, u32::MAX as nat) {
            Some(n) => Some(n as u32),
            None => None,
        }
    }
}

/// The group id in the first line that has the name.
pub open spec fn gid_in(lines: Seq<Seq<char>>, group: Seq<char>) -> Option<u32>
    decreases lines.len(),
{
    if lines.len() == 0 {
        None
    } else if text::split(lines[0], ':')[0] == group {
        line_gid(lines[0])
    } else {
        gid_in(lines.drop_first(), group)
    }
}

/// Looks up a group id by name in the text of the group database. `None` where no line
/// has the name, and where the first that has it holds no group id.
pub fn lookup_gid(database: &str, group: &str) -> (res: Option<u32>)
    ensures
        res == gid_in(text::lines(database@), group@),
{
    let lines = text::lines_of(&text::chars_of(database));
    let ghost all = text::views(lines@);
    let mut i: usize = 0;
    assert(all.skip(0) == all);
    while i < lines.len()
        invariant
            i <= lines.len(),
            all == text::views(lines@),
            all == text::lines(database@),
            gid_in(all, group@) == gid_in(all.skip(i as int), group@),
        decreases lines.len() - i,
    {
        proof {
            assert(all[i as int] == lines@[i as int]@);
            assert(all.skip(i as int).drop_first() == all.skip(i + 1));
            text::lemma_split_not_empty(all[i as int], ':');
        }
        let fields = text::pieces(&lines[i], ':');
        assert(text::views(fields@).len() == fields@.len());
        assert(text::views(fields@)[0] == fields@[0]@);
        if text::is(&fields[0], group) {
            if fields.len() < 3 {
                return None;
            }
            assert(text::views(fields@)[2] == fields@[2]@);
            return match number::parsed_unsigned(&fields[2], 10, u32::MAX as u64) {
                Some(n) => Some(n as u32),
                None => None,
            };
        }
        i = i + 1;
    }
    None
}

/// A group is looked up line by line: a line of another name is passed over, and the first
/// line of the name decides, by the third of its fields, which are parted by colons.
pub proof fn lemma_lookup_line_by_line(
    name: Seq<char>,
    password: Seq<char>,
    id: Seq<char>,
    more: Seq<char>,
    rest: Seq<Seq<char>>,
    group: Seq<char>,
)
    requires
        text::lacks(name, ':'),
        text::lacks(password, ':'),
        text::lacks(id, ':'),
    ensures
        gid_in(Seq::<Seq<char>>::empty(), group) is None,
        ({
            let short = name + seq![':'] + password + seq![':'] + id;
            let line = short + seq![':'] + more;
            let found = match number::parse_unsigned(id, 10, 0xffff_ffff) {
                Some(n) => Some(n as u32),
                None => None,
            };
            &&& name == group ==> gid_in(seq![line] + rest, group) == found
            &&& name == group ==> gid_in(seq![short] + rest, group) == found
            &&& name == group ==> gid_in(seq![name + seq![':'] + password] + rest, group) is None
            &&& name == group ==> gid_in(seq![name] + rest, group) is None
            &&& name != group ==> gid_in(seq![line] + rest, group) == gid_in(rest, group)
            &&& name != group ==> gid_in(seq![short] + rest, group) == gid_in(rest, group)
            &&& name != group ==> gid_in(seq![name + seq![':'] + password] + rest, group) == gid_in(
                rest,
                group,
            )
            &&& name != group ==> gid_in(seq![name] + rest, group) == gid_in(rest, group)
        }),
{
    let two = name + seq![':'] + password;
    let short = two + seq![':'] + id;
    let line = short + seq![':'] + more;
    text::lemma_split_single(name, ':');
    text::lemma_split_single(password, ':');
    text::lemma_split_single(id, ':');
    text::lemma_split_concat(name, ':', password);
    text::lemma_split_concat(two, ':', id);
    text::lemma_split_concat(short, ':', more);
    lemma_first_line(name, rest, group);
    lemma_first_line(two, rest, group);
    lemma_first_line(short, rest, group);
    lemma_first_line(line, rest, group);
}

proof fn lemma_first_line(line: Seq<char>, rest: Seq<Seq<char>>, group: Seq<char>)
    ensures
        gid_in(seq![line] + rest, group) == (if text::split(line, ':')[0] == group {
            line_gid(line)
        } else {
            gid_in(rest, group)
        }),
{
    assert((seq![line] + rest)[0] == line);
    assert((seq![line] + rest).drop_first() == rest);
}

} // verus!
