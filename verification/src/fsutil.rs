//! Files to be written.

use crate::number;
use crate::text;
use vstd::prelude::*;

verus! {

/// A file that is to be replaced as a whole: its path, what it shall hold, and its
/// permission bits.
#[derive(Debug, Clone, PartialEq)]
pub struct FileWrite {
    pub path: String,
    pub contents: String,
    pub mode: u32,
}

pub struct FileWriteView {
    pub path: Seq<char>,
    pub contents: Seq<char>,
    pub mode: u32,
}

impl View for FileWrite {
    type V = FileWriteView;

    open spec fn view(&self) -> FileWriteView {
        FileWriteView { path: self.path@, contents: self.contents@, mode: self.mode }
    }
}

/// The name of a temporary file.
pub open spec fn temp_file_name(pid: nat, nanos: nat, seq: nat) -> Seq<char> {
    ".vpnmux.tmp."@ + number::decimal(pid) + seq!['.'] + number::decimal(nanos) + seq!['.']
        + number::decimal(seq)
}

/// The name of the temporary file that takes new contents before it is renamed into
/// place: made of the process id, the time and a running number.
pub fn temp_name(pid: u32, nanos: u128, seq: u64) -> (res: String)
    ensures
        res@ == temp_file_name(pid as nat, nanos as nat, seq as nat),
{
    let mut out = ".vpnmux.tmp.".to_string();
    out.append(number::decimal_of(pid as u128).as_str());
    out.push('.');
    out.append(number::decimal_of(nanos).as_str());
    out.push('.');
    out.append(number::decimal_of(seq as u128).as_str());
    assert(out@ == temp_file_name(pid as nat, nanos as nat, seq as nat));
    out
}

/// The pieces of a temporary file's name.
proof fn lemma_temp_name_pieces(pid: nat, nanos: nat, seq: nat)
    ensures
        text::split(temp_file_name(pid, nanos, seq), '.') == text::split(".vpnmux.tmp"@, '.')
            + seq![number::decimal(pid), number::decimal(nanos), number::decimal(seq)],
{
    let head = ".vpnmux.tmp"@;
    let a = number::decimal(pid);
    let b = number::decimal(nanos);
    let c = number::decimal(seq);
    reveal_strlit(".vpnmux.tmp");
    reveal_strlit(".vpnmux.tmp.");
    assert(".vpnmux.tmp."@ == head + seq!['.']);
    number::lemma_decimal(pid);
    number::lemma_decimal(nanos);
    number::lemma_decimal(seq);
    text::lemma_split_single(a, '.');
    text::lemma_split_single(b, '.');
    text::lemma_split_single(c, '.');
    text::lemma_split_concat(head, '.', a);
    text::lemma_split_concat(head + seq!['.'] + a, '.', b);
    text::lemma_split_concat(head + seq!['.'] + a + seq!['.'] + b, '.', c);
    assert(temp_file_name(pid, nanos, seq) == head + seq!['.'] + a + seq!['.'] + b + seq!['.'] + c);
    assert(text::split(temp_file_name(pid, nanos, seq), '.') == text::split(head, '.') + seq![
        a,
        b,
        c,
    ]);
}

/// Temporary files made at different times, by different processes or with different
/// running numbers never share a name.
pub proof fn lemma_temp_names_differ(
    pid: nat,
    nanos: nat,
    seq: nat,
    other_pid: nat,
    other_nanos: nat,
    other_seq: nat,
)
    requires
        pid != other_pid || nanos != other_nanos || seq != other_seq,
    ensures
        temp_file_name(pid, nanos, seq) != temp_file_name(other_pid, other_nanos, other_seq),
{
    lemma_temp_name_pieces(pid, nanos, seq);
    lemma_temp_name_pieces(other_pid, other_nanos, other_seq);
    if temp_file_name(pid, nanos, seq) == temp_file_name(other_pid, other_nanos, other_seq) {
        let n = text::split(".vpnmux.tmp"@, '.').len() as int;
        let x = text::split(temp_file_name(pid, nanos, seq), '.');
        let y = text::split(temp_file_name(other_pid, other_nanos, other_seq), '.');
        assert(x[n] == y[n]);
        assert(x[n + 1] == y[n + 1]);
        assert(x[n + 2] == y[n + 2]);
        number::lemma_decimal_is_injective(pid, other_pid);
        number::lemma_decimal_is_injective(nanos, other_nanos);
        number::lemma_decimal_is_injective(seq, other_seq);
    }
}

/// A temporary file's name is a hidden one that begins with ".vpnmux.tmp." and goes on with
/// the process id, the time and the running number, dots between them.
pub proof fn lemma_temp_name_word_for_word(pid: nat, nanos: nat, seq: nat)
    ensures
        temp_file_name(pid, nanos, seq) == ".vpnmux.tmp."@ + number::decimal(pid) + "."@
            + number::decimal(nanos) + "."@ + number::decimal(seq),
{
    reveal_strlit(".");
    assert("."@ == seq!['.']);
}

} // verus!
