//! Log levels and lines.

use crate::dns;
use crate::number;
use crate::text;
use vstd::prelude::*;

verus! {

pub const ERROR: u8 = 0;

pub const INFO: u8 = 1;

pub const DEBUG: u8 = 2;

/// The level that a name asks for.
pub open spec fn named_level(name: Option<Seq<char>>) -> u8 {
    if name == Some("error"@) {
        ERROR
    } else if name == Some("debug"@) {
        DEBUG
    } else {
        INFO
    }
}

/// The level that the value of `VPNMUX_LOG` asks for: "error", "debug", and "info" for
/// anything else and for none.
pub fn level_of(value: Option<&str>) -> (res: u8)
    ensures
        res == named_level(dns::view_of(value)),
        res == match value {
            Some(v) => if v@ == "error"@ {
                ERROR
            } else if v@ == "debug"@ {
                DEBUG
            } else {
                INFO
            },
            None => INFO,
        },
{
    proof {
        reveal_strlit("error");
        reveal_strlit("debug");
        assert("error"@[0] != "debug"@[0]);
    }
    match value {
        Some(v) => {
            let v = text::chars_of(v);
            if text::is(&v, "error") {
                ERROR
            } else if text::is(&v, "debug") {
                DEBUG
            } else {
                INFO
            }
        },
        None => INFO,
    }
}

/// Whether a level is no wordier than the one that was asked for.
pub open spec fn is_enabled(level: u8, asked: u8) -> bool {
    level <= asked
}

/// Whether lines of a level are logged where the given level was asked for.
pub fn enabled(level: u8, asked: u8) -> (res: bool)
    ensures
        res == is_enabled(level, asked),
        res == (level <= asked),
{
    level <= asked
}

/// A line for the log.
#[derive(Debug, Clone, PartialEq)]
pub struct Line {
    pub level: u8,
    pub text: String,
}

pub struct LineView {
    pub level: u8,
    pub text: Seq<char>,
}

impl View for Line {
    type V = LineView;

    open spec fn view(&self) -> LineView {
        LineView { level: self.level, text: self.text@ }
    }
}

pub open spec fn lines(v: Seq<Line>) -> Seq<LineView> {
    v.map_values(|l: Line| l@)
}

pub open spec fn tag(level: u8) -> Seq<char> {
    if level == ERROR {
        "ERROR"@
    } else if level == INFO {
        "INFO"@
    } else {
        "DEBUG"@
    }
}

/// A line with its time and its tag in front.
pub open spec fn stamped_text(seconds: u64, level: u8, message: Seq<char>) -> Seq<char> {
    seq!['['] + number::decimal(seconds as nat) + "] "@ + tag(level) + " vpnmux: "@ + message
}

/// A log line as it is printed at a time in seconds.
pub fn stamped(seconds: u64, level: u8, message: &str) -> (res: String)
    ensures
        res@ == stamped_text(seconds, level, message@),
        res@ == seq!['['] + number::decimal(seconds as nat) + "] "@ + tag(level) + " vpnmux: "@
            + message@,
{
    let mut out = String::new();
    out.push('[');
    assert(out@ == seq!['[']);
    out.append(number::decimal_of(seconds as u128).as_str());
    out.append("] ");
    out.append(
        if level == ERROR {
            "ERROR"
        } else if level == INFO {
            "INFO"
        } else {
            "DEBUG"
        },
    );
    out.append(" vpnmux: ");
    out.append(message);
    out
}

/// The levels are in order, so that a level is logged wherever a wordier one was asked for,
/// and each has a tag of its own.
pub proof fn lemma_levels()
    ensures
        ERROR < INFO < DEBUG,
        tag(ERROR) == "ERROR"@,
        tag(INFO) == "INFO"@,
        tag(DEBUG) == "DEBUG"@,
        forall|level: u8| level > DEBUG ==> #[trigger] tag(level) == "DEBUG"@,
{
}

/// Two names ask for a level of their own; every other name, and none, asks for the one
/// between them. Errors are always logged; what is logged stays so where more is asked for.
pub proof fn lemma_levels_asked_for(name: Seq<char>, level: u8, asked: u8, more: u8)
    ensures
        named_level(Some("error"@)) == ERROR,
        named_level(Some("debug"@)) == DEBUG,
        named_level(None) == INFO,
        name != "error"@ && name != "debug"@ ==> named_level(Some(name)) == INFO,
        is_enabled(ERROR, asked),
        is_enabled(level, level),
        !is_enabled(INFO, ERROR),
        !is_enabled(DEBUG, INFO),
        is_enabled(level, asked) && asked <= more ==> is_enabled(level, more),
        asked < level ==> !is_enabled(level, asked),
{
    reveal_strlit("error");
    reveal_strlit("debug");
    assert("error"@[0] != "debug"@[0]);
}

/// A printed line, word for word.
pub proof fn lemma_stamp_word_for_word(seconds: u64, message: Seq<char>)
    ensures
        stamped_text(seconds, ERROR, message) == "["@ + number::decimal(seconds as nat)
            + "] ERROR vpnmux: "@ + message,
        stamped_text(seconds, INFO, message) == "["@ + number::decimal(seconds as nat)
            + "] INFO vpnmux: "@ + message,
        stamped_text(seconds, DEBUG, message) == "["@ + number::decimal(seconds as nat)
            + "] DEBUG vpnmux: "@ + message,
{
    reveal_strlit("[");
    reveal_strlit("] ");
    reveal_strlit("ERROR");
    reveal_strlit("INFO");
    reveal_strlit("DEBUG");
    reveal_strlit(" vpnmux: ");
    reveal_strlit("] ERROR vpnmux: ");
    reveal_strlit("] INFO vpnmux: ");
    reveal_strlit("] DEBUG vpnmux: ");
    assert("["@ == seq!['[']);
    assert("] "@ + "ERROR"@ + " vpnmux: "@ == "] ERROR vpnmux: "@);
    assert("] "@ + "INFO"@ + " vpnmux: "@ == "] INFO vpnmux: "@);
    assert("] "@ + "DEBUG"@ + " vpnmux: "@ == "] DEBUG vpnmux: "@);
}

} // verus!
