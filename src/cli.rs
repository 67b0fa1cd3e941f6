use crate::cluster::opt_view;
use crate::text::{chars_of, parse_decimal, parse_unsigned, str_eq, string_of};
use crate::{parse_filter_op, parse_qualifier, ConfigType, FilterOp, FilterType, Qualifier};
use vstd::prelude::*;

verus! {

/// A command of the interactive session.
#[derive(Debug, Clone, Copy, PartialEq, Eq, Structural)]
pub enum CliCmd {
    ClusterID,
    Event(FilterType, FilterOp),
    Exit,
    Filter(FilterType, FilterOp),
    GoNext,
    GoPrev,
    Help,
    Jump,
    QuitProgram,
    Save(bool),
    SetConfig(ConfigType),
    SetQualifier(bool),
    Status,
    Undefined,
}

/// The cursor after a next or previous command: one step forward, or back
/// with a stop at the first position, the directions swapped in reverse mode;
/// the first position where there is no cursor yet. A step forward from the
/// largest position stays there.
pub open spec fn goto_spec(cmd: CliCmd, ticks: Option<usize>, reverse: bool) -> int {
    match ticks {
        None => 0,
        Some(v) => if (cmd == CliCmd::GoNext && !reverse) || (cmd == CliCmd::GoPrev && reverse) {
            if v < usize::MAX {
                v + 1
            } else {
                v as int
            }
        } else if v == 0 {
            0
        } else {
            v - 1
        },
    }
}

/// Moves the cursor for a next or previous command.
pub fn do_goto(cmd: CliCmd, ticks: Option<usize>, reverse: bool) -> (r: usize)
    ensures
        r == goto_spec(cmd, ticks, reverse),
{
    match ticks {
        Some(v) => {
            if (cmd == CliCmd::GoNext && !reverse) || (cmd == CliCmd::GoPrev && reverse) {
                if v < usize::MAX {
                    v + 1
                } else {
                    v
                }
            } else if v == 0 {
                0
            } else {
                v - 1
            }
        },
        None => 0,
    }
}

/// The cursor within a visible list of `limit` clusters: the first position
/// where there is none, the last one where it is past the end.
pub fn clamp_cursor(ticks: Option<usize>, limit: usize) -> (r: usize)
    ensures
        limit > 0 ==> r < limit,
        match ticks {
            None => r == 0,
            Some(v) => if v < limit {
                r == v
            } else if limit > 0 {
                r == limit - 1
            } else {
                r == 0
            },
        },
{
    match ticks {
        None => 0,
        Some(v) => {
            if v < limit {
                v
            } else if limit > 0 {
                limit - 1
            } else {
                0
            }
        },
    }
}

} // verus!

verus! {

/// Whether `c` has the Unicode White_Space property, as `char::is_whitespace`
/// answers.
pub open spec fn whitespace_of(c: char) -> bool {
    let u = c as u32;
    (0x9 <= u && u <= 0xd) || u == 0x20 || u == 0x85 || u == 0xa0 || u == 0x1680 || (0x2000 <= u
        && u <= 0x200a) || u == 0x2028 || u == 0x2029 || u == 0x202f || u == 0x205f || u == 0x3000
}

/// Whether `c` is white space.
pub fn is_whitespace(c: char) -> (r: bool)
    ensures
        r == whitespace_of(c),
{
    let u = c as u32;
    (0x9 <= u && u <= 0xd) || u == 0x20 || u == 0x85 || u == 0xa0 || u == 0x1680 || (0x2000 <= u
        && u <= 0x200a) || u == 0x2028 || u == 0x2029 || u == 0x202f || u == 0x205f || u == 0x3000
}

/// `s` without leading whitespace.
pub open spec fn trim_start(s: Seq<char>) -> Seq<char>
    decreases s.len(),
{
    if s.len() > 0 && whitespace_of(s[0]) {
        trim_start(s.drop_first())
    } else {
        s
    }
}

/// `s` without trailing whitespace.
pub open spec fn trim_end(s: Seq<char>) -> Seq<char>
    decreases s.len(),
{
    if s.len() > 0 && whitespace_of(s.last()) {
        trim_end(s.drop_last())
    } else {
        s
    }
}

/// `s` without leading or trailing whitespace.
pub open spec fn trimmed(s: Seq<char>) -> Seq<char> {
    trim_end(trim_start(s))
}

/// The maximal runs of non-whitespace characters of `s`, left to right.
pub open spec fn words(s: Seq<char>) -> Seq<Seq<char>>
    decreases s.len(),
{
    if s.len() == 0 {
        Seq::empty()
    } else {
        let r = words(s.drop_last());
        let c = s.last();
        if whitespace_of(c) {
            r
        } else if s.len() >= 2 && !whitespace_of(s[s.len() - 2]) {
            r.update(r.len() - 1, r.last().push(c))
        } else {
            r.push(seq![c])
        }
    }
}

/// The words joined with single spaces.
pub open spec fn joined(ws: Seq<Seq<char>>) -> Seq<char>
    decreases ws.len(),
{
    if ws.len() == 0 {
        Seq::empty()
    } else if ws.len() == 1 {
        ws[0]
    } else {
        joined(ws.drop_last()) + seq![' '] + ws.last()
    }
}

/// The words of a command line, where words past the third are joined into
/// one fourth argument.
pub open spec fn command_words(line: Seq<char>) -> Seq<Seq<char>> {
    let ws = words(line);
    if ws.len() > 4 {
        ws.take(3).push(joined(ws.skip(3)))
    } else {
        ws
    }
}

pub open spec fn is_qualifier_name(s: Seq<char>) -> bool {
    s == "benign"@ || s == "mixed"@ || s == "suspicious"@ || s == "unknown"@
}

/// The command that `/set x y` gives.
pub open spec fn set_command(x: Seq<char>, y: Seq<char>) -> (CliCmd, Option<Seq<char>>) {
    let known = y == "on"@ || y == "off"@ || y == "all"@ || parse_unsigned(y, usize::MAX as nat) is Some;
    let all = y == "all"@;
    let on = y == "on"@;
    let count: usize = if y == "on"@ || y == "off"@ || y == "all"@ {
        0
    } else {
        match parse_unsigned(y, usize::MAX as nat) {
            Some(n) => n as usize,
            None => 0,
        }
    };
    if !known {
        (CliCmd::Undefined, None)
    } else if is_qualifier_name(x) {
        (CliCmd::SetQualifier(all), Some(x))
    } else if x == "reverse"@ {
        (CliCmd::SetConfig(ConfigType::Reverse(on)), None)
    } else if x == "samples"@ {
        (CliCmd::SetConfig(ConfigType::Samples(on)), None)
    } else if x == "samplescount"@ {
        (CliCmd::SetConfig(ConfigType::SamplesCount(count)), None)
    } else if x == "signature"@ {
        (CliCmd::SetConfig(ConfigType::Signature(on)), None)
    } else if x == "tokens"@ {
        (CliCmd::SetConfig(ConfigType::Tokens(on)), None)
    } else {
        (CliCmd::Undefined, None)
    }
}

/// The command that a list of words gives.
pub open spec fn words_command(ls: Seq<Seq<char>>) -> (CliCmd, Option<Seq<char>>) {
    let undefined = (CliCmd::Undefined, None::<Seq<char>>);
    if ls.len() == 1 {
        let a = ls[0];
        if a == "/h"@ || a == "/help"@ || a == "/?"@ {
            (CliCmd::Help, None)
        } else if a == "/q"@ || a == "/quit"@ {
            (CliCmd::QuitProgram, None)
        } else if a == "/save"@ {
            (CliCmd::Save(false), None)
        } else if a == "/status"@ {
            (CliCmd::Status, None)
        } else if a == "/x"@ {
            (CliCmd::Exit, None)
        } else {
            undefined
        }
    } else if ls.len() == 2 {
        let (a, b) = (ls[0], ls[1]);
        if a == "/event"@ && b == "clear"@ {
            (CliCmd::Event(FilterType::NoFilter, FilterOp::EQ), None)
        } else if a == "/filter"@ && b == "label"@ {
            (CliCmd::Filter(FilterType::Label, FilterOp::EQ), None)
        } else if a == "/save"@ && b == "force"@ {
            (CliCmd::Save(true), None)
        } else if a == "/set"@ && is_qualifier_name(b) {
            (CliCmd::SetQualifier(false), Some(b))
        } else {
            undefined
        }
    } else if ls.len() == 3 {
        let (a, b, x) = (ls[0], ls[1], ls[2]);
        if a == "/event"@ && b == "regex"@ {
            (CliCmd::Event(FilterType::Regex, FilterOp::EQ), Some(x))
        } else if a == "/filter"@ && b == "label"@ {
            (CliCmd::Filter(FilterType::Label, FilterOp::EQ), Some(x))
        } else if a == "/filter"@ && b == "qualifier"@ {
            if parse_qualifier(x) is Some {
                (CliCmd::Filter(FilterType::Qualifier, FilterOp::EQ), Some(x))
            } else {
                undefined
            }
        } else if a == "/filter"@ && b == "regex"@ {
            (CliCmd::Filter(FilterType::Regex, FilterOp::EQ), Some(x))
        } else if a == "/set"@ {
            set_command(b, x)
        } else {
            undefined
        }
    } else if ls.len() == 4 {
        let (a, b, x, y) = (ls[0], ls[1], ls[2], ls[3]);
        if a == "/filter"@ && b == "count"@ {
            match parse_filter_op(x) {
                Some(op) => if parse_unsigned(y, usize::MAX as nat) is Some {
                    (CliCmd::Filter(FilterType::Count, op), Some(y))
                } else {
                    undefined
                },
                None => undefined,
            }
        } else if a == "/filter"@ && b == "score"@ {
            match parse_filter_op(x) {
                Some(op) => (CliCmd::Filter(FilterType::Score, op), Some(y)),
                None => undefined,
            }
        } else {
            undefined
        }
    } else {
        undefined
    }
}

/// The command that an input line gives: an empty line goes to the next
/// cluster, `b`/`p` to the previous one, `h`/`?` asks for help, a number jumps
/// to a position, `#` and a number names a cluster; anything else is read as
/// words.
pub open spec fn command_of(input: Seq<char>) -> (CliCmd, Option<Seq<char>>) {
    let line = trimmed(input);
    if line.len() == 0 {
        (CliCmd::GoNext, None)
    } else if line == "b"@ || line == "p"@ {
        (CliCmd::GoPrev, None)
    } else if line == "h"@ || line == "?"@ {
        (CliCmd::Help, None)
    } else if parse_unsigned(line, usize::MAX as nat) is Some {
        (CliCmd::Jump, Some(line))
    } else if line[0] == '#' && parse_unsigned(line.drop_first(), usize::MAX as nat) is Some {
        (CliCmd::ClusterID, Some(line.drop_first()))
    } else {
        words_command(command_words(line))
    }
}

} // verus!

verus! {

/// Whether the characters of `v` are those of `lit`.
fn chars_eq(v: &Vec<char>, lit: &str) -> (r: bool)
    ensures
        r == (v@ == lit@),
{
    let s = string_of(v.as_slice());
    str_eq(s.as_str(), lit)
}

/// `cs` without leading or trailing whitespace.
fn trim_chars(cs: &Vec<char>) -> (r: Vec<char>)
    ensures
        r@ == trimmed(cs@),
{
    let n = cs.len();
    let mut b: usize = 0;
    assert(cs@.skip(0) =~= cs@);
    while b < n && is_whitespace(cs[b])
        invariant
            n == cs@.len(),
            b <= n,
            trim_start(cs@) == trim_start(cs@.skip(b as int)),
        decreases n - b,
    {
        proof {
            assert(cs@.skip(b as int).drop_first() =~= cs@.skip(b + 1));
        }
        b = b + 1;
    }
    let ghost t = cs@.skip(b as int);
    proof {
        if b == n {
            assert(t.len() == 0);
        } else {
            assert(t[0] == cs@[b as int]);
        }
        assert(trim_start(cs@) == t);
    }
    let mut e: usize = n;
    while e > b && is_whitespace(cs[e - 1])
        invariant
            n == cs@.len(),
            b <= e <= n,
            t == cs@.skip(b as int),
            trim_end(t) == trim_end(cs@.subrange(b as int, e as int)),
        decreases e - b,
    {
        proof {
            assert(cs@.subrange(b as int, e as int).drop_last() =~= cs@.subrange(
                b as int,
                e - 1,
            ));
            assert(cs@.subrange(b as int, e as int).last() == cs@[e - 1]);
        }
        e = e - 1;
    }
    proof {
        assert(cs@.subrange(b as int, n as int) =~= t);
        let u = cs@.subrange(b as int, e as int);
        if e > b {
            assert(u.last() == cs@[e - 1]);
        }
        assert(trim_end(u) == u);
    }
    let mut r: Vec<char> = Vec::new();
    let mut i: usize = b;
    while i < e
        invariant
            b <= i <= e,
            e <= cs@.len(),
            r@ == cs@.subrange(b as int, i as int),
        decreases e - i,
    {
        r.push(cs[i]);
        proof {
            assert(r@ =~= cs@.subrange(b as int, i + 1));
        }
        i = i + 1;
    }
    r
}

/// The whitespace-separated words of `cs`.
fn split_words(cs: &Vec<char>) -> (r: Vec<Vec<char>>)
    ensures
        r@.map_values(|w: Vec<char>| w@) == words(cs@),
{
    let mut out: Vec<Vec<char>> = Vec::new();
    let mut cur: Vec<char> = Vec::new();
    let ghost mut done: Seq<Seq<char>> = Seq::empty();
    let mut i: usize = 0;
    while i < cs.len()
        invariant
            i <= cs@.len(),
            cur@.len() > 0 <==> (i > 0 && !whitespace_of(cs@[i - 1])),
            words(cs@.take(i as int)) == (if cur@.len() > 0 {
                done.push(cur@)
            } else {
                done
            }),
            out@.map_values(|w: Vec<char>| w@) == done,
        decreases cs@.len() - i,
    {
        let c = cs[i];
        proof {
            assert(cs@.take(i + 1).drop_last() =~= cs@.take(i as int));
            assert(cs@.take(i + 1).last() == c);
            if i > 0 {
                assert(cs@.take(i + 1)[i - 1] == cs@[i - 1]);
            }
        }
        if !is_whitespace(c) {
            proof {
                if cur@.len() > 0 {
                    assert(words(cs@.take(i + 1)) =~= done.push(cur@.push(c)));
                } else {
                    assert(words(cs@.take(i + 1)) =~= done.push(seq![c]));
                }
            }
            let ghost was_empty = cur@.len() == 0;
            cur.push(c);
            proof {
                if was_empty {
                    assert(cur@ =~= seq![c]);
                }
            }
        } else if cur.len() > 0 {
            assert(words(cs@.take(i + 1)) == words(cs@.take(i as int)));
            let w = cur;
            proof {
                assert(out@.push(w).map_values(|w: Vec<char>| w@) =~= done.push(w@));
                done = done.push(w@);
            }
            out.push(w);
            cur = Vec::new();
        } else {
            assert(words(cs@.take(i + 1)) == words(cs@.take(i as int)));
        }
        i = i + 1;
    }
    proof {
        assert(cs@.take(i as int) =~= cs@);
    }
    if cur.len() > 0 {
        proof {
            assert(out@.push(cur).map_values(|w: Vec<char>| w@) =~= done.push(cur@));
        }
        out.push(cur);
    }
    out
}

/// The words from position 3 on, joined with single spaces.
fn join_rest(ws: &Vec<Vec<char>>) -> (r: Vec<char>)
    requires
        ws@.len() > 3,
    ensures
        r@ == joined(ws@.map_values(|w: Vec<char>| w@).skip(3)),
{
    let ghost wv = ws@.map_values(|w: Vec<char>| w@).skip(3);
    let mut r: Vec<char> = Vec::new();
    let mut i: usize = 3;
    while i < ws.len()
        invariant
            3 <= i <= ws@.len(),
            wv == ws@.map_values(|w: Vec<char>| w@).skip(3),
            r@ == joined(wv.take(i - 3)),
        decreases ws@.len() - i,
    {
        proof {
            assert(wv.take(i - 2).drop_last() =~= wv.take(i - 3));
            assert(wv.take(i - 2).last() == ws@[i as int]@);
        }
        if i > 3 {
            r.push(' ');
        }
        let w = &ws[i];
        let mut k: usize = 0;
        let ghost before = r@;
        while k < w.len()
            invariant
                k <= w@.len(),
                r@ == before + w@.take(k as int),
            decreases w@.len() - k,
        {
            r.push(w[k]);
            proof {
                assert(r@ =~= before + w@.take(k + 1));
            }
            k = k + 1;
        }
        proof {
            assert(w@.take(k as int) =~= w@);
            if i == 3 {
                assert(wv.take(1)[0] == w@);
                assert(r@ =~= joined(wv.take(1)));
            } else {
                assert(r@ =~= joined(wv.take(i - 2)));
            }
        }
        i = i + 1;
    }
    proof {
        assert(wv.take(i - 3) =~= wv);
    }
    r
}

fn word_string(w: &Vec<char>) -> (r: String)
    ensures
        r@ == w@,
{
    string_of(w.as_slice())
}

/// The command that `/set x y` gives.
fn set_command_exec(x: &Vec<char>, y: &Vec<char>) -> (r: (CliCmd, Option<String>))
    ensures
        r.0 == set_command(x@, y@).0,
        opt_view(r.1) == set_command(x@, y@).1,
{
    let ys = word_string(y);
    let mut all = false;
    let mut on = false;
    let mut count: usize = 0;
    if chars_eq(y, "on") {
        on = true;
    } else if chars_eq(y, "off") {
    } else if chars_eq(y, "all") {
        all = true;
    } else {
        match parse_decimal(ys.as_str(), usize::MAX as u64) {
            Some(c) => {
                count = c as usize;
            },
            None => {
                return (CliCmd::Undefined, None);
            },
        }
    }
    proof {
        reveal_strlit("on");
        reveal_strlit("off");
        reveal_strlit("all");
    }
    if chars_eq(x, "benign") || chars_eq(x, "mixed") || chars_eq(x, "suspicious") || chars_eq(
        x,
        "unknown",
    ) {
        (CliCmd::SetQualifier(all), Some(word_string(x)))
    } else if chars_eq(x, "reverse") {
        (CliCmd::SetConfig(ConfigType::Reverse(on)), None)
    } else if chars_eq(x, "samples") {
        (CliCmd::SetConfig(ConfigType::Samples(on)), None)
    } else if chars_eq(x, "samplescount") {
        (CliCmd::SetConfig(ConfigType::SamplesCount(count)), None)
    } else if chars_eq(x, "signature") {
        (CliCmd::SetConfig(ConfigType::Signature(on)), None)
    } else if chars_eq(x, "tokens") {
        (CliCmd::SetConfig(ConfigType::Tokens(on)), None)
    } else {
        (CliCmd::Undefined, None)
    }
}

/// The command that a list of words gives.
fn words_command_exec(ls: &Vec<Vec<char>>) -> (r: (CliCmd, Option<String>))
    ensures
        r.0 == words_command(ls@.map_values(|w: Vec<char>| w@)).0,
        opt_view(r.1) == words_command(ls@.map_values(|w: Vec<char>| w@)).1,
{
    let ghost lv = ls@.map_values(|w: Vec<char>| w@);
    if ls.len() == 1 {
        let a = &ls[0];
        assert(lv[0] == a@);
        if chars_eq(a, "/h") || chars_eq(a, "/help") || chars_eq(a, "/?") {
            (CliCmd::Help, None)
        } else if chars_eq(a, "/q") || chars_eq(a, "/quit") {
            (CliCmd::QuitProgram, None)
        } else if chars_eq(a, "/save") {
            (CliCmd::Save(false), None)
        } else if chars_eq(a, "/status") {
            (CliCmd::Status, None)
        } else if chars_eq(a, "/x") {
            (CliCmd::Exit, None)
        } else {
            (CliCmd::Undefined, None)
        }
    } else if ls.len() == 2 {
        let a = &ls[0];
        let b = &ls[1];
        assert(lv[0] == a@ && lv[1] == b@);
        if chars_eq(a, "/event") && chars_eq(b, "clear") {
            (CliCmd::Event(FilterType::NoFilter, FilterOp::EQ), None)
        } else if chars_eq(a, "/filter") && chars_eq(b, "label") {
            (CliCmd::Filter(FilterType::Label, FilterOp::EQ), None)
        } else if chars_eq(a, "/save") && chars_eq(b, "force") {
            (CliCmd::Save(true), None)
        } else if chars_eq(a, "/set") && (chars_eq(b, "benign") || chars_eq(b, "mixed") || chars_eq(
            b,
            "suspicious",
        ) || chars_eq(b, "unknown")) {
            (CliCmd::SetQualifier(false), Some(word_string(b)))
        } else {
            (CliCmd::Undefined, None)
        }
    } else if ls.len() == 3 {
        let a = &ls[0];
        let b = &ls[1];
        let x = &ls[2];
        assert(lv[0] == a@ && lv[1] == b@ && lv[2] == x@);
        if chars_eq(a, "/event") && chars_eq(b, "regex") {
            (CliCmd::Event(FilterType::Regex, FilterOp::EQ), Some(word_string(x)))
        } else if chars_eq(a, "/filter") && chars_eq(b, "label") {
            (CliCmd::Filter(FilterType::Label, FilterOp::EQ), Some(word_string(x)))
        } else if chars_eq(a, "/filter") && chars_eq(b, "qualifier") {
            let xs = word_string(x);
            if Qualifier::parse(xs.as_str()).is_some() {
                (CliCmd::Filter(FilterType::Qualifier, FilterOp::EQ), Some(xs))
            } else {
                (CliCmd::Undefined, None)
            }
        } else if chars_eq(a, "/filter") && chars_eq(b, "regex") {
            (CliCmd::Filter(FilterType::Regex, FilterOp::EQ), Some(word_string(x)))
        } else if chars_eq(a, "/set") {
            set_command_exec(b, x)
        } else {
            (CliCmd::Undefined, None)
        }
    } else if ls.len() == 4 {
        let a = &ls[0];
        let b = &ls[1];
        let x = &ls[2];
        let y = &ls[3];
        assert(lv[0] == a@ && lv[1] == b@ && lv[2] == x@ && lv[3] == y@);
        let xs = word_string(x);
        let ys = word_string(y);
        if chars_eq(a, "/filter") && chars_eq(b, "count") {
            match FilterOp::parse(xs.as_str()) {
                Some(op) => {
                    if parse_decimal(ys.as_str(), usize::MAX as u64).is_some() {
                        (CliCmd::Filter(FilterType::Count, op), Some(ys))
                    } else {
                        (CliCmd::Undefined, None)
                    }
                },
                None => (CliCmd::Undefined, None),
            }
        } else if chars_eq(a, "/filter") && chars_eq(b, "score") {
            match FilterOp::parse(xs.as_str()) {
                Some(op) => (CliCmd::Filter(FilterType::Score, op), Some(ys)),
                None => (CliCmd::Undefined, None),
            }
        } else {
            (CliCmd::Undefined, None)
        }
    } else {
        (CliCmd::Undefined, None)
    }
}

/// Reads one input line as a command and its argument. A score filter's
/// value is handed on as written: the caller reads it as a number.
pub fn parse_command(input: &str) -> (r: (CliCmd, Option<String>))
    ensures
        r.0 == command_of(input@).0,
        opt_view(r.1) == command_of(input@).1,
{
    let cs = chars_of(input);
    let line = trim_chars(&cs);
    let text = word_string(&line);
    if line.len() == 0 {
        return (CliCmd::GoNext, None);
    }
    if chars_eq(&line, "b") || chars_eq(&line, "p") {
        return (CliCmd::GoPrev, None);
    }
    if chars_eq(&line, "h") || chars_eq(&line, "?") {
        return (CliCmd::Help, None);
    }
    if parse_decimal(text.as_str(), usize::MAX as u64).is_some() {
        return (CliCmd::Jump, Some(text));
    }
    if line[0] == '#' {
        let mut rest: Vec<char> = Vec::new();
        let mut i: usize = 1;
        while i < line.len()
            invariant
                1 <= i <= line@.len(),
                rest@ == line@.subrange(1, i as int),
            decreases line@.len() - i,
        {
            rest.push(line[i]);
            proof {
                assert(rest@ =~= line@.subrange(1, i + 1));
            }
            i = i + 1;
        }
        assert(rest@ =~= line@.drop_first());
        let rs = word_string(&rest);
        if parse_decimal(rs.as_str(), usize::MAX as u64).is_some() {
            return (CliCmd::ClusterID, Some(rs));
        }
    }
    let ws = split_words(&line);
    let ghost wv = ws@.map_values(|w: Vec<char>| w@);
    if ws.len() > 4 {
        let last = join_rest(&ws);
        let mut ls: Vec<Vec<char>> = Vec::new();
        let mut i: usize = 0;
        let mut ws = ws;
        // the first three words, then the rest joined
        while i < 3
            invariant
                i <= 3,
                ws@.len() > 4,
                wv == ws@.map_values(|w: Vec<char>| w@),
                ls@.map_values(|w: Vec<char>| w@) == wv.take(i as int),
            decreases 3 - i,
        {
            let w = copy_chars(&ws[i]);
            proof {
                assert(wv[i as int] == ws@[i as int]@);
                assert(wv.take(i + 1) =~= wv.take(i as int).push(wv[i as int]));
                assert(ls@.push(w).map_values(|w: Vec<char>| w@) =~= ls@.map_values(
                    |w: Vec<char>| w@,
                ).push(w@));
            }
            ls.push(w);
            i = i + 1;
        }
        proof {
            assert(ls@.push(last).map_values(|w: Vec<char>| w@) =~= wv.take(3).push(
                joined(wv.skip(3)),
            ));
        }
        ls.push(last);
        words_command_exec(&ls)
    } else {
        words_command_exec(&ws)
    }
}

fn copy_chars(v: &Vec<char>) -> (r: Vec<char>)
    ensures
        r@ == v@,
{
    let mut r: Vec<char> = Vec::new();
    let mut i: usize = 0;
    while i < v.len()
        invariant
            i <= v@.len(),
            r@ == v@.take(i as int),
        decreases v@.len() - i,
    {
        r.push(v[i]);
        proof {
            assert(r@ =~= v@.take(i + 1));
        }
        i = i + 1;
    }
    assert(r@ =~= v@);
    r
}

} // verus!
