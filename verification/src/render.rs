//! Rendering one output record as the line the simulator prints: the
//! date, the user id, the request id when the packet belongs to one, the
//! comma-terminated mix ids, the mailbox id when a mailbox is in use, and
//! the compromise flag.  On the console every line ends with a semicolon;
//! in batched output every ten-thousandth record ends the line instead.

use vstd::prelude::*;
use vstd::string::StringExecFns;

use crate::mixnode::Mixnode;
use crate::routesim::SimRecord;

verus! {

/// The single decimal digit `d` as a character.
pub open spec fn digit_chars(d: int) -> Seq<char> {
    if d == 0 {
        "0"@
    } else if d == 1 {
        "1"@
    } else if d == 2 {
        "2"@
    } else if d == 3 {
        "3"@
    } else if d == 4 {
        "4"@
    } else if d == 5 {
        "5"@
    } else if d == 6 {
        "6"@
    } else if d == 7 {
        "7"@
    } else if d == 8 {
        "8"@
    } else {
        "9"@
    }
}

/// The decimal digits of `n`, most significant first.
pub open spec fn dec_chars(n: int) -> Seq<char>
    decreases n,
{
    if n < 10 {
        digit_chars(n)
    } else {
        dec_chars(n / 10) + digit_chars(n % 10)
    }
}

/// `true` or `false`, as printed.
pub open spec fn bool_chars(b: bool) -> Seq<char> {
    if b {
        "true"@
    } else {
        "false"@
    }
}

/// The path rendered as comma-terminated mix ids.
pub open spec fn path_chars(path: Seq<Mixnode>) -> Seq<char>
    decreases path.len(),
{
    if path.len() == 0 {
        Seq::<char>::empty()
    } else {
        path_chars(path.drop_last()) + dec_chars(path.last().mixid as int) + ","@
    }
}

/// The whole line for one record, ending in `tail`.
pub open spec fn record_chars(r: SimRecord, tail: Seq<char>) -> Seq<char> {
    let head = r.date@ + " "@ + dec_chars(r.userid as int) + " "@;
    let head = match r.requestid {
        Some(rid) => head + dec_chars(rid as int) + " "@,
        None => head,
    };
    let head = head + path_chars(r.path@);
    let head = match r.mailbox {
        Some(mb) => head + dec_chars(mb.mixid as int),
        None => head,
    };
    head + " "@ + bool_chars(r.is_malicious) + tail
}

fn digit_str(d: u128) -> (r: &'static str)
    requires
        d < 10,
    ensures
        r@ == digit_chars(d as int),
{
    if d == 0 {
        "0"
    } else if d == 1 {
        "1"
    } else if d == 2 {
        "2"
    } else if d == 3 {
        "3"
    } else if d == 4 {
        "4"
    } else if d == 5 {
        "5"
    } else if d == 6 {
        "6"
    } else if d == 7 {
        "7"
    } else if d == 8 {
        "8"
    } else {
        "9"
    }
}

/// Render a number in decimal.
pub fn u128_to_string(x: u128) -> (s: String)
    ensures
        s@ == dec_chars(x as int),
    decreases x,
{
    if x < 10 {
        digit_str(x).to_owned()
    } else {
        let mut s = u128_to_string(x / 10);
        s.append(digit_str(x % 10));
        s
    }
}

/// Render a mix or user id in decimal.
pub fn u32_to_string(x: u32) -> (s: String)
    ensures
        s@ == dec_chars(x as int),
{
    u128_to_string(x as u128)
}

fn bool_str(b: bool) -> (r: &'static str)
    ensures
        r@ == bool_chars(b),
{
    if b {
        "true"
    } else {
        "false"
    }
}

/// Render a path as comma-terminated mix ids.
#[verifier::loop_isolation(false)]
pub fn path_to_string(path: &Vec<Mixnode>) -> (s: String)
    ensures
        s@ == path_chars(path@),
{
    let mut s = String::new();
    let n = path.len();
    let mut i: usize = 0;
    while i < n
        invariant
            0 <= i <= n,
            s@ == path_chars(path@.subrange(0, i as int)),
        decreases n - i,
    {
        s.append(u32_to_string(path[i].mixid).as_str());
        s.append(",");
        proof {
            assert(path@.subrange(0, i + 1).drop_last() =~= path@.subrange(0, i as int));
            assert(path@.subrange(0, i + 1).last() == path@[i as int]);
        }
        i = i + 1;
    }
    proof {
        assert(path@.subrange(0, n as int) =~= path@);
    }
    s
}

/// Render one record as its output line.  Console lines end with a
/// semicolon (the caller appends the newline); in batched output the
/// running count advances, and every ten-thousandth line ends with a
/// newline and resets it.
pub fn format_record(r: &SimRecord, to_console: bool, line_count: &mut u32) -> (s: String)
    requires
        *old(line_count) < 10000,
    ensures
        *final(line_count) < 10000,
        to_console ==> (s@ == record_chars(*r, ";"@) && *final(line_count) == *old(line_count)),
        (!to_console && *old(line_count) + 1 == 10000) ==> (s@ == record_chars(*r, "\n"@)
            && *final(line_count) == 0),
        (!to_console && *old(line_count) + 1 < 10000) ==> (s@ == record_chars(*r, ";"@)
            && *final(line_count) == *old(line_count) + 1),
{
    let mut s = String::new();
    s.append(r.date.as_str());
    s.append(" ");
    s.append(u32_to_string(r.userid).as_str());
    s.append(" ");
    match r.requestid {
        Some(rid) => {
            s.append(u128_to_string(rid).as_str());
            s.append(" ");
        },
        None => {},
    }
    let ps = path_to_string(&r.path);
    s.append(ps.as_str());
    match r.mailbox {
        Some(mb) => {
            s.append(u32_to_string(mb.mixid).as_str());
        },
        None => {},
    }
    s.append(" ");
    s.append(bool_str(r.is_malicious));
    if to_console {
        s.append(";");
        proof {
            assert(s@ =~= record_chars(*r, ";"@));
        }
    } else {
        *line_count = *line_count + 1;
        if *line_count == 10000 {
            s.append("\n");
            *line_count = 0;
            proof {
                assert(s@ =~= record_chars(*r, "\n"@));
            }
        } else {
            s.append(";");
            proof {
                assert(s@ =~= record_chars(*r, ";"@));
            }
        }
    }
    s
}

} // verus!
