//! Names of the segment files.
//!
//! Segment `id` under the prefix `p` is the file `p.id.db`; while it is being
//! compacted its live records are collected in `p.id.temp.db`.

use vstd::prelude::*;
use vstd::string::*;

verus! {

/// The character that stands for the digit `d`.
pub open spec fn digit(d: nat) -> char {
    (48 + d) as char
}

/// `n` in decimal notation, without sign or padding.
pub open spec fn decimal(n: nat) -> Seq<char>
    decreases n,
{
    if n < 10 {
        seq![digit(n)]
    } else {
        decimal(n / 10).push(digit(n % 10))
    }
}

/// Path of segment `id` under `prefix`.
pub open spec fn segment_name(prefix: Seq<char>, id: u64) -> Seq<char> {
    prefix + seq!['.'] + decimal(id as nat) + seq!['.', 'd', 'b']
}

/// Path of the scratch file in which segment `id` is rewritten.
pub open spec fn scratch_name(prefix: Seq<char>, id: u64) -> Seq<char> {
    prefix + seq!['.'] + decimal(id as nat) + seq!['.', 't', 'e', 'm', 'p', '.', 'd', 'b']
}

fn digit_str(d: u64) -> (s: &'static str)
    requires
        d < 10,
    ensures
        s@ == seq![digit(d as nat)],
{
    proof {
        reveal_strlit("0");
        reveal_strlit("1");
        reveal_strlit("2");
        reveal_strlit("3");
        reveal_strlit("4");
        reveal_strlit("5");
        reveal_strlit("6");
        reveal_strlit("7");
        reveal_strlit("8");
        reveal_strlit("9");
    }
    let s = if d == 0 {
        "0"
    } else if d == 1 {
        "1"
    } else if d == 2 {
        "2"
    } else if d == 3 {
        "3"
    } else if d == 4 {
        "4"
    } else if d == 5 {
        "5"
    } else if d == 6 {
        "6"
    } else if d == 7 {
        "7"
    } else if d == 8 {
        "8"
    } else {
        "9"
    };
    assert(s@ =~= seq![digit(d as nat)]);
    s
}

/// Writes `n` in decimal notation.
pub fn decimal_string(n: u64) -> (s: String)
    ensures
        s@ == decimal(n as nat),
    decreases n,
{
    if n < 10 {
        String::from_str(digit_str(n))
    } else {
        let mut s = decimal_string(n / 10);
        s.append(digit_str(n % 10));
        assert(s@ =~= decimal(n as nat));
        s
    }
}

/// Path of segment `id` under `prefix`.
pub fn segment_path(prefix: &str, id: u64) -> (path: String)
    ensures
        path@ == segment_name(prefix@, id),
{
    proof {
        reveal_strlit(".");
        reveal_strlit(".db");
    }
    let mut path = String::from_str(prefix);
    path.append(".");
    path.append(decimal_string(id).as_str());
    path.append(".db");
    assert(path@ =~= segment_name(prefix@, id));
    path
}

/// Path of the scratch file in which segment `id` is rewritten.
pub fn scratch_path(prefix: &str, id: u64) -> (path: String)
    ensures
        path@ == scratch_name(prefix@, id),
{
    proof {
        reveal_strlit(".");
        reveal_strlit(".temp.db");
    }
    let mut path = String::from_str(prefix);
    path.append(".");
    path.append(decimal_string(id).as_str());
    path.append(".temp.db");
    assert(path@ =~= scratch_name(prefix@, id));
    path
}

} // verus!
