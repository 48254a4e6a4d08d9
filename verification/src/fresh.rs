//! Names for synthesized bindings: an underscore, the name that was asked
//! for and, from the second candidate on, a counter in decimal.

use vstd::prelude::*;
use vstd::string::StringExecFns;

verus! {

pub open spec fn digit(d: nat) -> char {
    if d == 0 {
        '0'
    } else if d == 1 {
        '1'
    } else if d == 2 {
        '2'
    } else if d == 3 {
        '3'
    } else if d == 4 {
        '4'
    } else if d == 5 {
        '5'
    } else if d == 6 {
        '6'
    } else if d == 7 {
        '7'
    } else if d == 8 {
        '8'
    } else {
        '9'
    }
}

/// `n` written in decimal, without leading zeros.
pub open spec fn decimal(n: nat) -> Seq<char>
    decreases n,
{
    if n < 10 {
        seq![digit(n)]
    } else {
        decimal(n / 10).push(digit(n % 10))
    }
}

/// The `k`-th candidate for a name made from `hint`, counting from one:
/// `_hint`, `_hint2`, `_hint3` and so on.
pub open spec fn candidate_name(hint: Seq<char>, k: nat) -> Seq<char> {
    seq!['_'] + hint + if k <= 1 {
        Seq::<char>::empty()
    } else {
        decimal(k)
    }
}

fn digit_str(d: u32) -> (s: &'static str)
    requires
        d < 10,
    ensures
        s@ == seq![digit(d as nat)],
{
    proof {
        reveal_strlit("0");
        reveal_strlit("1");
        reveal_strlit("2");
        reveal_strlit("3");
        reveal_strlit("4");
        reveal_strlit("5");
        reveal_strlit("6");
        reveal_strlit("7");
        reveal_strlit("8");
        reveal_strlit("9");
    }
    let s = if d == 0 {
        "0"
    } else if d == 1 {
        "1"
    } else if d == 2 {
        "2"
    } else if d == 3 {
        "3"
    } else if d == 4 {
        "4"
    } else if d == 5 {
        "5"
    } else if d == 6 {
        "6"
    } else if d == 7 {
        "7"
    } else if d == 8 {
        "8"
    } else {
        "9"
    };
    assert(s@ =~= seq![digit(d as nat)]);
    s
}

/// `n` in decimal.
pub fn decimal_string(n: u32) -> (s: String)
    ensures
        s@ == decimal(n as nat),
    decreases n,
{
    if n < 10 {
        String::from_str(digit_str(n))
    } else {
        let mut s = decimal_string(n / 10);
        s.append(digit_str(n % 10));
        assert(s@ =~= decimal((n / 10) as nat).push(digit((n % 10) as nat)));
        s
    }
}

/// The `k`-th candidate for a name made from `hint`.
pub fn candidate(hint: &str, k: u32) -> (name: String)
    ensures
        name@ == candidate_name(hint@, k as nat),
{
    proof {
        reveal_strlit("_");
    }
    let mut name = String::from_str("_");
    assert(name@ =~= seq!['_']);
    name.append(hint);
    if k > 1 {
        let counter = decimal_string(k);
        name.append(counter.as_str());
    }
    assert(name@ =~= candidate_name(hint@, k as nat));
    name
}

} // verus!
