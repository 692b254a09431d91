//! Where the intermediate files are.

use vstd::prelude::*;
use vstd::string::StringExecFns;

verus! {

/// The decimal digit for `d`.
pub open spec fn digit(d: int) -> char {
    if d == 0 {
        '0'
    } else if d == 1 {
        '1'
    } else if d == 2 {
        '2'
    } else if d == 3 {
        '3'
    } else if d == 4 {
        '4'
    } else if d == 5 {
        '5'
    } else if d == 6 {
        '6'
    } else if d == 7 {
        '7'
    } else if d == 8 {
        '8'
    } else {
        '9'
    }
}

/// `n` written in decimal, without leading zeros.
pub open spec fn decimal(n: nat) -> Seq<char>
    decreases n,
{
    if n < 10 {
        seq![digit(n as int)]
    } else {
        decimal(n / 10).push(digit(n as int % 10))
    }
}

/// The path of intermediate file number `run` in the directory `dir`: the
/// directory, a slash, the number in decimal, and `.txt`.
pub open spec fn run_path(dir: Seq<char>, run: nat) -> Seq<char> {
    dir + seq!['/'] + decimal(run) + seq!['.', 't', 'x', 't']
}

fn digit_text(d: usize) -> (text: &'static str)
    requires
        d < 10,
    ensures
        text@ == seq![digit(d as int)],
{
    proof {
        reveal_strlit("0");
        reveal_strlit("1");
        reveal_strlit("2");
        reveal_strlit("3");
        reveal_strlit("4");
        reveal_strlit("5");
        reveal_strlit("6");
        reveal_strlit("7");
        reveal_strlit("8");
        reveal_strlit("9");
    }
    let text = if d == 0 {
        "0"
    } else if d == 1 {
        "1"
    } else if d == 2 {
        "2"
    } else if d == 3 {
        "3"
    } else if d == 4 {
        "4"
    } else if d == 5 {
        "5"
    } else if d == 6 {
        "6"
    } else if d == 7 {
        "7"
    } else if d == 8 {
        "8"
    } else {
        "9"
    };
    assert(text@ =~= seq![digit(d as int)]);
    text
}

/// Puts `n` in decimal behind `text`.
pub fn append_decimal(text: &mut String, n: usize)
    ensures
        final(text)@ == old(text)@ + decimal(n as nat),
    decreases n,
{
    if n >= 10 {
        append_decimal(text, n / 10);
    }
    let ghost before = text@;
    text.append(digit_text(n % 10));
    proof {
        if n >= 10 {
            assert(text@ =~= old(text)@ + decimal(n as nat / 10).push(digit(n as int % 10)));
        } else {
            assert(text@ =~= old(text)@ + seq![digit(n as int)]);
        }
    }
}

/// The path of intermediate file number `run` in the directory `dir`.
pub fn run_file_name(dir: &str, run: usize) -> (path: String)
    ensures
        path@ == run_path(dir@, run as nat),
{
    proof {
        reveal_strlit("/");
        reveal_strlit(".txt");
    }
    let mut path = String::from_str(dir);
    path.append("/");
    append_decimal(&mut path, run);
    path.append(".txt");
    assert(path@ =~= run_path(dir@, run as nat));
    path
}

} // verus!
