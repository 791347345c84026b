//! Numbers and paths as text.

use vstd::prelude::*;
use vstd::string::{StrSliceExecFns, StringExecFns};

verus! {

/// A digit as a character.
pub open spec fn digit(n: int) -> char {
    seq!['0', '1', '2', '3', '4', '5', '6', '7', '8', '9'][n]
}

/// A number, written in decimal.
pub open spec fn decimal(n: nat) -> Seq<char>
    decreases n,
{
    if n < 10 {
        seq![digit(n as int)]
    } else {
        decimal(n / 10).push(digit((n % 10) as int))
    }
}

/// The path of something within a directory.
pub open spec fn join_path(dir: Seq<char>, name: Seq<char>) -> Seq<char> {
    if dir.len() == 0 || dir.last() == '/' {
        dir + name
    } else {
        dir.push('/') + name
    }
}

fn append_digit(to: &mut String, n: usize)
    requires
        n < 10,
    ensures
        final(to)@ == old(to)@.push(digit(n as int)),
{
    proof {
        reveal_strlit("0");
        reveal_strlit("1");
        reveal_strlit("2");
        reveal_strlit("3");
        reveal_strlit("4");
        reveal_strlit("5");
        reveal_strlit("6");
        reveal_strlit("7");
        reveal_strlit("8");
        reveal_strlit("9");
    }
    let text = match n {
        0 => "0",
        1 => "1",
        2 => "2",
        3 => "3",
        4 => "4",
        5 => "5",
        6 => "6",
        7 => "7",
        8 => "8",
        _ => "9",
    };
    let ghost before = to@;
    assert(text@ =~= seq![digit(n as int)]);
    to.append(text);
    assert(to@ =~= before.push(digit(n as int)));
}

/// Appends a number, written in decimal.
pub fn append_decimal(to: &mut String, n: usize)
    ensures
        final(to)@ == old(to)@ + decimal(n as nat),
    decreases n,
{
    let ghost before = to@;
    if n >= 10 {
        append_decimal(to, n / 10);
    }
    append_digit(to, n % 10);
    assert(to@ =~= before + decimal(n as nat));
}

/// The path of something within a directory.
pub fn path_within(dir: &String, name: &str) -> (res: String)
    ensures
        res@ == join_path(dir@, name@),
{
    let mut res = dir.clone();
    let text = dir.as_str();
    let len: usize = text.unicode_len();
    if len > 0 && text.get_char(len - 1) != '/' {
        proof {
            reveal_strlit("/");
        }
        res.append("/");
        assert(res@ =~= dir@.push('/'));
    }
    res.append(name);
    res
}

/// The digit that a character is.
pub open spec fn digit_value(c: char) -> int {
    if c == '0' {
        0
    } else if c == '1' {
        1
    } else if c == '2' {
        2
    } else if c == '3' {
        3
    } else if c == '4' {
        4
    } else if c == '5' {
        5
    } else if c == '6' {
        6
    } else if c == '7' {
        7
    } else if c == '8' {
        8
    } else if c == '9' {
        9
    } else {
        -1
    }
}

/// The number that a text of digits stands for.
pub open spec fn number_of(text: Seq<char>) -> int
    decreases text.len(),
{
    if text.len() == 0 {
        0
    } else {
        10 * number_of(text.drop_last()) + digit_value(text.last())
    }
}

/// A number that is written in decimal consists of digits, stands for the number, and does not start
/// with a zero unless it is zero.
pub proof fn lemma_decimal(n: nat)
    ensures
        number_of(decimal(n)) == n,
        decimal(n).len() > 0,
        forall|i: int| 0 <= i < decimal(n).len() ==> 0 <= digit_value(#[trigger] decimal(n)[i]) <= 9,
        n > 0 ==> decimal(n)[0] != '0',
        n == 0 ==> decimal(n) == seq!['0'],
    decreases n,
{
    if n >= 10 {
        lemma_decimal(n / 10);
        assert(decimal(n).drop_last() =~= decimal(n / 10));
        assert(decimal(n)[0] == decimal(n / 10)[0]);
    } else {
        assert(decimal(n).drop_last() =~= Seq::empty());
        assert(number_of(Seq::empty()) == 0);
    }
}

/// The path of something within a directory: the directory, a slash unless there is one already or
/// nothing to set apart, and the name.
pub proof fn lemma_join_path(dir: Seq<char>, name: Seq<char>)
    ensures
        dir.is_prefix_of(join_path(dir, name)),
        name.is_suffix_of(join_path(dir, name)),
        dir.len() > 0 && dir.last() != '/' ==> join_path(dir, name).len() == dir.len() + 1
            + name.len() && join_path(dir, name)[dir.len() as int] == '/',
        dir.len() == 0 || dir.last() == '/' ==> join_path(dir, name).len() == dir.len()
            + name.len(),
{
    let path = join_path(dir, name);
    assert(dir =~= path.subrange(0, dir.len() as int));
    assert(name =~= path.subrange(path.len() - name.len(), path.len() as int));
}

} // verus!
