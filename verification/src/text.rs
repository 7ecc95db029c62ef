//! Small things done to text.
use vstd::prelude::*;

verus! {

/// Whether two texts are the same.
pub fn same_text(a: &str, b: &str) -> (same: bool)
    ensures
        same == (a@ == b@),
{
    a.to_owned() == b.to_owned()
}

/// The decimal digit of a number below ten.
pub open spec fn digit(d: nat) -> char {
    if d == 0 {
        '0'
    } else if d == 1 {
        '1'
    } else if d == 2 {
        '2'
    } else if d == 3 {
        '3'
    } else if d == 4 {
        '4'
    } else if d == 5 {
        '5'
    } else if d == 6 {
        '6'
    } else if d == 7 {
        '7'
    } else if d == 8 {
        '8'
    } else {
        '9'
    }
}

/// A number in decimal, without leading zeros.
pub open spec fn decimal(n: nat) -> Seq<char>
    decreases n,
{
    if n < 10 {
        seq![digit(n)]
    } else {
        decimal(n / 10).push(digit(n % 10))
    }
}

fn digit_text(d: usize) -> (text: String)
    requires
        d < 10,
    ensures
        text@ == seq![digit(d as nat)],
{
    proof {
        reveal_strlit("0");
        reveal_strlit("1");
        reveal_strlit("2");
        reveal_strlit("3");
        reveal_strlit("4");
        reveal_strlit("5");
        reveal_strlit("6");
        reveal_strlit("7");
        reveal_strlit("8");
        reveal_strlit("9");
    }
    let text = match d {
        0 => "0",
        1 => "1",
        2 => "2",
        3 => "3",
        4 => "4",
        5 => "5",
        6 => "6",
        7 => "7",
        8 => "8",
        _ => "9",
    };
    assert(text@ =~= seq![digit(d as nat)]);
    text.to_owned()
}

/// Writes a number in decimal.
pub fn decimal_text(n: usize) -> (text: String)
    ensures
        text@ == decimal(n as nat),
    decreases n,
{
    if n < 10 {
        digit_text(n)
    } else {
        let mut text = decimal_text(n / 10);
        let last = digit_text(n % 10);
        text.append(last.as_str());
        assert(text@ =~= decimal(n as nat));
        text
    }
}

/// The name that a numbered variable gets.
pub open spec fn var_name(n: nat) -> Seq<char> {
    "var_"@ + decimal(n)
}

/// Writes the name that a numbered variable gets.
pub fn var_text(n: usize) -> (text: String)
    ensures
        text@ == var_name(n as nat),
{
    let mut text = "var_".to_owned();
    let number = decimal_text(n);
    text.append(number.as_str());
    text
}

proof fn lemma_digit_injective(a: nat, b: nat)
    requires
        a < 10,
        b < 10,
        digit(a) == digit(b),
    ensures
        a == b,
{
}

proof fn lemma_decimal_injective(m: nat, n: nat)
    requires
        decimal(m) == decimal(n),
    ensures
        m == n,
    decreases m,
{
    let (x, y) = (decimal(m), decimal(n));
    assert(decimal(m / 10).len() > 0 && decimal(n / 10).len() > 0);
    assert(x.last() == digit(m % 10));
    assert(y.last() == digit(n % 10));
    lemma_digit_injective(m % 10, n % 10);
    if m >= 10 {
        assert(n >= 10);
        assert(x.drop_last() =~= decimal(m / 10));
        assert(y.drop_last() =~= decimal(n / 10));
        lemma_decimal_injective(m / 10, n / 10);
    } else {
        assert(n < 10);
    }
}

/// Differently numbered variables have different names.
pub proof fn law_var_names_differ(m: nat, n: nat)
    requires
        m != n,
    ensures
        var_name(m) != var_name(n),
{
    if var_name(m) == var_name(n) {
        let k = "var_"@.len() as int;
        assert(var_name(m).skip(k) =~= decimal(m));
        assert(var_name(n).skip(k) =~= decimal(n));
        lemma_decimal_injective(m, n);
    }
}

} // verus!
