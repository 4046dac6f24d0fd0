use vstd::prelude::*;
use vstd::string::StrSliceExecFns;
use vstd::string::StringExecFns;

verus! {

/// The number of characters a vertex name is spelled with.
pub const CHARSET_LEN: usize = 62;

/// The character that stands for the digit `d` of a vertex name: the capital letters, then
/// the small letters, then the decimal digits.
pub open spec fn digit_char(d: nat) -> char
    recommends
        d < 62,
{
    "ABCDEFGHIJKLMNOPQRSTUVWXYZabcdefghijklmnopqrstuvwxyz0123456789"@[d as int]
}

/// The name of the vertex numbered `id`: the remainders of the repeated division of `id` by
/// 62, the first remainder first, closed by the first quotient below 62.
pub open spec fn name_of(id: nat) -> Seq<char>
    decreases id,
{
    if id < 62 {
        seq![digit_char(id)]
    } else {
        seq![digit_char(id % 62)] + name_of(id / 62)
    }
}

/// The character of the decimal digit `d`.
pub open spec fn decimal_char(d: nat) -> char
    recommends
        d < 10,
{
    "0123456789"@[d as int]
}

/// The number `n` written in base ten, without leading zeros.
pub open spec fn decimal_of(n: nat) -> Seq<char>
    decreases n,
{
    if n < 10 {
        seq![decimal_char(n)]
    } else {
        decimal_of(n / 10).push(decimal_char(n % 10))
    }
}

/// Writes `n` in base ten.
pub fn decimal_text(n: usize) -> (text: String)
    ensures
        text@ == decimal_of(n as nat),
    decreases n,
{
    let digits = "0123456789";
    proof {
        reveal_strlit("0123456789");
    }
    if n < 10 {
        let text = String::from_str(digits.substring_ascii(n, n + 1));
        assert(text@ =~= seq![decimal_char(n as nat)]);
        text
    } else {
        let d = n % 10;
        let mut text = decimal_text(n / 10);
        text.append(digits.substring_ascii(d, d + 1));
        assert(text@ =~= decimal_of((n / 10) as nat).push(decimal_char(d as nat)));
        text
    }
}

/// The vertex numbered 0 is named `A`.
pub proof fn lemma_name_of_zero()
    ensures
        name_of(0) == seq!['A'],
{
    reveal_strlit("ABCDEFGHIJKLMNOPQRSTUVWXYZabcdefghijklmnopqrstuvwxyz0123456789");
    assert(name_of(0) =~= seq!['A']);
}

/// No two digits are written with the same character.
pub proof fn lemma_digit_char_injective(a: nat, b: nat)
    requires
        a < 62,
        b < 62,
        digit_char(a) == digit_char(b),
    ensures
        a == b,
{
    reveal_strlit("ABCDEFGHIJKLMNOPQRSTUVWXYZabcdefghijklmnopqrstuvwxyz0123456789");
}

/// A name has one character where the number is below 62, and more where it is not.
pub proof fn lemma_name_of_len(id: nat)
    ensures
        name_of(id).len() >= 1,
        id < 62 <==> name_of(id).len() == 1,
    decreases id,
{
    if id >= 62 {
        lemma_name_of_len(id / 62);
    }
}

/// No two vertices have the same name: numbers with equal names are equal.
pub proof fn lemma_name_of_injective(a: nat, b: nat)
    requires
        name_of(a) == name_of(b),
    ensures
        a == b,
    decreases a,
{
    lemma_name_of_len(a);
    lemma_name_of_len(b);
    if a < 62 {
        assert(name_of(a)[0] == digit_char(a));
        assert(name_of(b)[0] == digit_char(b));
        lemma_digit_char_injective(a, b);
    } else {
        let head_a = seq![digit_char(a % 62)];
        let head_b = seq![digit_char(b % 62)];
        assert(name_of(a) == head_a + name_of(a / 62));
        assert(name_of(b) == head_b + name_of(b / 62));
        assert((head_a + name_of(a / 62))[0] == digit_char(a % 62));
        assert((head_b + name_of(b / 62))[0] == digit_char(b % 62));
        lemma_digit_char_injective(a % 62, b % 62);
        assert(name_of(a / 62) =~= (head_a + name_of(a / 62)).subrange(
            1,
            name_of(a).len() as int,
        ));
        assert(name_of(b / 62) =~= (head_b + name_of(b / 62)).subrange(
            1,
            name_of(b).len() as int,
        ));
        lemma_name_of_injective(a / 62, b / 62);
    }
}

} // verus!
