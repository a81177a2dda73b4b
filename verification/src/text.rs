//! Numbers and messages as text.

use vstd::prelude::*;
use vstd::string::*;

verus! {

/// The character of a digit, in bases up to 16.
pub open spec fn digit_char(d: int) -> char {
    if d < 10 {
        (48 + d) as char
    } else {
        (87 + d) as char
    }
}

/// The decimal digits of a number.
pub open spec fn digits(n: nat) -> Seq<char>
    decreases n,
{
    if n < 10 {
        seq![digit_char(n as int)]
    } else {
        digits(n / 10).push(digit_char((n % 10) as int))
    }
}

/// An integer in decimal.
pub open spec fn decimal(i: int) -> Seq<char> {
    if i < 0 {
        seq!['-'] + digits((-i) as nat)
    } else {
        digits(i as nat)
    }
}

/// The last `n` hexadecimal digits of a number.
pub open spec fn hex(v: int, n: nat) -> Seq<char>
    decreases n,
{
    if n == 0 {
        Seq::empty()
    } else {
        hex(v / 16, (n - 1) as nat).push(digit_char(v % 16))
    }
}

/// A message with every tab widened to four spaces.
pub open spec fn widened(s: Seq<char>) -> Seq<char>
    decreases s.len(),
{
    if s.len() == 0 {
        Seq::empty()
    } else if s.last() == '\t' {
        widened(s.drop_last()) + seq![' ', ' ', ' ', ' ']
    } else {
        widened(s.drop_last()).push(s.last())
    }
}

/// The first `n` characters of a message.
pub open spec fn shortened(s: Seq<char>, n: nat) -> Seq<char> {
    if s.len() <= n {
        s
    } else {
        s.take(n as int)
    }
}

proof fn lemma_digit_char_injective(a: int, b: int)
    requires
        0 <= a < 10,
        0 <= b < 10,
        digit_char(a) == digit_char(b),
    ensures
        a == b,
{
    assert(digit_char(a) as int == 48 + a);
    assert(digit_char(b) as int == 48 + b);
}

proof fn lemma_digits_first(n: nat)
    ensures
        digits(n).len() >= 1,
        digits(n)[0] != '-',
    decreases n,
{
    if n >= 10 {
        lemma_digits_first(n / 10);
        assert(digits(n)[0] == digits(n / 10)[0]);
    } else {
        assert(digit_char(n as int) as int == 48 + n);
    }
}

proof fn lemma_digits_injective(a: nat, b: nat)
    requires
        digits(a) == digits(b),
    ensures
        a == b,
    decreases a,
{
    if a < 10 && b < 10 {
        assert(digits(a)[0] == digit_char(a as int));
        assert(digits(b)[0] == digit_char(b as int));
        lemma_digit_char_injective(a as int, b as int);
    } else if a < 10 {
        lemma_digits_first(b / 10);
        assert(digits(b).len() == digits(b / 10).len() + 1);
    } else if b < 10 {
        lemma_digits_first(a / 10);
        assert(digits(a).len() == digits(a / 10).len() + 1);
    } else {
        assert(digits(a).last() == digit_char((a % 10) as int));
        assert(digits(b).last() == digit_char((b % 10) as int));
        lemma_digit_char_injective((a % 10) as int, (b % 10) as int);
        assert(digits(a).drop_last() =~= digits(a / 10));
        assert(digits(b).drop_last() =~= digits(b / 10));
        lemma_digits_injective(a / 10, b / 10);
    }
}

/// No two integers are written alike.
pub proof fn lemma_decimal_injective(a: int, b: int)
    requires
        decimal(a) == decimal(b),
    ensures
        a == b,
{
    if a >= 0 {
        lemma_digits_first(a as nat);
    }
    if b >= 0 {
        lemma_digits_first(b as nat);
    }
    if a < 0 && b < 0 {
        let da = digits((-a) as nat);
        let db = digits((-b) as nat);
        assert(decimal(a).drop_first() =~= da);
        assert(decimal(b).drop_first() =~= db);
        lemma_digits_injective((-a) as nat, (-b) as nat);
    } else if a >= 0 && b >= 0 {
        lemma_digits_injective(a as nat, b as nat);
    } else if a < 0 {
        assert(decimal(a)[0] == '-');
    } else {
        assert(decimal(b)[0] == '-');
    }
}

/// A widened message holds no tab.
pub proof fn lemma_widened_has_no_tab(s: Seq<char>)
    ensures
        !widened(s).contains('\t'),
    decreases s.len(),
{
    if s.len() > 0 {
        lemma_widened_has_no_tab(s.drop_last());
        let w = widened(s.drop_last());
        assert forall|i: int| 0 <= i < widened(s).len() implies widened(s)[i] != '\t' by {
            if i < w.len() {
                assert(widened(s)[i] == w[i]);
                assert(w.contains(w[i]));
            }
        }
    }
}

/// Appends one digit.
fn push_digit(s: &mut String, d: u64)
    requires
        d < 16,
    ensures
        final(s)@ == old(s)@.push(digit_char(d as int)),
{
    proof {
        reveal_strlit("0");
        reveal_strlit("1");
        reveal_strlit("2");
        reveal_strlit("3");
        reveal_strlit("4");
        reveal_strlit("5");
        reveal_strlit("6");
        reveal_strlit("7");
        reveal_strlit("8");
        reveal_strlit("9");
        reveal_strlit("a");
        reveal_strlit("b");
        reveal_strlit("c");
        reveal_strlit("d");
        reveal_strlit("e");
        reveal_strlit("f");
    }
    let digit: &str = match d {
        0 => "0",
        1 => "1",
        2 => "2",
        3 => "3",
        4 => "4",
        5 => "5",
        6 => "6",
        7 => "7",
        8 => "8",
        9 => "9",
        10 => "a",
        11 => "b",
        12 => "c",
        13 => "d",
        14 => "e",
        _ => "f",
    };
    s.append(digit);
    assert(s@ =~= old(s)@.push(digit_char(d as int)));
}

fn push_digits(s: &mut String, n: u64)
    ensures
        final(s)@ == old(s)@ + digits(n as nat),
    decreases n,
{
    if n >= 10 {
        push_digits(s, n / 10);
    }
    push_digit(s, n % 10);
    assert(s@ =~= old(s)@ + digits(n as nat));
}

/// An integer in decimal.
#[must_use]
pub fn decimal_text(i: i64) -> (s: String)
    ensures
        s@ == decimal(i as int),
{
    let mut s: String = String::new();
    if i < 0 {
        proof {
            reveal_strlit("-");
        }
        s.append("-");
        assert(s@ =~= seq!['-']);
        push_digits(&mut s, (-(i as i128)) as u64);
    } else {
        push_digits(&mut s, i as u64);
        assert(s@ =~= decimal(i as int));
    }
    s
}

/// An index in decimal.
#[must_use]
pub fn index_text(i: usize) -> (s: String)
    ensures
        s@ == decimal(i as int),
{
    let mut s: String = String::new();
    push_digits(&mut s, i as u64);
    assert(s@ =~= decimal(i as int));
    s
}

fn push_hex(s: &mut String, v: u32, n: u32)
    ensures
        final(s)@ == old(s)@ + hex(v as int, n as nat),
    decreases n,
{
    if n > 0 {
        push_hex(s, v / 16, n - 1);
        push_digit(s, (v % 16) as u64);
    }
    assert(s@ =~= old(s)@ + hex(v as int, n as nat));
}

/// The low 24 bits of a colour as six hexadecimal digits.
#[must_use]
pub fn colour_text(color: u32) -> (s: String)
    ensures
        s@ == hex((color % 0x100_0000) as int, 6),
{
    let mut s: String = String::new();
    push_hex(&mut s, color % 0x100_0000, 6);
    assert(s@ =~= hex((color % 0x100_0000) as int, 6));
    s
}

/// A message with every tab widened to four spaces.
#[must_use]
pub fn widen_tabs(message: &str) -> (s: String)
    ensures
        s@ == widened(message@),
{
    let mut s: String = String::new();
    let n: usize = message.unicode_len();
    let mut i: usize = 0;
    proof {
        reveal_strlit("    ");
        assert(message@.take(0) =~= Seq::<char>::empty());
    }
    while i < n
        invariant
            n == message@.len(),
            i <= n,
            s@ == widened(message@.take(i as int)),
            "    "@ =~= seq![' ', ' ', ' ', ' '],
        decreases n - i,
    {
        assert(message@.take(i + 1).drop_last() =~= message@.take(i as int));
        if message.get_char(i) == '\t' {
            s.append("    ");
        } else {
            let c: &str = message.substring_char(i, i + 1);
            assert(c@ =~= seq![message@[i as int]]);
            s.append(c);
            assert(s@ =~= widened(message@.take(i as int)).push(message@[i as int]));
        }
        i += 1;
    }
    assert(message@.take(n as int) =~= message@);
    s
}

/// The first `n` characters of a message.
#[must_use]
pub fn shorten(message: &str, n: usize) -> (s: String)
    ensures
        s@ == shortened(message@, n as nat),
{
    if message.unicode_len() <= n {
        String::from_str(message)
    } else {
        let head: &str = message.substring_char(0, n);
        assert(head@ =~= message@.take(n as int));
        String::from_str(head)
    }
}

} // verus!
