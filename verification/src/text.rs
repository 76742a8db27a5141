//! Text: fields between separators, and integers in decimal.
use vstd::arithmetic::power::{lemma_pow0, lemma_pow1, lemma_pow_adds, pow};
use vstd::prelude::*;
use vstd::string::*;

verus! {

/// The fields of `s` between the occurrences of `separator`: one more than there
/// are occurrences, each as long as the text in between, which may be empty.
pub open spec fn fields(s: Seq<char>, separator: char) -> Seq<Seq<char>>
    decreases s.len(),
{
    if s.len() == 0 {
        seq![Seq::<char>::empty()]
    } else {
        let rest = fields(s.drop_last(), separator);
        if s.last() == separator {
            rest.push(Seq::<char>::empty())
        } else {
            rest.drop_last().push(rest.last().push(s.last()))
        }
    }
}

/// Whether `c` is a decimal digit.
pub open spec fn is_digit(c: char) -> bool {
    '0' <= c <= '9'
}

/// Whether `s` holds decimal digits only.
pub open spec fn all_digits(s: Seq<char>) -> bool {
    forall|i: int| 0 <= i < s.len() ==> is_digit(#[trigger] s[i])
}

/// What the digits of `s` amount to in base ten.
pub open spec fn digits_value(s: Seq<char>) -> nat
    decreases s.len(),
{
    if s.len() == 0 {
        0
    } else {
        digits_value(s.drop_last()) * 10 + (s.last() as int - '0' as int) as nat
    }
}

/// Whether `s` begins with a sign.
pub open spec fn has_sign(s: Seq<char>) -> bool {
    s.len() > 0 && (s[0] == '+' || s[0] == '-')
}

/// `s` without its sign.
pub open spec fn unsigned_part(s: Seq<char>) -> Seq<char> {
    if has_sign(s) {
        s.subrange(1, s.len() as int)
    } else {
        s
    }
}

/// The integer that `s` writes down: an optional sign, then one or more digits
/// and nothing else. `None` where `s` is not of this form.
pub open spec fn integer(s: Seq<char>) -> Option<int> {
    let digits = unsigned_part(s);
    if digits.len() == 0 || !all_digits(digits) {
        None
    } else if s[0] == '-' {
        Some(-digits_value(digits))
    } else {
        Some(digits_value(digits) as int)
    }
}

/// The integer that `s` writes down, where it has 32 bits.
pub open spec fn integer_32(s: Seq<char>) -> Option<i32> {
    match integer(s) {
        Some(n) => if i32::MIN <= n <= i32::MAX {
            Some(n as i32)
        } else {
            None
        },
        None => None,
    }
}

/// The digit for a number below ten.
pub open spec fn digit(n: nat) -> char {
    (n + '0' as nat) as char
}

/// `n` in decimal.
pub open spec fn decimal(n: nat) -> Seq<char>
    decreases n,
{
    if n < 10 {
        seq![digit(n)]
    } else {
        decimal(n / 10).push(digit(n % 10))
    }
}

/// `n` in decimal, with a minus sign where it is negative.
pub open spec fn signed_decimal(n: int) -> Seq<char> {
    if n < 0 {
        seq!['-'] + decimal((-n) as nat)
    } else {
        decimal(n as nat)
    }
}

/// The texts that `parts` hold.
pub open spec fn views(parts: Seq<Vec<char>>) -> Seq<Seq<char>> {
    parts.map_values(|part: Vec<char>| part@)
}

/// The characters of `s`.
pub fn characters(s: &str) -> (v: Vec<char>)
    ensures
        v@ == s@,
{
    let mut v: Vec<char> = Vec::new();
    for c in it: s.chars()
        invariant
            v@ == it.seq().take(it.index() as int),
            it.seq() == s@,
    {
        v.push(c);
    }
    v
}

/// The fields of `s` between the occurrences of `separator`.
pub fn split(s: &str, separator: char) -> (parts: Vec<Vec<char>>)
    ensures
        views(parts@) == fields(s@, separator),
{
    let chars = characters(s);
    let mut parts: Vec<Vec<char>> = Vec::new();
    let mut part: Vec<char> = Vec::new();
    let mut i: usize = 0;
    while i < chars.len()
        invariant
            i <= chars@.len(),
            views(parts@).push(part@) == fields(chars@.take(i as int), separator),
        decreases chars@.len() - i,
    {
        let c = chars[i];
        let ghost before = chars@.take(i as int);
        let ghost done = views(parts@);
        let ghost open = part@;
        if c == separator {
            parts.push(part);
            part = Vec::new();
            assert(views(parts@) =~= done.push(open));
        } else {
            part.push(c);
        }
        i = i + 1;
        assert(chars@.take(i as int).drop_last() =~= before);
        assert(done.push(open).drop_last() =~= done);
    }
    assert(chars@.take(i as int) =~= s@);
    let ghost done = views(parts@);
    let ghost open = part@;
    parts.push(part);
    assert(views(parts@) =~= done.push(open));
    parts
}

/// Digits put behind others never make the number smaller.
proof fn digits_value_grows(s: Seq<char>, n: int)
    requires
        all_digits(s),
        0 <= n <= s.len(),
    ensures
        digits_value(s.take(n)) <= digits_value(s),
    decreases s.len() - n,
{
    if n < s.len() {
        digits_value_grows(s, n + 1);
        assert(s.take(n + 1).drop_last() =~= s.take(n));
    } else {
        assert(s.take(n) =~= s);
    }
}

/// The 32-bit integer that `s` writes down: an optional sign, then one or more
/// digits and nothing else.
#[verifier::rlimit(40)]
pub fn parse_integer(s: &Vec<char>) -> (r: Option<i32>)
    ensures
        r == integer_32(s@),
{
    let ghost digits = unsigned_part(s@);
    let start: usize = if s.len() > 0 && (s[0] == '+' || s[0] == '-') {
        1
    } else {
        0
    };
    assert(digits =~= s@.subrange(start as int, s@.len() as int));
    if s.len() == start {
        return None;
    }
    let mut value: i64 = 0;
    let mut i: usize = start;
    while i < s.len()
        invariant
            start <= i <= s@.len(),
            start <= 1,
            digits == unsigned_part(s@),
            digits == s@.subrange(start as int, s@.len() as int),
            digits.len() > 0,
            all_digits(digits.take(i - start)),
            value == digits_value(digits.take(i - start)),
            0 <= value <= 0x8000_0000,
        decreases s@.len() - i,
    {
        let c = s[i];
        assert(c == digits[i - start]);
        if c < '0' || c > '9' {
            assert(!is_digit(digits[i - start]));
            return None;
        }
        value = value * 10 + (c as i64 - '0' as i64);
        i = i + 1;
        proof {
            let before = digits.take(i - start - 1);
            let now = digits.take(i - start);
            assert(now.drop_last() =~= before);
            assert(all_digits(now)) by {
                assert forall|j: int| 0 <= j < now.len() implies is_digit(#[trigger] now[j]) by {
                    if j < before.len() {
                        assert(is_digit(before[j]));
                    }
                }
            }
        }
        if value > 0x8000_0000 {
            proof {
                if all_digits(digits) {
                    digits_value_grows(digits, i - start);
                }
            }
            return None;
        }
    }
    assert(digits.take(i - start) =~= digits);
    let n: i64 = if s[0] == '-' {
        -value
    } else {
        value
    };
    if n > 0x7FFF_FFFF {
        None
    } else {
        Some(n as i32)
    }
}

/// A digit as text.
fn digit_text(n: u64) -> (r: &'static str)
    requires
        n < 10,
    ensures
        r@ == seq![digit(n as nat)],
{
    proof {
        reveal_strlit("0");
        reveal_strlit("1");
        reveal_strlit("2");
        reveal_strlit("3");
        reveal_strlit("4");
        reveal_strlit("5");
        reveal_strlit("6");
        reveal_strlit("7");
        reveal_strlit("8");
        reveal_strlit("9");
    }
    let r: &'static str = match n {
        0 => "0",
        1 => "1",
        2 => "2",
        3 => "3",
        4 => "4",
        5 => "5",
        6 => "6",
        7 => "7",
        8 => "8",
        _ => "9",
    };
    assert(r@ =~= seq![digit(n as nat)]);
    r
}

/// `n` in decimal.
pub fn decimal_text(n: u64) -> (r: String)
    ensures
        r@ == decimal(n as nat),
    decreases n,
{
    let mut r = if n < 10 {
        String::new()
    } else {
        decimal_text(n / 10)
    };
    let ghost before = r@;
    r.append(digit_text(n % 10));
    assert(r@ =~= before.push(digit((n % 10) as nat)));
    assert(n < 10 ==> r@ =~= seq![digit(n as nat)]);
    r
}

/// `n` in decimal, with a minus sign where it is negative.
pub fn signed_decimal_text(n: i32) -> (r: String)
    ensures
        r@ == signed_decimal(n as int),
{
    if n < 0 {
        let mut r = String::from_str("-");
        proof {
            reveal_strlit("-");
        }
        let magnitude: u64 = (-(n as i64)) as u64;
        let digits = decimal_text(magnitude);
        r.append(digits.as_str());
        assert(r@ =~= seq!['-'] + decimal(magnitude as nat));
        r
    } else {
        decimal_text(n as u64)
    }
}

/// A text without the separator is one field.
pub proof fn one_field(s: Seq<char>, separator: char)
    requires
        !s.contains(separator),
    ensures
        fields(s, separator) == seq![s],
    decreases s.len(),
{
    if s.len() == 0 {
        assert(s =~= Seq::<char>::empty());
    } else {
        let rest = s.drop_last();
        assert(!rest.contains(separator)) by {
            assert forall|i: int| 0 <= i < rest.len() implies rest[i] != separator by {
                assert(rest[i] == s[i]);
            }
        }
        one_field(rest, separator);
        assert(s.last() != separator) by {
            assert(s[s.len() - 1] == s.last());
        }
        assert(rest.push(s.last()) =~= s);
        assert(fields(s, separator) =~= seq![s]);
    }
}

/// Two texts with a separator in between have the fields of the first and then
/// those of the second.
pub proof fn joined_fields(s: Seq<char>, t: Seq<char>, separator: char)
    ensures
        fields(s.push(separator) + t, separator) == fields(s, separator) + fields(t, separator),
        fields(t, separator).len() > 0,
    decreases t.len(),
{
    let whole = s.push(separator) + t;
    if t.len() == 0 {
        assert(whole =~= s.push(separator));
        assert(whole.drop_last() =~= s);
        assert(fields(whole, separator) =~= fields(s, separator) + fields(t, separator));
    } else {
        joined_fields(s, t.drop_last(), separator);
        assert(whole.drop_last() =~= s.push(separator) + t.drop_last());
        assert(whole.last() == t.last());
        assert(fields(whole, separator) =~= fields(s, separator) + fields(t, separator));
    }
}

/// A number in decimal consists of digits and amounts to the number.
proof fn decimal_value(n: nat)
    ensures
        decimal(n).len() > 0,
        all_digits(decimal(n)),
        digits_value(decimal(n)) == n,
    decreases n,
{
    if n < 10 {
        let s = decimal(n);
        assert(s.drop_last() =~= Seq::<char>::empty());
        assert(digits_value(s.drop_last()) == 0);
        assert(s.last() as int - '0' as int == n);
    } else {
        let rest = decimal(n / 10);
        decimal_value(n / 10);
        let s = decimal(n);
        assert(s.drop_last() =~= rest);
        assert(s.last() as int - '0' as int == n % 10);
        assert forall|i: int| 0 <= i < s.len() implies is_digit(#[trigger] s[i]) by {
            if i < rest.len() {
                assert(is_digit(rest[i]));
            }
        }
    }
}

/// Reading a 32-bit integer back from its decimal form gives the integer.
pub proof fn decimal_is_read_back(n: i32)
    ensures
        integer_32(signed_decimal(n as int)) == Some(n),
{
    let s = signed_decimal(n as int);
    if n < 0 {
        decimal_value((-n) as nat);
        assert(unsigned_part(s) =~= decimal((-n) as nat));
    } else {
        decimal_value(n as nat);
        assert(is_digit(s[0]));
    }
}

/// The parts one after the other, with the separator between any two.
pub open spec fn rejoined(parts: Seq<Seq<char>>, separator: char) -> Seq<char>
    decreases parts.len(),
{
    if parts.len() == 0 {
        Seq::empty()
    } else if parts.len() == 1 {
        parts[0]
    } else {
        rejoined(parts.drop_last(), separator).push(separator) + parts.last()
    }
}

/// The fields of a text hold no separator, and put together again with the separator
/// between them they are the text.
pub proof fn fields_are_rejoined(s: Seq<char>, separator: char)
    ensures
        fields(s, separator).len() > 0,
        forall|i: int|
            0 <= i < fields(s, separator).len() ==> !(#[trigger] fields(s, separator)[i]).contains(
                separator,
            ),
        rejoined(fields(s, separator), separator) == s,
    decreases s.len(),
{
    let all = fields(s, separator);
    if s.len() == 0 {
        assert(rejoined(all, separator) =~= s);
    } else {
        let before = s.drop_last();
        let rest = fields(before, separator);
        fields_are_rejoined(before, separator);
        if s.last() == separator {
            assert(all.drop_last() =~= rest);
            assert(rejoined(all, separator) =~= s);
            assert forall|i: int| 0 <= i < all.len() implies !(#[trigger] all[i]).contains(
                separator,
            ) by {
                if i < rest.len() {
                    assert(!rest[i].contains(separator));
                }
            }
        } else {
            let last = rest.len() - 1;
            assert(all.drop_last() =~= rest.drop_last());
            assert(all.last() == rest.last().push(s.last()));
            assert(!rest[last].contains(separator));
            assert forall|i: int| 0 <= i < all.len() implies !(#[trigger] all[i]).contains(
                separator,
            ) by {
                if i < last {
                    assert(all[i] == rest[i]);
                    assert(!rest[i].contains(separator));
                } else {
                    assert forall|j: int| 0 <= j < all[i].len() implies all[i][j] != separator by {
                        if j < rest[last].len() {
                            assert(rest[last].contains(rest[last][j]));
                        }
                    }
                }
            }
            if rest.len() == 1 {
                assert(rejoined(all, separator) =~= s);
            } else {
                assert(rejoined(all, separator) =~= rejoined(rest, separator).push(s.last()));
                assert(rejoined(all, separator) =~= s);
            }
        }
    }
}

/// Splitting a text is undone by putting its parts together again with the separator
/// between them, and no part holds the separator.
pub proof fn splitting_is_undone(s: &str, separator: char, parts: Vec<Vec<char>>)
    requires
        call_ensures(split, (s, separator), parts),
    ensures
        parts@.len() > 0,
        forall|i: int| 0 <= i < parts@.len() ==> !(#[trigger] parts@[i])@.contains(separator),
        rejoined(parts@.map_values(|part: Vec<char>| part@), separator) == s@,
{
    fields_are_rejoined(s@, separator);
    assert(parts@.map_values(|part: Vec<char>| part@) =~= views(parts@));
    assert(views(parts@).len() == parts@.len());
    assert forall|i: int| 0 <= i < parts@.len() implies !(#[trigger] parts@[i])@.contains(
        separator,
    ) by {
        assert(views(parts@)[i] == parts@[i]@);
        assert(!fields(s@, separator)[i].contains(separator));
    }
}

/// Digits in front count ten times as much for each digit behind them, and a digit alone
/// counts by how far it is from zero.
pub proof fn digits_count_by_place(s: Seq<char>, t: Seq<char>, c: char)
    ensures
        digits_value(s + t) == digits_value(s) * pow(10, t.len()) + digits_value(t),
        '0' <= c <= '9' ==> digits_value(seq![c]) == c as int - '0' as int,
        digits_value(Seq::empty()) == 0,
    decreases t.len(),
{
    let one = seq![c];
    assert(one.drop_last() =~= Seq::<char>::empty());
    assert(digits_value(one.drop_last()) == 0);
    if t.len() == 0 {
        assert(s + t =~= s);
        lemma_pow0(10);
    } else {
        let rest = t.drop_last();
        digits_count_by_place(s, rest, c);
        assert((s + t).drop_last() =~= s + rest);
        assert((s + t).last() == t.last());
        lemma_pow1(10);
        lemma_pow_adds(10, rest.len(), 1);
        let p = pow(10, rest.len());
        let v = digits_value(s) as int;
        assert(v * p * 10 == v * (p * 10)) by (nonlinear_arith);
    }
}

/// An integer is read from digits, and from digits behind a sign. It is what the digits
/// amount to, negative behind a minus, where it has 32 bits.
pub proof fn integers_are_read(digits: Seq<char>)
    requires
        digits.len() > 0,
        forall|i: int| 0 <= i < digits.len() ==> '0' <= #[trigger] digits[i] <= '9',
    ensures
        digits_value(digits) <= 2147483647 ==> {
            &&& integer_32(digits) == Some(digits_value(digits) as i32)
            &&& integer_32(seq!['+'] + digits) == Some(digits_value(digits) as i32)
        },
        digits_value(digits) > 2147483647 ==> {
            &&& integer_32(digits) is None
            &&& integer_32(seq!['+'] + digits) is None
        },
        digits_value(digits) <= 2147483648 ==> integer_32(seq!['-'] + digits) == Some(
            (-digits_value(digits)) as i32,
        ),
        digits_value(digits) > 2147483648 ==> integer_32(seq!['-'] + digits) is None,
{
    assert(all_digits(digits));
    assert('0' <= digits[0]);
    assert(unsigned_part(digits) == digits);
    let plus = seq!['+'] + digits;
    let minus = seq!['-'] + digits;
    assert(unsigned_part(plus) =~= digits);
    assert(unsigned_part(minus) =~= digits);
}

/// No integer is read from nothing, nor from what holds anything but digits behind a sign
/// or none.
pub proof fn nothing_else_is_read(s: Seq<char>, i: int)
    requires
        0 <= i < s.len() ==> !('0' <= s[i] && s[i] <= '9'),
        0 <= i < s.len() || s.len() == 0,
    ensures
        integer_32(seq!['+'] + s) is None,
        integer_32(seq!['-'] + s) is None,
        s.len() == 0 || i > 0 || (s[0] != '+' && s[0] != '-') ==> integer_32(s) is None,
{
    let plus = seq!['+'] + s;
    let minus = seq!['-'] + s;
    assert(unsigned_part(plus) =~= s);
    assert(unsigned_part(minus) =~= s);
    if s.len() > 0 {
        assert(!is_digit(s[i]));
        if has_sign(s) && i > 0 {
            assert(unsigned_part(s)[i - 1] == s[i]);
        }
    }
}

/// Parsing reads what there is to be read.
pub proof fn parsing_reads_integers(s: Vec<char>, r: Option<i32>)
    requires
        call_ensures(parse_integer, (&s,), r),
    ensures
        r == integer_32(s@),
{
}

/// A number in decimal is the one text of digits that amounts to the number and does not
/// begin with a zero, unless it is the zero.
pub proof fn decimals_amount_to_numbers(n: nat)
    ensures
        decimal(n).len() > 0,
        forall|i: int| 0 <= i < decimal(n).len() ==> '0' <= #[trigger] decimal(n)[i] <= '9',
        digits_value(decimal(n)) == n,
        n > 0 ==> decimal(n)[0] != '0',
        n == 0 ==> decimal(n).len() == 1,
    decreases n,
{
    decimal_value(n);
    assert forall|i: int| 0 <= i < decimal(n).len() implies '0' <= #[trigger] decimal(n)[i]
        <= '9' by {
        assert(is_digit(decimal(n)[i]));
    }
    if n >= 10 {
        decimals_amount_to_numbers(n / 10);
        assert(decimal(n)[0] == decimal(n / 10)[0]);
    } else if n > 0 {
        assert(digit(n) as int - '0' as int == n);
    }
}

/// A number is written as digits that amount to it, without a zero in front.
pub proof fn numbers_are_written(n: u64, r: String)
    requires
        call_ensures(decimal_text, (n,), r),
    ensures
        r@ == decimal(n as nat),
        r@.len() > 0,
        forall|i: int| 0 <= i < r@.len() ==> '0' <= #[trigger] r@[i] <= '9',
        digits_value(r@) == n,
        n > 0 ==> r@[0] != '0',
        n == 0 ==> r@.len() == 1,
{
    decimals_amount_to_numbers(n as nat);
}

/// A negative integer is written as a minus and what is written for its negation, and any
/// other as the number that it is.
pub proof fn integers_are_written(n: i32, r: String)
    requires
        call_ensures(signed_decimal_text, (n,), r),
    ensures
        r@ == signed_decimal(n as int),
        n >= 0 ==> r@ == decimal(n as nat),
        n < 0 ==> r@ == seq!['-'] + decimal((-n) as nat),
{
}

/// The characters of a text are taken one by one.
pub proof fn characters_are_taken(s: &str, v: Vec<char>)
    requires
        call_ensures(characters, (s,), v),
    ensures
        v@ == s@,
{
}

} // verus!
