//! A line of text that the user types into a named field.

use vstd::prelude::*;
use vstd::string::StrSliceExecFns;

verus! {

/// Which characters a field takes.
#[derive(Clone, Copy, Debug, PartialEq, Eq, Structural)]
pub enum Validator {
    /// The visible characters of ASCII, `!` to `~`.
    AsciiGraphic,
    /// The digits `0` to `9`.
    AsciiDigit,
}

impl Validator {
    /// The validator passes the character.
    pub open spec fn passes(self, c: char) -> bool {
        match self {
            Validator::AsciiGraphic => 0x21 <= c as u32 <= 0x7e,
            Validator::AsciiDigit => 0x30 <= c as u32 <= 0x39,
        }
    }

    /// Whether the validator passes the character.
    pub fn accepts(self, c: char) -> (r: bool)
        ensures
            r == self.passes(c),
    {
        let code: u32 = c as u32;
        match self {
            Validator::AsciiGraphic => 0x21 <= code && code <= 0x7e,
            Validator::AsciiDigit => 0x30 <= code && code <= 0x39,
        }
    }
}

/// Calls `String::push`, which appends the character to the end of the string.
#[verifier::external_body]
fn string_push(s: &mut String, c: char)
    ensures
        final(s)@ == old(s)@.push(c),
{
    s.push(c);
}

/// Calls `String::pop`, which removes the last character and returns it,
/// and returns `None` on an empty string.
#[verifier::external_body]
fn string_pop(s: &mut String) -> (r: Option<char>)
    ensures
        old(s)@.len() == 0 ==> r is None && final(s)@ == old(s)@,
        old(s)@.len() > 0 ==> r == Some(old(s)@.last()) && final(s)@ == old(s)@.drop_last(),
{
    s.pop()
}

/// The character of a digit.
pub open spec fn digit_char(d: nat) -> char {
    ((0x30 + d) as u8) as char
}

/// The digits of a number, the most significant first.
pub open spec fn digits(n: nat) -> Seq<char>
    decreases n,
{
    if n < 10 {
        seq![digit_char(n)]
    } else {
        digits(n / 10).push(digit_char(n % 10))
    }
}

/// The decimal form of a number: a minus sign if it is negative, then its digits.
pub open spec fn decimal(v: int) -> Seq<char> {
    if v < 0 {
        seq!['-'] + digits((-v) as nat)
    } else {
        digits(v as nat)
    }
}

/// Appends the digits of `n` to the string.
pub fn push_digits(s: &mut String, n: u32)
    ensures
        final(s)@ == old(s)@ + digits(n as nat),
    decreases n,
{
    if n >= 10 {
        push_digits(s, n / 10);
    }
    let d: u8 = (n % 10) as u8;
    string_push(s, (0x30u8 + d) as char);
    proof {
        if n >= 10 {
            assert(s@ =~= old(s)@ + digits(n as nat));
        } else {
            assert(s@ =~= old(s)@ + digits(n as nat));
        }
    }
}

/// The decimal form of a number.
pub fn decimal_string(v: i32) -> (s: String)
    ensures
        s@ == decimal(v as int),
{
    let mut s = String::new();
    if v < 0 {
        string_push(&mut s, '-');
        let magnitude: u32 = if v == i32::MIN { 2147483648u32 } else { (-v) as u32 };
        push_digits(&mut s, magnitude);
        proof {
            assert(s@ =~= decimal(v as int));
        }
    } else {
        push_digits(&mut s, v as u32);
        proof {
            assert(s@ =~= decimal(v as int));
        }
    }
    s
}

/// A named field and the text typed into it so far.
pub struct Input<'a> {
    name: &'a str,
    raw: String,
    validator: Validator,
}

impl<'a> Input<'a> {
    /// The name of the field.
    pub closed spec fn label(&self) -> Seq<char> {
        self.name@
    }

    /// The text typed so far.
    pub closed spec fn text(&self) -> Seq<char> {
        self.raw@
    }

    /// The characters that the field is meant for.
    pub closed spec fn kind(&self) -> Validator {
        self.validator
    }

    /// The name of the field.
    pub fn name(&self) -> (r: &'a str)
        ensures
            r@ == self.label(),
    {
        self.name
    }

    /// The text typed so far.
    pub fn raw(&self) -> (r: &str)
        ensures
            r@ == self.text(),
    {
        self.raw.as_str()
    }

    /// The characters that the field is meant for.
    pub fn validator(&self) -> (r: Validator)
        ensures
            r == self.kind(),
    {
        self.validator
    }

    /// Whether the field is meant for the character.
    pub fn accepts(&self, c: char) -> (r: bool)
        ensures
            r == self.kind().passes(c),
    {
        self.validator.accepts(c)
    }

    /// An empty field.
    pub fn new(name: &'a str, validator: Validator) -> (r: Input<'a>)
        ensures
            r.label() == name@,
            r.text() == Seq::<char>::empty(),
            r.kind() == validator,
    {
        Input { name, raw: String::new(), validator }
    }

    /// A field for visible ASCII that holds `value` already.
    pub fn new_str_ascii_default(name: &'a str, value: &str) -> (r: Input<'a>)
        ensures
            r.label() == name@,
            r.text() == value@,
            r.kind() == Validator::AsciiGraphic,
    {
        Input { name, raw: value.to_owned(), validator: Validator::AsciiGraphic }
    }

    /// An empty field for visible ASCII.
    pub fn new_str_ascii(name: &'a str) -> (r: Input<'a>)
        ensures
            r.label() == name@,
            r.text() == Seq::<char>::empty(),
            r.kind() == Validator::AsciiGraphic,
    {
        Input { name, raw: String::new(), validator: Validator::AsciiGraphic }
    }

    /// An empty field for digits.
    pub fn new_digit(name: &'a str) -> (r: Input<'a>)
        ensures
            r.label() == name@,
            r.text() == Seq::<char>::empty(),
            r.kind() == Validator::AsciiDigit,
    {
        Input { name, raw: String::new(), validator: Validator::AsciiDigit }
    }

    /// A field for digits that holds the decimal form of `value` already.
    pub fn new_digit_default(name: &'a str, value: i32) -> (r: Input<'a>)
        ensures
            r.label() == name@,
            r.text() == decimal(value as int),
            r.kind() == Validator::AsciiDigit,
    {
        Input { name, raw: decimal_string(value), validator: Validator::AsciiDigit }
    }

    /// Takes the last character off the text and returns it.
    pub fn pop(&mut self) -> (r: Option<char>)
        ensures
            final(self).label() == old(self).label(),
            final(self).kind() == old(self).kind(),
            old(self).text().len() == 0 ==> r is None && final(self).text() == old(self).text(),
            old(self).text().len() > 0 ==> r == Some(old(self).text().last()) && final(self).text()
                == old(self).text().drop_last(),
    {
        string_pop(&mut self.raw)
    }

    /// Puts the character at the end of the text.
    pub fn push(&mut self, c: char)
        ensures
            final(self).label() == old(self).label(),
            final(self).kind() == old(self).kind(),
            final(self).text() == old(self).text().push(c),
    {
        string_push(&mut self.raw, c);
    }
}

/// The character is a digit.
pub open spec fn is_digit(c: char) -> bool {
    Validator::AsciiDigit.passes(c)
}

/// The number that a digit stands for.
pub open spec fn digit_of(c: char) -> nat {
    (c as u32 - 0x30) as nat
}

/// Every character of the text is a digit.
pub open spec fn all_digits(s: Seq<char>) -> bool {
    forall|i: int| 0 <= i < s.len() ==> is_digit(#[trigger] s[i])
}

/// The number that a text of digits spells, the most significant digit first.
pub open spec fn digits_value(s: Seq<char>) -> nat
    decreases s.len(),
{
    if s.len() == 0 {
        0
    } else {
        digits_value(s.drop_last()) * 10 + digit_of(s.last())
    }
}

/// The number that a text spells: digits, or a minus sign and digits.
pub open spec fn spelled(s: Seq<char>) -> Option<int> {
    if s.len() > 0 && s[0] == '-' {
        if s.len() > 1 && all_digits(s.skip(1)) {
            Some(-(digits_value(s.skip(1)) as int))
        } else {
            None
        }
    } else if s.len() > 0 && all_digits(s) {
        Some(digits_value(s) as int)
    } else {
        None
    }
}

/// The number that a text spells, if it is one that an `i32` holds.
pub open spec fn number(s: Seq<char>) -> Option<i32> {
    match spelled(s) {
        Some(v) => if i32::MIN <= v <= i32::MAX {
            Some(v as i32)
        } else {
            None
        },
        None => None,
    }
}

/// A longer text of digits spells no smaller number.
pub proof fn lemma_digits_value_grows(s: Seq<char>, n: int)
    requires
        0 <= n <= s.len(),
    ensures
        digits_value(s.subrange(0, n)) <= digits_value(s),
    decreases s.len() - n,
{
    if n < s.len() {
        assert(s.subrange(0, n + 1).drop_last() =~= s.subrange(0, n));
        lemma_digits_value_grows(s, n + 1);
    } else {
        assert(s.subrange(0, n) =~= s);
    }
}

/// The digits of a number are digits, and spell the number.
pub proof fn lemma_digits(n: nat)
    ensures
        digits(n).len() >= 1,
        all_digits(digits(n)),
        digits_value(digits(n)) == n,
    decreases n,
{
    let d = digits(n);
    if n < 10 {
        assert(d.drop_last() =~= Seq::<char>::empty());
        assert(d.last() == digit_char(n));
        assert(digits_value(Seq::<char>::empty()) == 0);
        assert(digit_of(digit_char(n)) == n);
        assert(is_digit(digit_char(n)));
        assert(digits_value(d) == digits_value(d.drop_last()) * 10 + digit_of(d.last()));
    } else {
        lemma_digits(n / 10);
        let init = digits(n / 10);
        let last = digit_char(n % 10);
        assert(d.drop_last() =~= init);
        assert(d.last() == last);
        assert(digit_of(last) == n % 10);
        assert(is_digit(last));
        assert(digits_value(d) == digits_value(d.drop_last()) * 10 + digit_of(d.last()));
        assert forall|i: int| 0 <= i < d.len() implies is_digit(#[trigger] d[i]) by {
            if i < init.len() {
                assert(d[i] == init[i]);
            }
        }
    }
}

/// The decimal form of a number spells the number.
pub proof fn lemma_decimal_spells(v: i32)
    ensures
        number(decimal(v as int)) == Some(v),
{
    if v < 0 {
        let m = (-(v as int)) as nat;
        lemma_digits(m);
        let text = decimal(v as int);
        assert(text[0] == '-');
        assert(text.skip(1) =~= digits(m));
    } else {
        lemma_digits(v as nat);
        let text = decimal(v as int);
        assert(is_digit(text[0]));
    }
}

/// The number that the text of digits from `from` on spells, or `None`
/// where it is no text of digits or spells more than `limit`.
fn read_digits(s: &str, from: usize, limit: u64) -> (r: Option<u64>)
    requires
        from <= s@.len(),
        limit <= u32::MAX,
    ensures
        r is Some <==> (from < s@.len() && all_digits(s@.skip(from as int)) && digits_value(
            s@.skip(from as int),
        ) <= limit),
        r is Some ==> r->0 == digits_value(s@.skip(from as int)),
{
    let n: usize = s.unicode_len();
    if from >= n {
        return None;
    }
    let ghost text = s@.skip(from as int);
    let mut acc: u64 = 0;
    let mut i: usize = from;
    while i < n
        invariant
            from <= i <= n,
            n == s@.len(),
            text == s@.skip(from as int),
            limit <= u32::MAX,
            all_digits(text.subrange(0, i - from)),
            acc == digits_value(text.subrange(0, i - from)),
            acc <= limit,
        decreases n - i,
    {
        let c: char = s.get_char(i);
        let code: u32 = c as u32;
        proof {
            assert(text[i - from] == c);
            assert(text.subrange(0, i + 1 - from).drop_last() =~= text.subrange(0, i - from));
            assert(text.subrange(0, i + 1 - from).last() == c);
        }
        if !(0x30 <= code && code <= 0x39) {
            proof {
                assert(!is_digit(text[i - from]));
            }
            return None;
        }
        acc = acc * 10 + (code - 0x30) as u64;
        proof {
            assert forall|k: int| 0 <= k < i + 1 - from implies is_digit(
                #[trigger] text.subrange(0, i + 1 - from)[k],
            ) by {
                if k < i - from {
                    assert(text.subrange(0, i + 1 - from)[k] == text.subrange(0, i - from)[k]);
                }
            }
        }
        if acc > limit {
            proof {
                lemma_digits_value_grows(text, i + 1 - from);
            }
            return None;
        }
        i += 1;
    }
    proof {
        assert(text.subrange(0, i - from) =~= text);
    }
    Some(acc)
}

/// The number that the text spells, if it spells one that an `i32` holds:
/// digits, or a minus sign and digits.
pub fn parse_number(s: &str) -> (r: Option<i32>)
    ensures
        r == number(s@),
{
    let n: usize = s.unicode_len();
    if n == 0 {
        return None;
    }
    if s.get_char(0) == '-' {
        match read_digits(s, 1, 2147483648) {
            Some(m) => {
                if m == 2147483648 {
                    Some(i32::MIN)
                } else {
                    Some(-(m as i32))
                }
            },
            None => None,
        }
    } else {
        proof {
            assert(s@.skip(0) =~= s@);
        }
        match read_digits(s, 0, 2147483647) {
            Some(m) => Some(m as i32),
            None => None,
        }
    }
}

impl<'a> Input<'a> {
    /// The number that the text spells, if it spells one.
    pub fn value(&self) -> (r: Option<i32>)
        ensures
            r == number(self.text()),
    {
        parse_number(self.raw.as_str())
    }
}

} // verus!
