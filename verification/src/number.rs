//! Decimal numbers, kept as the digits that were written.
//!
//! A number is a sign, the digits before the point and the digits after it.
//! It is kept in lowest terms: no leading zero before the point except a
//! single `0`, and no trailing zero after the point, so that two numbers of one
//! value have the same digits.

use vstd::prelude::*;
use crate::text::{push_range, to_chars};

verus! {

/// One of `0` to `9`.
pub open spec fn is_digit(c: char) -> bool {
    '0' <= c && c <= '9'
}

/// Nothing but digits.
pub open spec fn all_digits(s: Seq<char>) -> bool {
    forall|i: int| 0 <= i < s.len() ==> is_digit(#[trigger] s[i])
}

/// The value of one decimal digit.
pub open spec fn digit_value(c: char) -> nat {
    if is_digit(c) {
        (c as int - '0' as int) as nat
    } else {
        0
    }
}

/// The value of a run of decimal digits.
pub open spec fn digits_value(s: Seq<char>) -> nat
    decreases s.len(),
{
    if s.len() == 0 {
        0
    } else {
        digits_value(s.drop_last()) * 10 + digit_value(s.last())
    }
}

/// The first index at or after `i` at which `s` holds `c`, or the length of
/// `s` if there is none.
pub open spec fn find_char(s: Seq<char>, i: int, c: char) -> int
    decreases s.len() - i,
{
    if i < 0 || i >= s.len() {
        s.len() as int
    } else if s[i] == c {
        i
    } else {
        find_char(s, i + 1, c)
    }
}

/// `s` without its leading zeros, but for the last character.
pub open spec fn trim_leading_zeros(s: Seq<char>) -> Seq<char>
    decreases s.len(),
{
    if s.len() > 1 && s[0] == '0' {
        trim_leading_zeros(s.drop_first())
    } else {
        s
    }
}

/// `s` without its trailing zeros.
pub open spec fn trim_trailing_zeros(s: Seq<char>) -> Seq<char>
    decreases s.len(),
{
    if s.len() > 0 && s.last() == '0' {
        trim_trailing_zeros(s.drop_last())
    } else {
        s
    }
}

/// A number literal without its sign.
pub open spec fn unsigned_part(s: Seq<char>) -> Seq<char> {
    if s.len() > 0 && (s[0] == '-' || s[0] == '+') {
        s.drop_first()
    } else {
        s
    }
}

/// What a literal holds before its first point.
pub open spec fn integer_digits(s: Seq<char>) -> Seq<char> {
    let body = unsigned_part(s);
    body.take(find_char(body, 0, '.'))
}

/// What a literal holds after its first point.
pub open spec fn fraction_digits(s: Seq<char>) -> Seq<char> {
    let body = unsigned_part(s);
    let dot = find_char(body, 0, '.');
    if dot < body.len() {
        body.skip(dot + 1)
    } else {
        Seq::empty()
    }
}

/// A number literal is an optional sign, one or more digits and, optionally,
/// a point and further digits.
pub open spec fn is_number_literal(s: Seq<char>) -> bool {
    &&& integer_digits(s).len() > 0
    &&& all_digits(integer_digits(s))
    &&& all_digits(fraction_digits(s))
}

/// The number that a literal stands for.
pub open spec fn literal_value(s: Seq<char>) -> NumberView {
    NumberView {
        negative: s.len() > 0 && s[0] == '-',
        integer: trim_leading_zeros(integer_digits(s)),
        fraction: trim_trailing_zeros(fraction_digits(s)),
    }
}

/// A number as a mathematical value: sign, digits before the point, digits
/// after the point.
pub struct NumberView {
    pub negative: bool,
    pub integer: Seq<char>,
    pub fraction: Seq<char>,
}

impl NumberView {
    /// Digits only, in lowest terms.
    pub open spec fn wf(self) -> bool {
        &&& all_digits(self.integer)
        &&& all_digits(self.fraction)
        &&& self.integer.len() >= 1
        &&& self.integer.len() > 1 ==> self.integer[0] != '0'
        &&& self.fraction.len() > 0 ==> self.fraction.last() != '0'
    }

    /// The number has a part after the point that is not zero.
    pub open spec fn has_fraction(self) -> bool {
        exists|i: int| 0 <= i < self.fraction.len() && #[trigger] self.fraction[i] != '0'
    }

    /// The magnitude is zero.
    pub open spec fn is_zero(self) -> bool {
        &&& forall|i: int| 0 <= i < self.integer.len() ==> #[trigger] self.integer[i] == '0'
        &&& !self.has_fraction()
    }

    /// The number without what follows the point.
    pub open spec fn truncated(self) -> int {
        if self.negative {
            -(digits_value(self.integer) as int)
        } else {
            digits_value(self.integer) as int
        }
    }

    /// The truncated number, or the nearest `i64` where it does not fit.
    pub open spec fn to_i64(self) -> i64 {
        if self.truncated() < i64::MIN {
            i64::MIN
        } else if self.truncated() > i64::MAX {
            i64::MAX
        } else {
            self.truncated() as i64
        }
    }

    /// The number in decimal notation: `-` if negative, the digits before the
    /// point, and the point and the digits after it if there are any.
    pub open spec fn text(self) -> Seq<char> {
        (if self.negative {
            seq!['-']
        } else {
            Seq::<char>::empty()
        }) + self.integer + (if self.fraction.len() > 0 {
            seq!['.'] + self.fraction
        } else {
            Seq::<char>::empty()
        })
    }

    /// Two numbers have the same value.
    pub open spec fn same_value(self, other: NumberView) -> bool {
        &&& self.integer == other.integer
        &&& self.fraction == other.fraction
        &&& (self.negative == other.negative || self.is_zero())
    }
}

/// Where `c` stands at `j` and nowhere from `i` up to `j`, it is first
/// found at `j`.
pub proof fn lemma_find_char_is(s: Seq<char>, i: int, j: int, c: char)
    requires
        0 <= i <= j <= s.len(),
        forall|k: int| i <= k < j ==> s[k] != c,
        j < s.len() ==> s[j] == c,
    ensures
        find_char(s, i, c) == j,
    decreases j - i,
{
    if i < j {
        lemma_find_char_is(s, i + 1, j, c);
    }
}

/// Digits without their leading zeros are digits without a leading zero.
pub proof fn lemma_trim_leading_zeros(s: Seq<char>)
    requires
        s.len() > 0,
        all_digits(s),
    ensures
        all_digits(trim_leading_zeros(s)),
        trim_leading_zeros(s).len() >= 1,
        trim_leading_zeros(s).len() > 1 ==> trim_leading_zeros(s)[0] != '0',
    decreases s.len(),
{
    if s.len() > 1 && s[0] == '0' {
        lemma_trim_leading_zeros(s.drop_first());
    }
}

/// Digits without their trailing zeros are digits without a trailing zero.
pub proof fn lemma_trim_trailing_zeros(s: Seq<char>)
    requires
        all_digits(s),
    ensures
        all_digits(trim_trailing_zeros(s)),
        trim_trailing_zeros(s).len() > 0 ==> trim_trailing_zeros(s).last() != '0',
    decreases s.len(),
{
    if s.len() > 0 && s.last() == '0' {
        lemma_trim_trailing_zeros(s.drop_last());
    }
}

/// What a number literal stands for is in lowest terms.
pub proof fn lemma_literal_value_wf(s: Seq<char>)
    requires
        is_number_literal(s),
    ensures
        literal_value(s).wf(),
{
    lemma_trim_leading_zeros(integer_digits(s));
    lemma_trim_trailing_zeros(fraction_digits(s));
}

/// A number in lowest terms, written out, is a literal that stands for that
/// number.
pub proof fn lemma_number_text_reads_back(n: NumberView)
    requires
        n.wf(),
    ensures
        is_number_literal(n.text()),
        literal_value(n.text()) == n,
{
    let t = n.text();
    let tail = if n.fraction.len() > 0 {
        seq!['.'] + n.fraction
    } else {
        Seq::<char>::empty()
    };
    let body = n.integer + tail;
    if n.negative {
        assert(t.drop_first() =~= body);
    }
    let d = n.integer.len() as int;
    lemma_find_char_is(body, 0, d, '.');
    assert(integer_digits(t) =~= n.integer);
    assert(fraction_digits(t) =~= n.fraction);
}

/// A number in lowest terms, written out, is an atom that reads as a number:
/// it holds digits, `-` and `.` only, and begins with a digit or with `-`
/// and a digit.
pub proof fn lemma_number_text_chars(n: NumberView)
    requires
        n.wf(),
    ensures
        n.text().len() > 0,
        forall|i: int|
            0 <= i < n.text().len() ==> is_digit(#[trigger] n.text()[i]) || n.text()[i] == '-'
                || n.text()[i] == '.',
        is_digit(n.text()[0]) || (n.text()[0] == '-' && n.text().len() > 1 && is_digit(
            n.text()[1],
        )),
{
    let t = n.text();
    let signed: int = if n.negative {
        1
    } else {
        0
    };
    assert forall|i: int| 0 <= i < t.len() implies is_digit(#[trigger] t[i]) || t[i] == '-'
        || t[i] == '.' by {
        if signed <= i < signed + n.integer.len() {
            assert(t[i] == n.integer[i - signed]);
        } else if i > signed + n.integer.len() {
            assert(t[i] == n.fraction[i - signed - n.integer.len() - 1]);
        }
    }
    assert(t[signed] == n.integer[0]);
}

/// A decimal number.
#[derive(Debug)]
pub struct Number {
    negative: bool,
    integer: Vec<char>,
    fraction: Vec<char>,
}

impl View for Number {
    type V = NumberView;

    closed spec fn view(&self) -> NumberView {
        NumberView { negative: self.negative, integer: self.integer@, fraction: self.fraction@ }
    }
}

/// Whether the character is a digit.
pub(crate) fn is_digit_char(c: char) -> (r: bool)
    ensures
        r == is_digit(c),
{
    '0' <= c && c <= '9'
}

/// The value of a digit; zero for any other character.
fn digit_of_char(c: char) -> (d: u8)
    ensures
        d == digit_value(c),
        d <= 9,
{
    if is_digit_char(c) {
        ((c as u32) - ('0' as u32)) as u8
    } else {
        0
    }
}

/// A copy of the characters.
fn copy_chars(v: &Vec<char>) -> (r: Vec<char>)
    ensures
        r@ == v@,
{
    let mut out: Vec<char> = Vec::new();
    let mut i: usize = 0;
    while i < v.len()
        invariant
            i <= v.len(),
            out@ == v@.take(i as int),
        decreases v.len() - i,
    {
        out.push(v[i]);
        i += 1;
    }
    out
}

/// Whether the two hold the same characters.
fn same_chars(a: &Vec<char>, b: &Vec<char>) -> (r: bool)
    ensures
        r == (a@ == b@),
{
    if a.len() != b.len() {
        return false;
    }
    let mut i: usize = 0;
    while i < a.len()
        invariant
            i <= a.len(),
            a.len() == b.len(),
            a@.take(i as int) == b@.take(i as int),
        decreases a.len() - i,
    {
        if a[i] != b[i] {
            return false;
        }
        i += 1;
    }
    assert(a@.take(a.len() as int) == a@);
    assert(b@.take(b.len() as int) == b@);
    true
}

/// Whether `v[from..to]` holds digits only.
fn digits_only(v: &Vec<char>, from: usize, to: usize) -> (r: bool)
    requires
        from <= to <= v.len(),
    ensures
        r == all_digits(v@.subrange(from as int, to as int)),
{
    let mut i: usize = from;
    while i < to
        invariant
            from <= i <= to <= v.len(),
            all_digits(v@.subrange(from as int, i as int)),
        decreases to - i,
    {
        if !is_digit_char(v[i]) {
            assert(v@.subrange(from as int, to as int)[i - from] == v@[i as int]);
            return false;
        }
        i += 1;
    }
    true
}

impl Clone for Number {
    fn clone(&self) -> (r: Self)
        ensures
            r@ == self@,
    {
        Number {
            negative: self.negative,
            integer: copy_chars(&self.integer),
            fraction: copy_chars(&self.fraction),
        }
    }
}

impl PartialEq for Number {
    fn eq(&self, other: &Self) -> (r: bool) {
        same_chars(&self.integer, &other.integer) && same_chars(&self.fraction, &other.fraction)
            && (self.negative == other.negative || self.is_zero())
    }
}

impl vstd::std_specs::cmp::PartialEqSpecImpl for Number {
    open spec fn obeys_eq_spec() -> bool {
        true
    }

    open spec fn eq_spec(&self, other: &Self) -> bool {
        self@.same_value(other@)
    }
}

impl Number {
    /// Whether the number is zero.
    pub fn is_zero(&self) -> (r: bool)
        ensures
            r == self@.is_zero(),
    {
        let mut i: usize = 0;
        while i < self.integer.len()
            invariant
                i <= self.integer.len(),
                forall|k: int| 0 <= k < i ==> self.integer@[k] == '0',
            decreases self.integer.len() - i,
        {
            if self.integer[i] != '0' {
                assert(self@.integer[i as int] != '0');
                return false;
            }
            i += 1;
        }
        !self.has_fraction()
    }

    /// Reads a number literal: an optional sign, digits, and optionally a
    /// point and further digits. `None` if `text` is no such literal.
    pub fn from_chars(text: &Vec<char>) -> (r: Option<Number>)
        ensures
            r is Some <==> is_number_literal(text@),
            r matches Some(n) ==> n@ == literal_value(text@) && n@.wf(),
    {
        let len = text.len();
        let signed = len > 0 && (text[0] == '-' || text[0] == '+');
        let negative = len > 0 && text[0] == '-';
        let start: usize = if signed { 1 } else { 0 };
        let ghost body = unsigned_part(text@);
        // the first point
        let mut dot: usize = start;
        while dot < len && text[dot] != '.'
            invariant
                start <= dot <= len == text.len(),
                body == text@.subrange(start as int, len as int),
                find_char(body, 0, '.') == find_char(body, dot - start, '.'),
            decreases len - dot,
        {
            dot += 1;
        }
        assert(integer_digits(text@) == text@.subrange(start as int, dot as int));
        let after: usize = if dot < len { dot + 1 } else { len };
        assert(fraction_digits(text@) == text@.subrange(after as int, len as int));
        if dot == start || !digits_only(text, start, dot) || !digits_only(text, after, len) {
            return None;
        }
        // leading zeros
        let mut first: usize = start;
        while first + 1 < dot && text[first] == '0'
            invariant
                start <= first < dot <= text.len(),
                trim_leading_zeros(text@.subrange(start as int, dot as int))
                    == trim_leading_zeros(text@.subrange(first as int, dot as int)),
            decreases dot - first,
        {
            assert(text@.subrange(first as int, dot as int).drop_first() == text@.subrange(
                first + 1,
                dot as int,
            ));
            first += 1;
        }
        // trailing zeros
        let mut last: usize = len;
        while last > after && text[last - 1] == '0'
            invariant
                after <= last <= len == text.len(),
                trim_trailing_zeros(text@.subrange(after as int, len as int))
                    == trim_trailing_zeros(text@.subrange(after as int, last as int)),
            decreases last,
        {
            assert(text@.subrange(after as int, last as int).drop_last() == text@.subrange(
                after as int,
                last - 1,
            ));
            last -= 1;
        }
        let integer = crate::text::copy_range(text, first, dot);
        let fraction = crate::text::copy_range(text, after, last);
        let n = Number { negative, integer, fraction };
        proof {
            let i = text@.subrange(first as int, dot as int);
            assert forall|k: int| 0 <= k < i.len() implies is_digit(#[trigger] i[k]) by {
                assert(i[k] == text@.subrange(start as int, dot as int)[k + first - start]);
            }
        }
        Some(n)
    }

    /// Reads a number literal, as `from_chars` does.
    pub fn parse(text: &str) -> (r: Option<Number>)
        ensures
            r is Some <==> is_number_literal(text@),
            r matches Some(n) ==> n@ == literal_value(text@) && n@.wf(),
    {
        let chars = to_chars(text);
        Number::from_chars(&chars)
    }

    /// Whether the number was written with `-`.
    pub fn is_negative(&self) -> (r: bool)
        ensures
            r == self@.negative,
    {
        self.negative
    }

    /// Whether the part after the point is other than zero.
    pub fn has_fraction(&self) -> (r: bool)
        ensures
            r == self@.has_fraction(),
    {
        let mut i: usize = 0;
        while i < self.fraction.len()
            invariant
                i <= self.fraction.len(),
                forall|k: int| 0 <= k < i ==> self.fraction@[k] == '0',
            decreases self.fraction.len() - i,
        {
            if self.fraction[i] != '0' {
                assert(self@.fraction[i as int] != '0');
                return true;
            }
            i += 1;
        }
        false
    }

    /// The number without what follows the point, as an `i64`; where it does
    /// not fit, the nearest `i64`.
    pub fn to_i64(&self) -> (r: i64)
        ensures
            r == self@.to_i64(),
    {
        let cap: u128 = 0x8000_0000_0000_0000;
        let mut acc: u128 = 0;
        let mut i: usize = 0;
        while i < self.integer.len()
            invariant
                i <= self.integer.len(),
                cap == 0x8000_0000_0000_0000,
                acc <= cap,
                acc == if digits_value(self.integer@.take(i as int)) < cap {
                    digits_value(self.integer@.take(i as int))
                } else {
                    cap as nat
                },
            decreases self.integer.len() - i,
        {
            let d = digit_of_char(self.integer[i]);
            assert(self.integer@.take(i + 1).drop_last() == self.integer@.take(i as int));
            let next: u128 = acc * 10 + d as u128;
            acc = if next < cap { next } else { cap };
            i += 1;
        }
        assert(self.integer@.take(self.integer.len() as int) == self.integer@);
        if self.negative {
            if acc >= cap {
                i64::MIN
            } else {
                -(acc as i64)
            }
        } else {
            if acc >= cap {
                i64::MAX
            } else {
                acc as i64
            }
        }
    }

    /// Appends the number in decimal notation.
    pub fn push_text(&self, out: &mut String)
        ensures
            final(out)@ == old(out)@ + self@.text(),
    {
        if self.negative {
            out.push('-');
        }
        push_range(out, &self.integer, 0, self.integer.len());
        if self.fraction.len() > 0 {
            out.push('.');
            push_range(out, &self.fraction, 0, self.fraction.len());
        }
    }

    /// The number in decimal notation.
    pub fn to_text(&self) -> (r: String)
        ensures
            r@ == self@.text(),
    {
        let mut out = String::new();
        self.push_text(&mut out);
        out
    }
}

} // verus!
