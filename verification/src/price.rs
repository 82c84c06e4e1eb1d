//! Prices as exact decimal numbers.
//!
//! A price is kept as the decimal digits it was written with, so that no
//! amount is rounded and none is too large: `19.99` is the digits `1 9 9 9`
//! with two of them after the decimal point.

use vstd::prelude::*;
use vstd::string::*;
use crate::text::push_char;

verus! {

/// Whether `c` is one of the ten ASCII digits.
pub open spec fn is_digit(c: char) -> bool {
    0x30 <= c as u32 <= 0x39
}

/// The number that the ASCII digit `c` stands for.
pub open spec fn digit_value(c: char) -> u8 {
    (c as u32 - 0x30) as u8
}

/// The ASCII digit that stands for `d`.
pub open spec fn digit_char(d: u8) -> char {
    (d + 0x30) as u8 as char
}

/// Whether `c` belongs to a price: a digit or the decimal point.
pub open spec fn is_price_char(c: char) -> bool {
    is_digit(c) || c == '.'
}

/// The characters of `raw` that belong to a price, in their order.  Currency
/// signs, thousands separators, blanks and whatever else are left out.
pub open spec fn cleaned(raw: Seq<char>) -> Seq<char> {
    raw.filter(|c: char| is_price_char(c))
}

/// Whether `text` holds digits and nothing else.
pub open spec fn all_digits(text: Seq<char>) -> bool {
    forall|i: int| 0 <= i < text.len() ==> is_digit(#[trigger] text[i])
}

/// The numbers that the digits of `text` stand for, one for one.
pub open spec fn digit_values(text: Seq<char>) -> Seq<u8> {
    Seq::new(text.len(), |i: int| digit_value(text[i]))
}

/// The characters that write the digits `digits`, one for one.
pub open spec fn digit_chars(digits: Seq<u8>) -> Seq<char> {
    Seq::new(digits.len(), |i: int| digit_char(digits[i]))
}

/// How many characters of `text` stand before its first decimal point; all of
/// them, if it has none.
pub open spec fn whole_len(text: Seq<char>) -> nat
    decreases text.len(),
{
    if text.len() == 0 || text[0] == '.' {
        0
    } else {
        1 + whole_len(text.drop_first())
    }
}

/// Ten to the power of `n`.
pub open spec fn pow10(n: nat) -> nat
    decreases n,
{
    if n == 0 {
        1
    } else {
        10 * pow10((n - 1) as nat)
    }
}

/// The number that `digits` write, most significant digit first.
pub open spec fn digits_value(digits: Seq<u8>) -> nat
    decreases digits.len(),
{
    if digits.len() == 0 {
        0
    } else {
        digits_value(digits.drop_last()) * 10 + digits.last() as nat
    }
}

/// `digits` without the zeros it starts with.
pub open spec fn significant(digits: Seq<u8>) -> Seq<u8>
    decreases digits.len(),
{
    if digits.len() > 0 && digits[0] == 0 {
        significant(digits.drop_first())
    } else {
        digits
    }
}

/// The `len` lowest decimal digits of `value`, most significant first.
pub open spec fn number_digits(value: nat, len: nat) -> Seq<u8>
    decreases len,
{
    if len == 0 {
        Seq::empty()
    } else {
        number_digits(value / 10, (len - 1) as nat).push((value % 10) as u8)
    }
}

/// What a [`Price`] is: decimal digits, most significant first, the last
/// `scale` of which stand after the decimal point.
pub struct PriceView {
    pub digits: Seq<u8>,
    pub scale: nat,
}

impl PriceView {
    /// Every digit is at most nine, and the decimal point stands among them.
    pub open spec fn wf(self) -> bool {
        &&& self.scale <= self.digits.len()
        &&& forall|i: int| 0 <= i < self.digits.len() ==> #[trigger] self.digits[i] <= 9
    }

    /// The price without its decimal point: the amount is
    /// `units() / 10^scale`.
    pub open spec fn units(self) -> nat {
        digits_value(self.digits)
    }

    /// The price of nothing.
    pub open spec fn zero() -> PriceView {
        PriceView { digits: Seq::empty(), scale: 0 }
    }

    /// The price after `percent` percent have been taken off: the number that
    /// the digits write, times `100 - percent`, written with two more digits,
    /// both of them after the decimal point.
    pub open spec fn discounted(self, percent: nat) -> PriceView {
        PriceView {
            digits: number_digits(
                (self.units() * (100 - percent)) as nat,
                self.digits.len() + 2,
            ),
            scale: self.scale + 2,
        }
    }

    /// How the price is written: the whole part without leading zeros (`0`
    /// if nothing is left of it), then, if there are digits after the decimal
    /// point, the point and all of them.
    pub open spec fn text(self) -> Seq<char> {
        let whole = significant(self.digits.take(self.digits.len() - self.scale));
        let head = if whole.len() == 0 {
            seq!['0']
        } else {
            digit_chars(whole)
        };
        if self.scale == 0 {
            head
        } else {
            head + seq!['.'] + digit_chars(self.digits.skip(self.digits.len() - self.scale))
        }
    }
}

/// The price that `text` writes, if it writes one: digits with at most one
/// decimal point among them, before them or after them, and at least one
/// digit.  Nothing else is a price: no sign, no exponent, no blank.
pub open spec fn parse_decimal(text: Seq<char>) -> Option<PriceView> {
    let w = whole_len(text) as int;
    let whole = text.take(w);
    let fraction = if w < text.len() {
        text.skip(w + 1)
    } else {
        Seq::empty()
    };
    if all_digits(whole) && all_digits(fraction) && whole.len() + fraction.len() > 0 {
        Some(PriceView { digits: digit_values(whole + fraction), scale: fraction.len() })
    } else {
        None
    }
}

/// The price that a field of the price list holds: what is left of the field
/// once everything but digits and decimal points is taken out, read as a
/// decimal number; zero where that is no number.
pub open spec fn price_of_field(raw: Seq<char>) -> PriceView {
    match parse_decimal(cleaned(raw)) {
        Some(price) => price,
        None => PriceView::zero(),
    }
}

/// `whole_len` is the place of the first decimal point.
pub proof fn lemma_whole_len(text: Seq<char>, n: int)
    requires
        0 <= n <= text.len(),
        forall|j: int| 0 <= j < n ==> text[j] != '.',
    ensures
        n <= whole_len(text) <= text.len(),
        (n == text.len() || text[n] == '.') ==> whole_len(text) == n,
    decreases n,
{
    if n > 0 {
        lemma_whole_len(text.drop_first(), n - 1);
    } else {
        lemma_whole_len_bound(text);
    }
}

/// `whole_len` never exceeds the length of the text.
pub proof fn lemma_whole_len_bound(text: Seq<char>)
    ensures
        whole_len(text) <= text.len(),
    decreases text.len(),
{
    if text.len() > 0 && text[0] != '.' {
        lemma_whole_len_bound(text.drop_first());
    }
}

/// Writing one more digit in front adds that digit times the power of ten
/// of its place.
pub proof fn lemma_value_prepend(first: u8, rest: Seq<u8>)
    ensures
        digits_value(seq![first] + rest) == first as nat * pow10(rest.len()) + digits_value(rest),
    decreases rest.len(),
{
    let all = seq![first] + rest;
    if rest.len() == 0 {
        assert(digits_value(all.drop_last()) == 0);
        assert(first as nat * 1 == first as nat);
    } else {
        let shorter = rest.drop_last();
        assert(all.drop_last() =~= seq![first] + shorter);
        lemma_value_prepend(first, shorter);
        let p = pow10(shorter.len());
        assert((first as nat * p + digits_value(shorter)) * 10 == first as nat * (10 * p)
            + digits_value(shorter) * 10) by (nonlinear_arith);
    }
}

/// Leading zeros do not count: `significant` is what follows them.
pub proof fn lemma_significant(digits: Seq<u8>, n: int)
    requires
        0 <= n <= digits.len(),
        forall|j: int| 0 <= j < n ==> digits[j] == 0,
        n == digits.len() || digits[n] != 0,
    ensures
        significant(digits) == digits.skip(n),
    decreases n,
{
    if n > 0 {
        lemma_significant(digits.drop_first(), n - 1);
    }
}

/// Digits are the digits of the number they write.
pub proof fn lemma_number_digits_of_value(digits: Seq<u8>)
    requires
        forall|i: int| 0 <= i < digits.len() ==> #[trigger] digits[i] <= 9,
    ensures
        number_digits(digits_value(digits), digits.len()) == digits,
    decreases digits.len(),
{
    if digits.len() > 0 {
        lemma_number_digits_of_value(digits.drop_last());
    }
}

/// A number below `10^len` is written by its `len` lowest digits.
pub proof fn lemma_value_of_number_digits(value: nat, len: nat)
    requires
        value < pow10(len),
    ensures
        digits_value(number_digits(value, len)) == value,
        number_digits(value, len).len() == len,
        forall|i: int| 0 <= i < len ==> #[trigger] number_digits(value, len)[i] <= 9,
    decreases len,
{
    if len > 0 {
        let shorter = number_digits(value / 10, (len - 1) as nat);
        lemma_value_of_number_digits(value / 10, (len - 1) as nat);
        let all = shorter.push((value % 10) as u8);
        assert(all.drop_last() =~= shorter);
    }
}

/// Digits of which none is above nine write a number below ten to the power
/// of their count.
pub proof fn lemma_value_bound(digits: Seq<u8>)
    requires
        forall|i: int| 0 <= i < digits.len() ==> #[trigger] digits[i] <= 9,
    ensures
        digits_value(digits) < pow10(digits.len()),
    decreases digits.len(),
{
    if digits.len() > 0 {
        lemma_value_bound(digits.drop_last());
    }
}

/// Taking `percent` percent off a price multiplies it by `100 - percent`
/// hundredths, exactly: the sale price has two more digits after the decimal
/// point and reads as the list price times `100 - percent`.  A list price of
/// zero gives a sale price of zero, and no list price is too large.
pub proof fn lemma_discounted_amount(list: PriceView, percent: nat)
    requires
        list.wf(),
        percent <= 100,
    ensures
        list.discounted(percent).wf(),
        list.discounted(percent).scale == list.scale + 2,
        list.discounted(percent).digits.len() == list.digits.len() + 2,
        list.discounted(percent).units() == list.units() * (100 - percent),
        list.units() == 0 ==> list.discounted(percent).units() == 0,
{
    let n = list.digits.len();
    let units = list.units();
    let factor = (100 - percent) as nat;
    lemma_value_bound(list.digits);
    assert(pow10(n + 2) == 100 * pow10(n)) by {
        assert(pow10((n + 1) as nat) == 10 * pow10(n));
    }
    assert(units * factor < 100 * pow10(n)) by (nonlinear_arith)
        requires
            units < pow10(n),
            factor <= 100,
    ;
    lemma_value_of_number_digits(units * factor, n + 2);
    assert(units == 0 ==> units * factor == 0) by (nonlinear_arith);
}

/// The price of a field is a number, whatever the field holds.
pub proof fn lemma_price_of_field_wf(raw: Seq<char>)
    ensures
        price_of_field(raw).wf(),
{
    let text = cleaned(raw);
    if parse_decimal(text) is Some {
        let w = whole_len(text) as int;
        lemma_whole_len_bound(text);
        let whole = text.take(w);
        let fraction = if w < text.len() {
            text.skip(w + 1)
        } else {
            Seq::empty()
        };
        let digits = digit_values(whole + fraction);
        assert forall|i: int| 0 <= i < digits.len() implies #[trigger] digits[i] <= 9 by {
            assert(is_digit((whole + fraction)[i]));
        }
    }
}

/// Zeros in front change nothing of the number that digits write, whatever
/// follows them.
pub proof fn lemma_significant_value(digits: Seq<u8>, more: Seq<u8>)
    ensures
        digits_value(significant(digits) + more) == digits_value(digits + more),
        significant(digits).len() <= digits.len(),
        significant(digits) == digits.skip(digits.len() - significant(digits).len()),
    decreases digits.len(),
{
    if digits.len() > 0 && digits[0] == 0 {
        let rest = digits.drop_first();
        lemma_significant_value(rest, more);
        assert(digits + more =~= seq![0u8] + (rest + more));
        lemma_value_prepend(0u8, rest + more);
    }
}

/// What [`PriceView::text`] writes reads back as the same price: the same
/// number with as many digits after the decimal point.  Only zeros in front
/// of the whole part are not written.
pub proof fn lemma_text_reads_back(price: PriceView)
    requires
        price.wf(),
    ensures
        parse_decimal(price.text()) matches Some(read) && {
            &&& read.wf()
            &&& read.scale == price.scale
            &&& read.units() == price.units()
        },
{
    let n = price.digits.len() as int;
    let w = n - price.scale;
    let whole = price.digits.take(w);
    let fraction = price.digits.skip(w);
    let kept = significant(whole);
    lemma_significant_value(whole, fraction);
    let head_digits = if kept.len() == 0 {
        seq![0u8]
    } else {
        kept
    };
    let head = digit_chars(head_digits);
    let tail = digit_chars(fraction);
    let text = price.text();
    // The digits that are written are digits of the price, or one zero.
    assert forall|i: int| 0 <= i < head_digits.len() implies #[trigger] head_digits[i] <= 9 by {
        if kept.len() > 0 {
            assert(kept[i] == whole[whole.len() - kept.len() + i]);
        }
    }
    // The whole part is written without a decimal point, so that the first
    // one, if there is any, is the one that follows it.
    assert forall|i: int| 0 <= i < head.len() implies text[i] != '.' && is_digit(text[i]) by {
        assert(text[i] == digit_char(head_digits[i]));
    }
    lemma_whole_len(text, head.len() as int);
    assert(text.take(head.len() as int) =~= head);
    let read_fraction = if head.len() < text.len() {
        text.skip(head.len() as int + 1)
    } else {
        Seq::empty()
    };
    assert(read_fraction =~= if price.scale == 0 {
        Seq::<char>::empty()
    } else {
        tail
    });
    assert(all_digits(read_fraction));
    // Digit by digit, what is read is what was written.
    assert(digit_values(head + read_fraction) =~= head_digits + fraction);
    assert(whole + fraction =~= price.digits);
    if kept.len() == 0 {
        lemma_value_prepend(0u8, fraction);
    }
}

/// A price: an exact decimal number that is not negative.
#[derive(Debug, PartialEq, Eq)]
pub struct Price {
    digits: Vec<u8>,
    scale: usize,
}

impl View for Price {
    type V = PriceView;

    closed spec fn view(&self) -> PriceView {
        PriceView { digits: self.digits@, scale: self.scale as nat }
    }
}

impl Clone for Price {
    fn clone(&self) -> (copy: Price)
        ensures
            copy@ == self@,
    {
        proof {
            use_type_invariant(self);
        }
        let digits = self.digits.clone();
        Price { digits, scale: self.scale }
    }
}

impl Price {
    #[verifier::type_invariant]
    spec fn well_formed(&self) -> bool {
        self@.wf()
    }

    /// The price of nothing.
    pub fn zero() -> (price: Price)
        ensures
            price@ == PriceView::zero(),
            price@.wf(),
    {
        Price { digits: Vec::new(), scale: 0 }
    }

    /// Reads a decimal number.  `None` where `text` is not one.
    pub fn parse(text: &str) -> (parsed: Option<Price>)
        ensures
            match parsed {
                Some(price) => parse_decimal(text@) == Some(price@) && price@.wf(),
                None => parse_decimal(text@) is None,
            },
    {
        broadcast use group_string_axioms;
        let mut digits: Vec<u8> = Vec::new();
        let mut point: Option<usize> = None;
        for c in it: text.chars()
            invariant
                it.seq() == text@,
                forall|j: int| 0 <= j < digits.len() ==> #[trigger] digits[j] <= 9,
                match point {
                    None => {
                        &&& digits.len() == it.index()
                        &&& all_digits(text@.take(it.index()))
                        &&& digits@ == digit_values(text@.take(it.index()))
                    },
                    Some(w) => {
                        &&& w < it.index()
                        &&& whole_len(text@) == w
                        &&& digits.len() == it.index() - 1
                        &&& all_digits(text@.take(w as int))
                        &&& all_digits(text@.subrange(w + 1, it.index()))
                        &&& digits@ == digit_values(
                            text@.take(w as int) + text@.subrange(w + 1, it.index()),
                        )
                    },
                },
        {
            let ghost i = it.index();
            let code: u32 = c as u32;
            if 0x30 <= code && code <= 0x39 {
                digits.push((code - 0x30) as u8);
            } else if c == '.' && point.is_none() {
                proof {
                    assert forall|j: int| 0 <= j < i implies text@[j] != '.' by {
                        assert(is_digit(text@.take(i)[j]));
                    }
                    lemma_whole_len(text@, i);
                }
                point = Some(digits.len());
            } else {
                proof {
                    match point {
                        None => {
                            assert forall|j: int| 0 <= j < i + 1 implies text@[j] != '.' by {
                                if j < i {
                                    assert(is_digit(text@.take(i)[j]));
                                }
                            }
                            lemma_whole_len(text@, i + 1);
                            assert(text@.take(whole_len(text@) as int)[i] == c);
                        },
                        Some(w) => {
                            assert(text@.skip(w + 1)[i - w - 1] == c);
                        },
                    }
                }
                return None;
            }
        }
        let ghost n = text@.len() as int;
        proof {
            match point {
                None => {
                    assert forall|j: int| 0 <= j < n implies text@[j] != '.' by {
                        assert(is_digit(text@.take(n)[j]));
                    }
                    lemma_whole_len(text@, n);
                },
                Some(_) => {},
            }
        }
        if digits.len() == 0 {
            return None;
        }
        let scale: usize = match point {
            None => 0,
            Some(w) => digits.len() - w,
        };
        Some(Price { digits, scale })
    }

    /// The price after `percent` percent have been taken off it, to the last
    /// digit: nothing is rounded, and no price is too large.
    pub fn discounted(&self, percent: u8) -> (sale: Price)
        requires
            percent <= 100,
        ensures
            sale@ == self@.discounted(percent as nat),
            sale@.wf(),
    {
        proof {
            use_type_invariant(self);
        }
        let factor: u32 = (100 - percent) as u32;
        let n = self.digits.len();
        let mut out: Vec<u8> = Vec::new();
        out.push(0);
        out.push(0);
        let mut filled: usize = 0;
        while filled < n
            invariant
                filled <= n,
                out.len() == filled + 2,
                forall|j: int| 0 <= j < out.len() ==> #[trigger] out[j] <= 9,
            decreases n - filled,
        {
            out.push(0);
            filled = filled + 1;
        }
        // Long multiplication from the last digit to the first: the digits
        // done so far, with the carry in front of them, are the product of
        // the digits read so far.
        let mut i = n;
        let mut carry: u32 = 0;
        assert(self.digits@.subrange(n as int, n as int) =~= Seq::<u8>::empty());
        while i > 0
            invariant
                i <= n,
                n == self.digits.len(),
                out.len() == n + 2,
                carry < 100,
                factor <= 100,
                forall|j: int| 0 <= j < out.len() ==> #[trigger] out[j] <= 9,
                forall|j: int| 0 <= j < n ==> #[trigger] self.digits[j] <= 9,
                digits_value(out@.subrange(i + 2, n + 2)) + carry * pow10((n - i) as nat)
                    == factor * digits_value(self.digits@.subrange(i as int, n as int)),
            decreases i,
        {
            let ghost done_out = out@.subrange(i + 2, n + 2);
            let ghost done_in = self.digits@.subrange(i as int, n as int);
            let ghost place = pow10((n - i) as nat);
            let ghost old_carry = carry;
            i = i - 1;
            let digit: u32 = self.digits[i] as u32;
            assert(digit * factor <= 900) by (nonlinear_arith)
                requires
                    digit <= 9,
                    factor <= 100,
            ;
            let product: u32 = digit * factor + carry;
            let low: u8 = (product % 10) as u8;
            out.set(i + 2, low);
            carry = product / 10;
            proof {
                assert(out@.subrange(i + 2, n + 2) =~= seq![low] + done_out);
                assert(self.digits@.subrange(i as int, n as int) =~= seq![self.digits[i as int]]
                    + done_in);
                lemma_value_prepend(low, done_out);
                lemma_value_prepend(self.digits[i as int], done_in);
                let a = digits_value(done_out);
                let b = digits_value(done_in);
                let lo = low as nat;
                let ca = carry as nat;
                let d = digit as nat;
                let f = factor as nat;
                let oc = old_carry as nat;
                assert(lo * place + a + ca * (10 * place) == f * (d * place + b))
                    by (nonlinear_arith)
                    requires
                        lo + 10 * ca == d * f + oc,
                        a + oc * place == f * b,
                ;
            }
        }
        let ghost tail = out@.subrange(2, n + 2);
        let high: u8 = (carry / 10) as u8;
        let low: u8 = (carry % 10) as u8;
        out.set(1, low);
        out.set(0, high);
        proof {
            assert(self.digits@.subrange(0, n as int) =~= self.digits@);
            assert(out@ =~= seq![high] + (seq![low] + tail));
            lemma_value_prepend(low, tail);
            lemma_value_prepend(high, seq![low] + tail);
            let place = pow10(n as nat);
            let a = digits_value(tail);
            let hi = high as nat;
            let lo = low as nat;
            let ca = carry as nat;
            assert(hi * (10 * place) + (lo * place + a) == ca * place + a) by (nonlinear_arith)
                requires
                    10 * hi + lo == ca,
            ;
            assert(factor * digits_value(self.digits@) == digits_value(self.digits@) * (100
                - percent)) by (nonlinear_arith)
                requires
                    factor == 100 - percent,
            ;
            lemma_number_digits_of_value(out@);
        }
        Price { digits: out, scale: self.scale + 2 }
    }

    /// Writes the price as a decimal number.
    pub fn to_text(&self) -> (text: String)
        ensures
            text@ == self@.text(),
    {
        proof {
            use_type_invariant(self);
        }
        let n = self.digits.len();
        let whole_end = n - self.scale;
        let ghost whole = self.digits@.take(whole_end as int);
        let mut start: usize = 0;
        while start < whole_end && self.digits[start] == 0
            invariant
                start <= whole_end <= n,
                n == self.digits.len(),
                forall|j: int| 0 <= j < start ==> self.digits[j] == 0,
            decreases whole_end - start,
        {
            start = start + 1;
        }
        proof {
            lemma_significant(whole, start as int);
        }
        let mut text = String::new();
        if start == whole_end {
            push_char(&mut text, '0');
        } else {
            let mut i = start;
            while i < whole_end
                invariant
                    start <= i <= whole_end <= n,
                    n == self.digits.len(),
                    forall|j: int| 0 <= j < n ==> #[trigger] self.digits[j] <= 9,
                    text@ == digit_chars(self.digits@.subrange(start as int, i as int)),
                decreases whole_end - i,
            {
                let d = self.digits[i];
                push_char(&mut text, (d + 0x30) as char);
                i = i + 1;
            }
        }
        if self.scale > 0 {
            let ghost head = text@;
            push_char(&mut text, '.');
            let mut i = whole_end;
            while i < n
                invariant
                    whole_end <= i <= n,
                    n == self.digits.len(),
                    forall|j: int| 0 <= j < n ==> #[trigger] self.digits[j] <= 9,
                    text@ == head + seq!['.'] + digit_chars(
                        self.digits@.subrange(whole_end as int, i as int),
                    ),
                decreases n - i,
            {
                let d = self.digits[i];
                push_char(&mut text, (d + 0x30) as char);
                i = i + 1;
            }
        }
        text
    }
}

/// Takes out of `raw` everything but digits and decimal points.
pub fn clean_price_text(raw: &str) -> (text: String)
    ensures
        text@ == cleaned(raw@),
{
    broadcast use group_string_axioms;
    let mut text = String::new();
    for c in it: raw.chars()
        invariant
            it.seq() == raw@,
            text@ == cleaned(raw@.take(it.index())),
    {
        let ghost i = it.index();
        let code: u32 = c as u32;
        proof {
            assert(raw@.take(i + 1) =~= raw@.take(i).push(c));
            raw@.take(i).lemma_filter_push(c, |c: char| is_price_char(c));
        }
        if (0x30 <= code && code <= 0x39) || c == '.' {
            push_char(&mut text, c);
        }
    }
    assert(raw@.take(raw@.len() as int) =~= raw@);
    text
}

/// Reads the price out of a field of the price list: a field that holds no
/// number once it is cleaned is the price zero.
pub fn price_from_field(raw: &str) -> (price: Price)
    ensures
        price@ == price_of_field(raw@),
        price@.wf(),
{
    let text = clean_price_text(raw);
    match Price::parse(text.as_str()) {
        Some(price) => price,
        None => Price::zero(),
    }
}

} // verus!
