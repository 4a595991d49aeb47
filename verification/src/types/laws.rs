//! What written prices and sizes come to.
use vstd::prelude::*;
use crate::text;
use crate::types;
use crate::types::{Instrument, PriceParseError, SizeParseError, Venue};

verus! {

/// A number with two places behind the point, and whatever follows them.
pub open spec fn fixed(whole: nat, tenths: int, hundredths: int, rest: Seq<char>) -> Seq<char> {
    text::decimal(whole) + seq!['.', text::digit_char(tenths), text::digit_char(hundredths)] + rest
}

/// Nothing but zeros.
pub open spec fn all_zeros(s: Seq<char>) -> bool {
    forall|i: int| 0 <= i < s.len() ==> #[trigger] s[i] == '0'
}

proof fn lemma_untrimmed(s: Seq<char>)
    requires
        s.len() > 0,
        text::is_digit(s[0]),
        text::is_digit(s.last()),
    ensures
        text::trimmed(s) == s,
{
}

pub proof fn lemma_fixed(whole: nat, tenths: int, hundredths: int, rest: Seq<char>)
    requires
        0 <= tenths <= 9,
        0 <= hundredths <= 9,
        text::all_digits(rest),
    ensures
        ({
            let s = fixed(whole, tenths, hundredths, rest);
            let fraction = seq![text::digit_char(tenths), text::digit_char(hundredths)] + rest;
            &&& s.len() > 0
            &&& s.contains('.')
            &&& s[0] != '-'
            &&& text::trimmed(s) == s
            &&& text::split_once(s, '.') == Some((text::decimal(whole), fraction))
            &&& fraction.len() >= 2
            &&& text::all_digits(fraction)
            &&& types::hundredths(fraction) == 10 * tenths + hundredths
            &&& types::finer_than_hundredths(fraction) <==> !all_zeros(rest)
        }),
{
    let front = text::decimal(whole);
    let s = fixed(whole, tenths, hundredths, rest);
    let fraction = seq![text::digit_char(tenths), text::digit_char(hundredths)] + rest;
    text::a_written_number_reads_back(whole);
    text::lemma_digit_char(tenths);
    text::lemma_digit_char(hundredths);
    let point = front.len() as int;
    assert(s[point] == '.');
    assert(s[0] == front[0]);
    assert forall|j: int| 0 <= j < point implies #[trigger] s[j] != '.' by {
        assert(s[j] == front[j]);
        assert(text::is_digit(front[j]));
    }
    text::lemma_first_index_unique(s, '.', point);
    assert(s.subrange(0, point) =~= front);
    assert(s.subrange(point + 1, s.len() as int) =~= fraction);
    assert forall|j: int| 0 <= j < fraction.len() implies text::is_digit(
        #[trigger] fraction[j],
    ) by {
        if j >= 2 {
            assert(fraction[j] == rest[j - 2]);
        }
    }
    assert(s.last() == fraction.last());
    assert(text::is_digit(fraction[fraction.len() - 1]));
    lemma_untrimmed(s);
    if types::finer_than_hundredths(fraction) {
        let i = choose|i: int| 2 <= i < fraction.len() && #[trigger] fraction[i] != '0';
        assert(rest[i - 2] != '0');
    }
    if !all_zeros(rest) {
        let i = choose|i: int| 0 <= i < rest.len() && #[trigger] rest[i] != '0';
        assert(fraction[i + 2] != '0');
    }
}

/// A price is read to the cent: digits beyond must be zeros, and more than a
/// dollar is no price.
pub proof fn a_price_is_read_to_the_cent(
    whole: nat,
    tenths: int,
    hundredths: int,
    rest: Seq<char>,
)
    requires
        0 <= tenths <= 9,
        0 <= hundredths <= 9,
        text::all_digits(rest),
        whole <= i64::MAX,
    ensures
        ({
            let cents = 100 * whole + 10 * tenths + hundredths;
            match types::price_cents(fixed(whole, tenths, hundredths, rest)) {
                Ok(read) => all_zeros(rest) && read == cents && cents <= 100,
                Err(PriceParseError::SubCent) => !all_zeros(rest),
                Err(PriceParseError::OutOfRange) => all_zeros(rest) && cents > 100,
                Err(_) => false,
            }
        }),
{
    lemma_fixed(whole, tenths, hundredths, rest);
    text::a_written_number_reads_back(whole);
}

/// A price without a point is so many dollars.
pub proof fn a_price_without_a_point_is_in_dollars(whole: nat)
    requires
        whole <= i64::MAX,
    ensures
        match types::price_cents(text::decimal(whole)) {
            Ok(read) => whole <= 1 && read == 100 * whole,
            Err(error) => whole > 1 && error == PriceParseError::OutOfRange,
        },
{
    let s = text::decimal(whole);
    text::a_written_number_reads_back(whole);
    assert(text::is_digit(s[0]) && text::is_digit(s[s.len() - 1]));
    lemma_untrimmed(s);
    assert forall|j: int| 0 <= j < s.len() implies #[trigger] s[j] != '.' by {
        assert(text::is_digit(s[j]));
    }
    text::lemma_first_index_unique(s, '.', s.len() as int);
    assert(!s.contains('.'));
    assert(!types::finer_than_hundredths(Seq::<char>::empty()));
}

/// A price is nothing but digits and at most one point among them.
pub proof fn a_read_price_is_a_plain_decimal(s: Seq<char>)
    ensures
        types::price_cents(s) is Ok ==> {
            let t = text::trimmed(s);
            t.len() > 0 && text::is_digit(t[0]) && forall|i: int|
                0 <= i < t.len() ==> text::is_digit(#[trigger] t[i]) || t[i] == '.'
        },
{
    let t = text::trimmed(s);
    if types::price_cents(s) is Ok {
        text::lemma_first_index(t, '.');
        let at = text::first_index(t, '.');
        if let Some((whole, fraction)) = text::split_once(t, '.') {
            assert forall|i: int| 0 <= i < t.len() implies text::is_digit(#[trigger] t[i]) || t[i]
                == '.' by {
                if i < at {
                    assert(whole[i] == t[i]);
                } else if i > at {
                    assert(fraction[i - at - 1] == t[i]);
                }
            }
            assert(whole[0] == t[0]);
        } else {
            assert(t.len() > 0);
        }
    }
}

/// A size is read to the whole contract, rounded down, and what is left over is
/// handed back as hundredths: together they are what was written, whatever its
/// sign.
pub proof fn a_size_is_read_whole(
    negative: bool,
    whole: nat,
    tenths: int,
    hundredths: int,
    rest: Seq<char>,
)
    requires
        0 <= tenths <= 9,
        0 <= hundredths <= 9,
        text::all_digits(rest),
        whole < i64::MAX,
    ensures
        ({
            let unsigned = fixed(whole, tenths, hundredths, rest);
            let written = if negative {
                seq!['-'] + unsigned
            } else {
                unsigned
            };
            let magnitude = 100 * whole + 10 * tenths + hundredths;
            let worth = if negative {
                -magnitude
            } else {
                magnitude
            };
            let left = types::size_discarded(written);
            match types::size_contracts(written) {
                Ok(contracts) => all_zeros(rest) && 0 <= left < 100 && contracts * 100 + left
                    == worth,
                Err(error) => !all_zeros(rest) && error == SizeParseError::SubHundredth,
            }
        }),
{
    let unsigned = fixed(whole, tenths, hundredths, rest);
    lemma_fixed(whole, tenths, hundredths, rest);
    text::a_written_number_reads_back(whole);
    let written = seq!['-'] + unsigned;
    assert(written.subrange(1, written.len() as int) =~= unsigned);
}

/// A size without a point is so many contracts.
pub proof fn a_size_without_a_point_is_in_contracts(negative: bool, whole: nat)
    requires
        whole <= i64::MAX,
    ensures
        ({
            let digits = text::decimal(whole);
            let written = if negative {
                seq!['-'] + digits
            } else {
                digits
            };
            &&& types::size_contracts(written) == Ok::<int, SizeParseError>(
                if negative {
                    -whole
                } else {
                    whole as int
                },
            )
            &&& types::size_discarded(written) == 0
        }),
{
    let s = text::decimal(whole);
    text::a_written_number_reads_back(whole);
    assert(text::is_digit(s[0]));
    assert forall|j: int| 0 <= j < s.len() implies #[trigger] s[j] != '.' by {
        assert(text::is_digit(s[j]));
    }
    text::lemma_first_index_unique(s, '.', s.len() as int);
    assert(!s.contains('.'));
    let written = seq!['-'] + s;
    assert(written.subrange(1, written.len() as int) =~= s);
    assert(!types::finer_than_hundredths(Seq::<char>::empty()));
}

/// An instrument is found exactly where it was interned, under the number of its
/// place, and by its own venue only.
pub proof fn a_number_is_its_instruments_place(
    names: Seq<Instrument>,
    venue: Venue,
    ticker: Seq<char>,
)
    requires
        names.no_duplicates(),
        names.len() <= 0x1_0000_0000,
    ensures
        match types::lookup(names, venue, ticker) {
            Some(id) => id.0 < names.len() && names[id.0 as int] == (venue, ticker),
            None => forall|i: int|
                0 <= i < names.len() ==> #[trigger] names[i] != (venue, ticker),
        },
{
    if names.contains((venue, ticker)) {
        let i = choose|i: int| 0 <= i < names.len() && names[i] == (venue, ticker);
        types::lemma_lookup(names, venue, ticker, i);
    }
}

/// Interning an instrument keeps every number that was given out, and gives a new
/// one only to a new instrument.
pub proof fn interning_moves_no_number(
    names: Seq<Instrument>,
    venue: Venue,
    ticker: Seq<char>,
    i: int,
)
    requires
        0 <= i < names.len(),
    ensures
        ({
            let after = types::interned(names, venue, ticker);
            &&& after[i] == names[i]
            &&& after.contains((venue, ticker))
            &&& after.len() == names.len() + (if names.contains((venue, ticker)) {
                0int
            } else {
                1int
            })
        }),
{
    let after = types::interned(names, venue, ticker);
    if !names.contains((venue, ticker)) {
        assert(after[names.len() as int] == (venue, ticker));
    }
}

} // verus!
