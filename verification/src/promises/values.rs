//! Numbers, sizes and messages.

use vstd::prelude::*;

use crate::config::WalConfig;
use crate::error::WalError;
use crate::harness::parse_number;
use crate::harness::unsigned;
use crate::lsn::Lsn;
use crate::promises::segments::lemma_ten_to;
use crate::promises::segments::ten_to;
use crate::text::decimal;
use crate::text::digit_char;
use crate::text::digits_value;
use crate::text::is_digit;
use crate::text::lemma_digits_value_grows;

verus! {

/// Whether `text` is `n` in decimal digits, highest first.
pub open spec fn digits_of(text: Seq<char>, n: int) -> bool {
    &&& text.len() >= 1
    &&& 0 <= n < ten_to(text.len())
    &&& forall|i: int|
        0 <= i < text.len() ==> #[trigger] text[i] as u32 == 48 + n / ten_to(
            (text.len() - 1 - i) as nat,
        ) as int % 10
}

/// A digit of a tenth is the same digit of the whole, one place higher.
pub proof fn lemma_tenth(n: int, k: nat)
    requires
        0 <= n,
        k >= 1,
    ensures
        (n / 10) / ten_to((k - 1) as nat) as int == n / ten_to(k) as int,
{
    lemma_ten_to((k - 1) as nat);
    vstd::arithmetic::div_mod::lemma_div_denominator(n, 10, ten_to((k - 1) as nat) as int);
}

/// A number in decimal is its digits.
pub proof fn lemma_decimal_digits(n: nat)
    ensures
        digits_of(decimal(n), n as int),
        n > 0 ==> decimal(n)[0] != '0',
        n == 0 ==> decimal(n).len() == 1,
    decreases n,
{
    let text = decimal(n);
    if n < 10 {
        assert(ten_to(0) == 1);
        assert(ten_to(1) == 10);
        assert(n as int / 1 == n);
    } else {
        let front = decimal(n / 10);
        let len = text.len();
        lemma_decimal_digits(n / 10);
        assert(text.drop_last() =~= front);
        assert(ten_to(0) == 1);
        assert(n as int / 1 == n);
        assert(ten_to(len) == 10 * ten_to((len - 1) as nat));
        assert forall|i: int| 0 <= i < len implies #[trigger] text[i] as u32 == 48 + n as int
            / ten_to((len - 1 - i) as nat) as int % 10 by {
            if i < len - 1 {
                assert(text[i] == front[i]);
                lemma_tenth(n as int, (len - 1 - i) as nat);
            } else {
                assert(text[i] == digit_char(n % 10));
            }
        }
        assert(text[0] == front[0]);
    }
}

/// Digits stand for their number.
pub proof fn lemma_digits_stand_for(text: Seq<char>, n: int)
    requires
        digits_of(text, n),
    ensures
        digits_value(text) == n,
        forall|i: int| 0 <= i < text.len() ==> is_digit(text[i]),
    decreases text.len(),
{
    let len = text.len();
    assert forall|i: int| 0 <= i < len implies is_digit(text[i]) by {
        assert(text[i] as u32 == 48 + n / ten_to((len - 1 - i) as nat) as int % 10);
    }
    let front = text.drop_last();
    assert(ten_to(0) == 1);
    assert(n / 1 == n);
    assert(text[len - 1] as u32 == 48 + n / ten_to((len - 1 - (len - 1)) as nat) as int % 10);
    assert(ten_to(len) == 10 * ten_to((len - 1) as nat));
    if len > 1 {
        assert forall|i: int| 0 <= i < front.len() implies #[trigger] front[i] as u32 == 48 + (n
            / 10) / ten_to((front.len() - 1 - i) as nat) as int % 10 by {
            assert(front[i] == text[i]);
            lemma_tenth(n, (len - 1 - i) as nat);
        }
        lemma_digits_stand_for(front, n / 10);
    } else {
        assert(front =~= seq![]);
    }
}

/// LSNs count up from one, zero is none of them, and the last one has no successor but
/// itself.
pub proof fn law_lsns_count_up(l: Lsn, none: Lsn, first: Lsn, next: Lsn, b: bool)
    requires
        call_ensures(Lsn::none, (), none),
        call_ensures(Lsn::first, (), first),
        call_ensures(Lsn::next, (l,), next),
        call_ensures(Lsn::is_none, (l,), b),
    ensures
        none.0 == 0,
        first.0 == none.0 + 1,
        l.0 < u64::MAX ==> next.0 == l.0 + 1,
        l.0 == u64::MAX ==> next == l,
        b <==> l == none,
{
}

/// An LSN's text is its decimal digits without leading zeros.
pub proof fn law_lsn_text_is_decimal(l: Lsn, text: String)
    requires
        call_ensures(Lsn::to_string, (&l,), text),
    ensures
        digits_of(text@, l.0 as int),
        l.0 > 0 ==> text@[0] != '0',
        l.0 == 0 ==> text@.len() == 1,
{
    lemma_decimal_digits(l.0 as nat);
}

/// Text that is digits reads as the number that they stand for, with or without a plus
/// sign in front.
pub proof fn law_digits_read_as_their_number(
    text: &str,
    r: Option<u64>,
    signed: &str,
    s: Option<u64>,
    n: u64,
)
    requires
        call_ensures(parse_number, (text,), r),
        call_ensures(parse_number, (signed,), s),
        digits_of(text@, n as int),
        signed@ == seq!['+'] + text@,
    ensures
        r == Some(n),
        s == Some(n),
{
    lemma_digits_stand_for(text@, n as int);
    assert(is_digit(text@[0]));
    assert(signed@.skip(1) =~= text@);
}

/// A further character makes ten times the number and its digit, and nothing that is not
/// a digit, or makes too large a number, reads as a number at all.
pub proof fn law_numbers_read_digit_by_digit(
    text: &str,
    r: Option<u64>,
    longer: &str,
    s: Option<u64>,
    c: char,
)
    requires
        call_ensures(parse_number, (text,), r),
        call_ensures(parse_number, (longer,), s),
        longer@ == text@.push(c),
    ensures
        text@.len() == 0 ==> r is None,
        text@ == seq!['+'] ==> r is None,
        text@.len() > 0 && text@ != seq!['+'] && r is None ==> s is None,
        !(0x30 <= c as u32 <= 0x39) && text@.len() > 0 ==> s is None,
        (0x30 <= c as u32 <= 0x39) && (text@.len() == 0 || text@ == seq!['+']) ==> s == Some(
            (c as u32 - 0x30) as u64,
        ),
        r matches Some(n) ==> ((0x30 <= c as u32 <= 0x39) ==> s == if 10 * n + (c as u32 - 0x30)
            <= u64::MAX {
            Some((10 * n + (c as u32 - 0x30)) as u64)
        } else {
            None
        }),
{
    let (a, b) = (unsigned(text@), unsigned(longer@));
    if text@.len() > 0 {
        assert(longer@[0] == text@[0]);
        assert(b =~= a.push(c));
        assert(b.drop_last() =~= a);
        assert(b[b.len() - 1] == c);
        assert(forall|i: int| 0 <= i < a.len() ==> b[i] == a[i]);
        lemma_digits_value_grows(b, a.len() as int);
        assert(b.take(a.len() as int) =~= a);
        if a.len() == 0 {
            assert(text@ =~= seq!['+']);
            assert(digits_value(a) == 0);
        } else if text@ == seq!['+'] {
            assert(text@.skip(1) =~= seq![]);
        }
    } else {
        assert(longer@ =~= seq![c]);
        if c == '+' {
            assert(b =~= seq![]);
        } else {
            assert(b =~= seq![c]);
            assert(b.drop_last() =~= seq![]);
            assert(digits_value(b.drop_last()) == 0);
        }
    }
}

/// A configuration is accepted exactly where its largest record fits into a segment of
/// its own, and the default one is.
pub proof fn law_accepted_configuration_holds_its_largest_record(
    c: WalConfig,
    b: bool,
    d: WalConfig,
)
    requires
        call_ensures(WalConfig::is_valid, (&c,), b),
        call_ensures(<WalConfig as Default>::default, (), d),
    ensures
        b <==> 64 + 20 + c.max_record_size + 7 <= c.segment_size,
        d.segment_size == 134_217_728,
        d.max_record_size == 1_048_576,
{
}

/// An error's message says what went wrong, and where, in decimal digits.
pub proof fn law_error_message_says_where(
    e: WalError,
    io_text: &str,
    s: String,
    segment: Lsn,
    offset: u64,
    in_segment: String,
    at_offset: String,
)
    requires
        call_ensures(WalError::describe, (&e, io_text), s),
        call_ensures(Lsn::to_string, (&segment,), in_segment),
        call_ensures(Lsn::to_string, (&Lsn(offset),), at_offset),
    ensures
        match e {
            WalError::Io(_) => s@ == "I/O error: "@ + io_text@,
            WalError::Corruption { segment: b, offset: x, detail } => b == segment && x == offset
                ==> s@ == "corruption in segment "@ + in_segment@ + " at offset "@ + at_offset@
                + ": "@ + detail@,
            WalError::TornMidLog { segment: b, offset: x } => b == segment && x == offset ==> s@
                == "torn record mid-log in segment "@ + in_segment@ + " at offset "@ + at_offset@,
            WalError::RecordTooLarge => s@ == "record exceeds max_record_size"@,
            WalError::InvalidConfig => s@ == "invalid WAL configuration"@,
            WalError::BadSegmentHeader => s@ == "bad segment header"@,
            WalError::Locked => s@ == "WAL directory is already locked by another writer"@,
            WalError::FsyncFailed => s@ == "fsync failed; handle is poisoned"@,
            WalError::ContiguityViolation => s@ == "retained segments are not contiguous"@,
            WalError::Poisoned => s@ == "WAL handle is poisoned by a prior durability failure"@,
        },
{
}

/// The plain message is the one that is written around the I/O error's own text, which
/// only an I/O error has.
pub proof fn law_plain_message_is_the_message(
    e: WalError,
    plain: String,
    io_text: &str,
    s: String,
    source: Option<&std::io::Error>,
)
    requires
        call_ensures(WalError::to_string, (&e,), plain),
        call_ensures(WalError::describe, (&e, io_text), s),
        call_ensures(WalError::source, (&e,), source),
    ensures
        e !is Io ==> plain@ == s@ && source is None,
        e is Io ==> "I/O error: "@.is_prefix_of(plain@),
        e matches WalError::Io(io) ==> source == Some(&io),
{
    let text = choose|text: Seq<char>| plain@ == #[trigger] e.message(text);
    if e is Io {
        assert(("I/O error: "@ + text).subrange(0, "I/O error: "@.len() as int) =~= "I/O error: "@);
    }
}

/// An I/O error is carried as it is.
pub proof fn law_io_error_is_carried(io: std::io::Error, e: WalError)
    requires
        call_ensures(<WalError as From<std::io::Error>>::from, (io,), e),
    ensures
        e == WalError::Io(io),
{
}

} // verus!
