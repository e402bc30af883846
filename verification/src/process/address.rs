//! Addresses and address ranges, with their hexadecimal text forms.

use crate::text::{chars_of, pieces, split_at, texts};
use vstd::prelude::*;

verus! {

/// A location in a process's virtual memory.
#[derive(Debug, Clone, Copy, PartialEq, Eq, Structural)]
pub struct Address {
    pub addr: u64,
}

/// The addresses from `start` to `end`. A range is well formed where `start`
/// is not above `end`.
#[derive(Debug, Clone, Copy, PartialEq, Eq, Structural)]
pub struct Range {
    pub start: Address,
    pub end: Address,
}

/// Why a text is not the hexadecimal form of an address.
#[derive(Debug, Clone, Copy, PartialEq, Eq, Structural)]
pub enum ParseError {
    /// The text is empty or holds a character that is no hexadecimal digit.
    NotHex,
    /// The digits stand for a number above `u64::MAX`.
    Overflow,
}

/// Whether `c` is one of `0`-`9`, `a`-`f`, `A`-`F`.
pub open spec fn is_hex_digit(c: char) -> bool {
    ('0' <= c <= '9') || ('a' <= c <= 'f') || ('A' <= c <= 'F')
}

/// The number that the hexadecimal digit `c` stands for.
pub open spec fn digit_value(c: char) -> nat
    recommends
        is_hex_digit(c),
{
    if '0' <= c <= '9' {
        (c as u32 - 0x30) as nat
    } else if 'a' <= c <= 'f' {
        (c as u32 - 0x61 + 10) as nat
    } else {
        (c as u32 - 0x41 + 10) as nat
    }
}

/// Every character of `s` is a hexadecimal digit.
pub open spec fn all_hex(s: Seq<char>) -> bool {
    forall|i: int| 0 <= i < s.len() ==> is_hex_digit(#[trigger] s[i])
}

/// The number that the digits `s` stand for in base 16, the first digit
/// being the most significant.
pub open spec fn hex_value(s: Seq<char>) -> nat
    decreases s.len(),
{
    if s.len() == 0 {
        0
    } else {
        hex_value(s.drop_last()) * 16 + digit_value(s.last())
    }
}

/// The address that the text `s` stands for: `s` is one or more hexadecimal
/// digits, without sign or prefix, and their value fits 64 bits.
pub open spec fn address_of(s: Seq<char>) -> Result<Address, ParseError> {
    if s.len() == 0 || !all_hex(s) {
        Err(ParseError::NotHex)
    } else if hex_value(s) > u64::MAX {
        Err(ParseError::Overflow)
    } else {
        Ok(Address { addr: hex_value(s) as u64 })
    }
}

/// The range that the text `s` stands for: two addresses with one `-`
/// between them, the first not above the second.
pub open spec fn range_of(s: Seq<char>) -> Option<Range> {
    let parts = pieces(s, '-');
    if parts.len() == 2 {
        match (address_of(parts[0]), address_of(parts[1])) {
            (Ok(start), Ok(end)) => if start.addr <= end.addr {
                Some(Range { start, end })
            } else {
                None
            },
            _ => None,
        }
    } else {
        None
    }
}

/// The lowercase hexadecimal digit for `d`.
pub open spec fn digit_char(d: nat) -> char
    recommends
        d < 16,
{
    if d < 10 {
        (0x30 + d) as u8 as char
    } else {
        (0x61 + d - 10) as u8 as char
    }
}

/// The hexadecimal digits of `n`, without leading zeros; one `0` for zero.
pub open spec fn hex_digits(n: nat) -> Seq<char>
    decreases n,
{
    if n < 16 {
        seq![digit_char(n)]
    } else {
        hex_digits(n / 16).push(digit_char(n % 16))
    }
}

/// The hexadecimal digits of `n`, with zeros in front up to `width`
/// characters.
pub open spec fn hex_text(n: nat, width: nat) -> Seq<char> {
    let digits = hex_digits(n);
    if digits.len() < width {
        Seq::new((width - digits.len()) as nat, |i: int| '0') + digits
    } else {
        digits
    }
}

/// The value of a hexadecimal digit, or `None` for another character.
pub fn digit(c: char) -> (d: Option<u64>)
    ensures
        is_hex_digit(c) <==> d is Some,
        d matches Some(v) ==> v == digit_value(c) && v < 16,
{
    let n: u32 = c as u32;
    if '0' <= c && c <= '9' {
        Some((n - 0x30) as u64)
    } else if 'a' <= c && c <= 'f' {
        Some((n - 0x61 + 10) as u64)
    } else if 'A' <= c && c <= 'F' {
        Some((n - 0x41 + 10) as u64)
    } else {
        None
    }
}

/// One digit more at the end: the value is 16 times the value before, and
/// the value of the digit.
proof fn lemma_hex_value_grows(s: Seq<char>, i: int)
    requires
        0 <= i < s.len(),
    ensures
        hex_value(s.take(i + 1)) == hex_value(s.take(i)) * 16 + digit_value(s[i]),
{
    assert(s.take(i + 1).drop_last() == s.take(i));
}

impl Address {
    /// The address that the characters `s` stand for.
    pub fn parse_chars(s: &[char]) -> (r: Result<Address, ParseError>)
        ensures
            r == address_of(s@),
    {
        if s.len() == 0 {
            return Err(ParseError::NotHex);
        }
        let mut value: u64 = 0;
        let mut fits = true;
        let mut i: usize = 0;
        while i < s.len()
            invariant
                i <= s@.len(),
                all_hex(s@.take(i as int)),
                fits ==> value == hex_value(s@.take(i as int)),
                !fits ==> hex_value(s@.take(i as int)) > u64::MAX,
            decreases s@.len() - i,
        {
            let d = match digit(s[i]) {
                Some(d) => d,
                None => {
                    return Err(ParseError::NotHex);
                },
            };
            proof {
                lemma_hex_value_grows(s@, i as int);
                assert(hex_value(s@.take(i as int)) * 16 >= hex_value(s@.take(i as int)));
            }
            if fits {
                match value.checked_mul(16) {
                    Some(shifted) => match shifted.checked_add(d) {
                        Some(sum) => {
                            value = sum;
                        },
                        None => {
                            fits = false;
                        },
                    },
                    None => {
                        fits = false;
                    },
                }
            }
            i = i + 1;
        }
        assert(s@.take(i as int) == s@);
        if fits {
            Ok(Address { addr: value })
        } else {
            Err(ParseError::Overflow)
        }
    }

    /// Reads an address from its hexadecimal text, and says why where the
    /// text is none.
    pub fn parse(text: &str) -> (r: Result<Address, ParseError>)
        ensures
            r == address_of(text@),
    {
        let chars = chars_of(text);
        Address::parse_chars(chars.as_slice())
    }

    /// Reads an address from its hexadecimal text. `None` where the text is
    /// empty, holds anything but hexadecimal digits, or stands for a number
    /// above `u64::MAX`.
    pub fn new_from_str(addr_str: &str) -> (r: Option<Address>)
        ensures
            match address_of(addr_str@) {
                Ok(a) => r == Some(a),
                Err(_) => r is None,
            },
    {
        match Address::parse(addr_str) {
            Ok(a) => Some(a),
            Err(_) => None,
        }
    }
}

/// 16 to the power `k`.
pub open spec fn pow16(k: nat) -> nat
    decreases k,
{
    if k == 0 {
        1
    } else {
        16 * pow16((k - 1) as nat)
    }
}

/// A number below 16 to the power `k` has at most `k` hexadecimal digits.
proof fn lemma_hex_digits_len(n: nat, k: nat)
    requires
        k >= 1,
        n < pow16(k),
    ensures
        1 <= hex_digits(n).len() <= k,
    decreases n,
{
    if n >= 16 {
        assert(pow16(1) == 16) by {
            reveal_with_fuel(pow16, 2);
        }
        assert(k >= 2);
        lemma_hex_digits_len(n / 16, (k - 1) as nat);
    }
}

/// A 64-bit number has at most 16 hexadecimal digits.
proof fn lemma_hex_digits_len_u64(n: u64)
    ensures
        1 <= hex_digits(n as nat).len() <= 16,
{
    assert(pow16(16) == 0x1_0000_0000_0000_0000) by {
        reveal_with_fuel(pow16, 17);
    }
    lemma_hex_digits_len(n as nat, 16);
}

/// The lowercase hexadecimal digit for `d`.
pub fn digit_of(d: u8) -> (c: char)
    requires
        d < 16,
    ensures
        c == digit_char(d as nat),
{
    if d < 10 {
        (0x30 + d) as char
    } else {
        (0x61 + d - 10) as char
    }
}

/// The number of hexadecimal digits of `n`.
pub fn hex_len(n: u64) -> (k: usize)
    ensures
        k == hex_digits(n as nat).len(),
        1 <= k <= 16,
    decreases n,
{
    proof {
        lemma_hex_digits_len_u64(n);
    }
    if n < 16 {
        1
    } else {
        proof {
            lemma_hex_digits_len_u64(n / 16);
        }
        hex_len(n / 16) + 1
    }
}

/// Appends the hexadecimal digits of `n` to `out`.
pub fn push_hex(out: &mut String, n: u64)
    ensures
        final(out)@ == old(out)@ + hex_digits(n as nat),
    decreases n,
{
    if n >= 16 {
        push_hex(out, n / 16);
    }
    out.push(digit_of((n % 16) as u8));
}

/// Appends the hexadecimal digits of `n` to `out`, with zeros in front up to
/// `width` characters.
pub fn push_hex_padded(out: &mut String, n: u64, width: usize)
    ensures
        final(out)@ == old(out)@ + hex_text(n as nat, width as nat),
{
    let len = hex_len(n);
    let mut i: usize = len;
    while i < width
        invariant
            len <= i,
            i <= width || i == len,
            out@ == old(out)@ + Seq::new((i - len) as nat, |k: int| '0'),
        decreases width - i,
    {
        out.push('0');
        i = i + 1;
    }
    push_hex(out, n);
}

/// The number of characters in the text of an address: two hexadecimal
/// digits for each of its eight bytes.
pub const ADDRESS_WIDTH: usize = 16;

/// Whether `c` is one of `0`-`9`, `a`-`f`.
pub open spec fn is_lower_hex_digit(c: char) -> bool {
    ('0' <= c <= '9') || ('a' <= c <= 'f')
}

impl Address {
    /// The text of the address: `addr` in sixteen lowercase hexadecimal
    /// digits, with zeros in front where the number has fewer.
    pub open spec fn text(self) -> Seq<char> {
        hex_text(self.addr as nat, ADDRESS_WIDTH as nat)
    }

    /// Appends the text of the address to `out`.
    pub fn push_to(&self, out: &mut String)
        ensures
            final(out)@ == old(out)@ + self.text(),
    {
        push_hex_padded(out, self.addr, ADDRESS_WIDTH);
    }

    /// Writes the address as `text` describes: always sixteen characters,
    /// each a lowercase hexadecimal digit.
    pub fn to_string(&self) -> (out: String)
        ensures
            out@ == self.text(),
            out@.len() == ADDRESS_WIDTH,
            forall|i: int| 0 <= i < out@.len() ==> is_lower_hex_digit(#[trigger] out@[i]),
    {
        let mut out = String::new();
        self.push_to(&mut out);
        proof {
            lemma_address_text_shape(*self);
        }
        out
    }
}

/// The digits written for a number are lowercase.
pub proof fn lemma_hex_digits_lower(n: nat)
    ensures
        forall|i: int| 0 <= i < hex_digits(n).len() ==> is_lower_hex_digit(#[trigger] hex_digits(n)[i]),
    decreases n,
{
    let digits = hex_digits(n);
    if n >= 16 {
        lemma_hex_digits_lower(n / 16);
        assert forall|i: int| 0 <= i < digits.len() implies is_lower_hex_digit(
            #[trigger] digits[i],
        ) by {
            if i < digits.len() - 1 {
                assert(digits[i] == hex_digits(n / 16)[i]);
            } else {
                assert(digits[i] == digit_char(n % 16));
            }
        }
    } else {
        assert(digits[0] == digit_char(n));
    }
}

/// The text of every address has the same width, sixteen characters, and
/// each of them is a lowercase hexadecimal digit.
pub proof fn lemma_address_text_shape(a: Address)
    ensures
        a.text().len() == ADDRESS_WIDTH,
        forall|i: int| 0 <= i < a.text().len() ==> is_lower_hex_digit(#[trigger] a.text()[i]),
{
    let digits = hex_digits(a.addr as nat);
    lemma_hex_digits_len_u64(a.addr);
    lemma_hex_digits_lower(a.addr as nat);
    let zeros = Seq::new((ADDRESS_WIDTH - digits.len()) as nat, |i: int| '0');
    assert(a.text() == zeros + digits);
    assert forall|i: int| 0 <= i < a.text().len() implies is_lower_hex_digit(
        #[trigger] a.text()[i],
    ) by {
        if i >= zeros.len() {
            assert(a.text()[i] == digits[i - zeros.len()]);
        }
    }
}

impl Range {
    /// The range is well formed: `start` is not above `end`.
    pub open spec fn wf(self) -> bool {
        self.start.addr <= self.end.addr
    }

    /// The text of the range: `start`, a `-`, and `end`, each in lowercase
    /// hexadecimal digits without leading zeros.
    pub open spec fn text(self) -> Seq<char> {
        hex_digits(self.start.addr as nat).push('-') + hex_digits(self.end.addr as nat)
    }

    /// The range that the characters `s` stand for, if they stand for one.
    pub fn parse_chars(s: &[char]) -> (r: Option<Range>)
        ensures
            r == range_of(s@),
            r matches Some(range) ==> range.wf(),
    {
        let spans = split_at(s, '-');
        assert(texts(spans@, s@).len() == spans@.len());
        if spans.len() != 2 {
            return None;
        }
        assert(texts(spans@, s@)[0] == spans@[0].of(s@));
        assert(texts(spans@, s@)[1] == spans@[1].of(s@));
        let start = match Address::parse_chars(spans[0].slice(s)) {
            Ok(a) => a,
            Err(_) => {
                return None;
            },
        };
        let end = match Address::parse_chars(spans[1].slice(s)) {
            Ok(a) => a,
            Err(_) => {
                return None;
            },
        };
        if start.addr > end.addr {
            return None;
        }
        Some(Range { start, end })
    }

    /// Reads a range from its text, `start-end` in hexadecimal. `None` where
    /// `-` is missing or occurs twice, where one of the two is no address,
    /// or where `start` is above `end`.
    pub fn parse(text: &str) -> (r: Option<Range>)
        ensures
            r == range_of(text@),
            r matches Some(range) ==> range.wf(),
    {
        let chars = chars_of(text);
        Range::parse_chars(chars.as_slice())
    }

    /// Reads a range from a text that is known to hold one.
    pub fn new_from_str(s: &str) -> (r: Range)
        requires
            range_of(s@) is Some,
        ensures
            Some(r) == range_of(s@),
            r.wf(),
    {
        match Range::parse(s) {
            Some(r) => r,
            None => vstd::pervasive::unreached(),
        }
    }

    /// Writes the range as `text` describes.
    pub fn to_string(&self) -> (out: String)
        ensures
            out@ == self.text(),
    {
        let mut out = String::new();
        push_hex(&mut out, self.start.addr);
        out.push('-');
        push_hex(&mut out, self.end.addr);
        out
    }
}

/// The texts that stand for no address: the empty text, a text that begins
/// with `-`, and a text that holds any character but hexadecimal digits are
/// not hexadecimal; digits whose value is above `u64::MAX` overflow. Every
/// other text stands for the address of its value.
pub proof fn lemma_texts_without_address(s: Seq<char>)
    ensures
        s.len() == 0 ==> address_of(s) == Err::<Address, ParseError>(ParseError::NotHex),
        s.len() > 0 && s[0] == '-' ==> address_of(s) == Err::<Address, ParseError>(
            ParseError::NotHex,
        ),
        (exists|i: int| 0 <= i < s.len() && !is_hex_digit(#[trigger] s[i])) ==> address_of(s)
            == Err::<Address, ParseError>(ParseError::NotHex),
        s.len() > 0 && all_hex(s) && hex_value(s) > u64::MAX ==> address_of(s) == Err::<
            Address,
            ParseError,
        >(ParseError::Overflow),
        s.len() > 0 && all_hex(s) && hex_value(s) <= u64::MAX ==> address_of(s) == Ok::<
            Address,
            ParseError,
        >(Address { addr: hex_value(s) as u64 }),
{
    if s.len() > 0 && s[0] == '-' {
        assert(!is_hex_digit(s[0]));
    }
}

/// The digit written for a number below 16 is read back as that number.
pub proof fn lemma_digit_round_trip(d: nat)
    requires
        d < 16,
    ensures
        is_hex_digit(digit_char(d)),
        digit_value(digit_char(d)) == d,
        digit_char(d) != '-',
{
}

/// The digits written for a number are hexadecimal digits, and are read back
/// as that number.
pub proof fn lemma_hex_digits_value(n: nat)
    ensures
        all_hex(hex_digits(n)),
        hex_digits(n).len() >= 1,
        hex_value(hex_digits(n)) == n,
    decreases n,
{
    let digits = hex_digits(n);
    if n < 16 {
        lemma_digit_round_trip(n);
        assert(digits.drop_last().len() == 0);
        assert(hex_value(digits.drop_last()) == 0);
    } else {
        lemma_hex_digits_value(n / 16);
        lemma_digit_round_trip(n % 16);
        assert(digits.drop_last() == hex_digits(n / 16));
        assert(digits.last() == digit_char(n % 16));
    }
}

/// Zeros in front of digits change neither that they are digits nor their
/// value.
pub proof fn lemma_leading_zeros(k: nat, s: Seq<char>)
    requires
        all_hex(s),
    ensures
        all_hex(Seq::new(k, |i: int| '0') + s),
        hex_value(Seq::new(k, |i: int| '0') + s) == hex_value(s),
    decreases s.len(), k,
{
    let zeros = Seq::new(k, |i: int| '0');
    let whole = zeros + s;
    assert forall|i: int| 0 <= i < whole.len() implies is_hex_digit(#[trigger] whole[i]) by {
        if i >= k {
            assert(whole[i] == s[i - k]);
        }
    }
    if s.len() > 0 {
        lemma_leading_zeros(k, s.drop_last());
        assert(whole.drop_last() == zeros + s.drop_last());
    } else if k > 0 {
        let fewer = Seq::new((k - 1) as nat, |i: int| '0');
        lemma_leading_zeros((k - 1) as nat, s);
        assert(whole.drop_last() == fewer + s);
        assert(whole.last() == '0');
    } else {
        assert(whole.len() == 0);
    }
}

/// Writing an address and reading the text gives the address back.
pub proof fn lemma_address_text_round_trip(a: Address)
    ensures
        address_of(a.text()) == Ok::<Address, ParseError>(a),
{
    let digits = hex_digits(a.addr as nat);
    lemma_hex_digits_value(a.addr as nat);
    if digits.len() < ADDRESS_WIDTH {
        lemma_leading_zeros((ADDRESS_WIDTH - digits.len()) as nat, digits);
    }
}

/// For every text that stands for an address, the text written for that
/// address stands for the same address, whatever the case and the leading
/// zeros of the first text.
pub proof fn lemma_parse_then_write(s: Seq<char>)
    requires
        address_of(s) is Ok,
    ensures
        address_of(address_of(s)->Ok_0.text()) == address_of(s),
{
    lemma_address_text_round_trip(address_of(s)->Ok_0);
}

/// The lowercase form of an uppercase hexadecimal digit; any other
/// character as it is.
pub open spec fn lower_digit(c: char) -> char {
    if 'A' <= c <= 'F' {
        (c as u32 + 0x20) as u8 as char
    } else {
        c
    }
}

/// A text stands for the same address in upper case as in lower case.
pub proof fn lemma_case_insensitive(s: Seq<char>)
    ensures
        address_of(s.map_values(|c: char| lower_digit(c))) == address_of(s),
{
    let lower = s.map_values(|c: char| lower_digit(c));
    lemma_lower_value(s);
    if all_hex(s) {
        assert forall|i: int| 0 <= i < lower.len() implies is_hex_digit(#[trigger] lower[i]) by {
            assert(is_hex_digit(s[i]));
        }
    } else {
        let i = choose|i: int| 0 <= i < s.len() && !is_hex_digit(#[trigger] s[i]);
        assert(!is_hex_digit(lower[i]));
    }
}

proof fn lemma_lower_value(s: Seq<char>)
    ensures
        hex_value(s.map_values(|c: char| lower_digit(c))) == hex_value(s) || !all_hex(s),
    decreases s.len(),
{
    let lower = s.map_values(|c: char| lower_digit(c));
    if s.len() > 0 && all_hex(s) {
        lemma_lower_value(s.drop_last());
        assert(lower.drop_last() == s.drop_last().map_values(|c: char| lower_digit(c)));
        assert(is_hex_digit(s.last()));
        assert(all_hex(s.drop_last())) by {
            assert forall|i: int| 0 <= i < s.drop_last().len() implies is_hex_digit(
                #[trigger] s.drop_last()[i],
            ) by {
                assert(is_hex_digit(s[i]));
            }
        }
    }
}

/// Writing a well-formed range and reading the text gives the range back.
pub proof fn lemma_range_text_round_trip(r: Range)
    requires
        r.wf(),
    ensures
        range_of(r.text()) == Some(r),
{
    let first = hex_digits(r.start.addr as nat);
    let second = hex_digits(r.end.addr as nat);
    let s = r.text();
    let cut = first.len() as int;
    let dash = crate::text::Stop::Char('-');
    lemma_hex_digits_value(r.start.addr as nat);
    lemma_hex_digits_value(r.end.addr as nat);
    assert forall|k: int| 0 <= k < cut implies !dash.holds(#[trigger] s[k]) by {
        assert(s[k] == first[k]);
        assert(is_hex_digit(first[k]));
    }
    assert(s[cut] == '-');
    crate::text::lemma_find_unique(s, 0, dash, cut);
    assert forall|k: int| cut + 1 <= k < s.len() implies !dash.holds(#[trigger] s[k]) by {
        assert(s[k] == second[k - cut - 1]);
        assert(is_hex_digit(second[k - cut - 1]));
    }
    crate::text::lemma_find_unique(s, cut + 1, dash, s.len() as int);
    assert(s.subrange(0, cut) == first);
    assert(s.subrange(cut + 1, s.len() as int) == second);
    assert(crate::text::pieces_from(s, cut + 1, '-') == seq![second]);
    assert(pieces(s, '-') == seq![first] + seq![second]);
}

} // verus!
