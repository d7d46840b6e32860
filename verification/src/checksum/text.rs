//! Text primitives of the manifest format: pieces between separators, lines,
//! and the decimal form of a size.

use vstd::prelude::*;

verus! {

/// The pieces of `s` between occurrences of `sep`. There is always at least
/// one piece; a separator at either end yields an empty piece there.
pub open spec fn split_on(s: Seq<char>, sep: char) -> Seq<Seq<char>>
    decreases s.len(),
{
    if s.len() == 0 {
        seq![Seq::<char>::empty()]
    } else {
        let before = split_on(s.drop_last(), sep);
        if s.last() == sep {
            before.push(Seq::<char>::empty())
        } else {
            before.drop_last().push(before.last().push(s.last()))
        }
    }
}

/// The pieces put together again, with a separator between each two.
pub open spec fn joined(pieces: Seq<Seq<char>>, sep: char) -> Seq<char>
    decreases pieces.len(),
{
    if pieces.len() == 0 {
        Seq::empty()
    } else if pieces.len() == 1 {
        pieces[0]
    } else {
        joined(pieces.drop_last(), sep) + seq![sep] + pieces.last()
    }
}

/// A line without the carriage return that ends it, if one does.
pub open spec fn strip_cr(line: Seq<char>) -> Seq<char> {
    if line.len() > 0 && line.last() == '\r' {
        line.drop_last()
    } else {
        line
    }
}

/// The lines of a text. A line ends at a line feed; a carriage return just
/// before that line feed belongs to the line ending. Characters after the
/// last line feed form a last line, kept as it is.
pub open spec fn lines_of(text: Seq<char>) -> Seq<Seq<char>> {
    let pieces = split_on(text, '\n');
    let ended = Seq::new((pieces.len() - 1) as nat, |i: int| strip_cr(pieces[i]));
    if pieces.last().len() > 0 {
        ended.push(pieces.last())
    } else {
        ended
    }
}

/// `String::push` appends one character to the end of the string.
#[verifier::external_body]
pub(crate) fn push_char(s: &mut String, c: char)
    ensures
        final(s)@ == old(s)@.push(c),
{
    s.push(c)
}

/// Splits `s` at every occurrence of `sep`.
pub fn split(s: &str, sep: char) -> (parts: Vec<String>)
    ensures
        parts.deep_view() == split_on(s@, sep),
{
    let mut parts: Vec<String> = Vec::new();
    let mut cur = String::new();
    for c in it: s.chars()
        invariant
            it.seq() == s@,
            split_on(s@.take(it.index() as int), sep) == parts.deep_view().push(cur@),
    {
        let ghost k = it.index() as int;
        proof {
            assert(s@.take(k + 1).drop_last() == s@.take(k));
            assert(s@.take(k + 1).last() == c);
        }
        if c == sep {
            let ghost before = parts.deep_view();
            parts.push(cur);
            cur = String::new();
            assert(parts.deep_view() == before.push(parts@.last()@));
        } else {
            let ghost done = parts.deep_view().push(cur@);
            push_char(&mut cur, c);
            assert(done.drop_last() == parts.deep_view());
        }
    }
    let ghost before = parts.deep_view();
    parts.push(cur);
    assert(parts.deep_view() == before.push(cur@));
    assert(s@.take(s@.len() as int) == s@);
    parts
}

/// Copies a line without the carriage return that ends it, if one does.
fn without_cr(line: &str) -> (out: String)
    ensures
        out@ == strip_cr(line@),
{
    let n = line.unicode_len();
    if n > 0 && line.get_char(n - 1) == '\r' {
        line.substring_char(0, n - 1).to_owned()
    } else {
        line.to_owned()
    }
}

/// Cuts a text into its lines.
pub fn lines(text: &str) -> (out: Vec<String>)
    ensures
        out.deep_view() == lines_of(text@),
{
    let pieces = split(text, '\n');
    proof {
        lemma_split_on_nonempty(text@, '\n');
    }
    let n = pieces.len();
    let mut out: Vec<String> = Vec::new();
    let mut i: usize = 0;
    while i + 1 < n
        invariant
            n == pieces@.len(),
            n >= 1,
            i + 1 <= n,
            out.deep_view() == Seq::new(i as nat, |j: int| strip_cr(pieces.deep_view()[j])),
        decreases n - i,
    {
        let ghost before = out.deep_view();
        let line = without_cr(pieces[i].as_str());
        out.push(line);
        assert(out.deep_view() == before.push(line@));
        i = i + 1;
    }
    if !pieces[n - 1].as_str().is_empty() {
        let ghost before = out.deep_view();
        let last = pieces[n - 1].clone();
        out.push(last);
        assert(out.deep_view() == before.push(last@));
    }
    out
}

/// Why a size field is not a number.
#[derive(Debug, Clone, Copy, PartialEq, Eq)]
pub enum SizeError {
    /// The field has no characters at all.
    Empty,
    /// A character that is not a decimal digit, or a sign with nothing after it.
    InvalidDigit,
    /// The digits read so far no longer fit in 64 bits.
    Overflow,
}

/// The words for a size error.
pub open spec fn size_error_text(e: SizeError) -> Seq<char> {
    match e {
        SizeError::Empty => "cannot parse integer from empty string"@,
        SizeError::InvalidDigit => "invalid digit found in string"@,
        SizeError::Overflow => "number too large to fit in target type"@,
    }
}

impl SizeError {
    /// The error in words.
    pub fn message(&self) -> (text: String)
        ensures
            text@ == size_error_text(*self),
    {
        match self {
            SizeError::Empty => "cannot parse integer from empty string".to_owned(),
            SizeError::InvalidDigit => "invalid digit found in string".to_owned(),
            SizeError::Overflow => "number too large to fit in target type".to_owned(),
        }
    }
}

/// Whether `c` is a decimal digit.
pub open spec fn is_digit(c: char) -> bool {
    '0' <= c <= '9'
}

/// The number that a decimal digit stands for.
pub open spec fn digit_value(c: char) -> nat {
    (c as u32 - '0' as u32) as nat
}

/// The decimal digit for a number below ten.
pub open spec fn digit_char(d: nat) -> char {
    ((d + 48) as u8) as char
}

/// Whether every character is a decimal digit.
pub open spec fn all_digits(s: Seq<char>) -> bool {
    forall|i: int| 0 <= i < s.len() ==> is_digit(#[trigger] s[i])
}

/// The number that a run of decimal digits denotes.
pub open spec fn decimal_value(s: Seq<char>) -> nat
    decreases s.len(),
{
    if s.len() == 0 {
        0
    } else {
        10 * decimal_value(s.drop_last()) + digit_value(s.last())
    }
}

/// The decimal numeral of `n`, without sign or leading zeros.
pub open spec fn decimal(n: nat) -> Seq<char>
    decreases n,
{
    if n < 10 {
        seq![digit_char(n)]
    } else {
        decimal(n / 10).push(digit_char(n % 10))
    }
}

/// The digits of a size field: the field itself, without one leading `+`.
pub open spec fn digits_of(s: Seq<char>) -> Seq<char> {
    if s.len() > 0 && s[0] == '+' {
        s.drop_first()
    } else {
        s
    }
}

/// Reads digits from left to right. The first character that is no digit,
/// or the first digit that takes the number past 64 bits, decides the error.
pub open spec fn scan_digits(s: Seq<char>) -> Result<nat, SizeError>
    decreases s.len(),
{
    if s.len() == 0 {
        Ok(0)
    } else {
        match scan_digits(s.drop_last()) {
            Err(e) => Err(e),
            Ok(v) => if !is_digit(s.last()) {
                Err(SizeError::InvalidDigit)
            } else if 10 * v + digit_value(s.last()) > u64::MAX {
                Err(SizeError::Overflow)
            } else {
                Ok(10 * v + digit_value(s.last()))
            },
        }
    }
}

/// What a size field means: an unsigned decimal number of at most 64 bits,
/// which one `+` may precede.
pub open spec fn parse_size_spec(s: Seq<char>) -> Result<u64, SizeError> {
    if s.len() == 0 {
        Err(SizeError::Empty)
    } else if digits_of(s).len() == 0 {
        Err(SizeError::InvalidDigit)
    } else {
        match scan_digits(digits_of(s)) {
            Ok(v) => Ok(v as u64),
            Err(e) => Err(e),
        }
    }
}

/// Writes `n` as a decimal numeral.
pub fn render_size(n: u64) -> (out: String)
    ensures
        out@ == decimal(n as nat),
{
    let mut digits: Vec<char> = Vec::new();
    let mut rest: u64 = n / 10;
    digits.push((48u8 + (n % 10) as u8) as char);
    assert(digits@ == seq![digit_char((n % 10) as nat)]);
    while rest > 0
        invariant
            digits@.len() >= 1,
            rest > 0 ==> decimal(n as nat) == decimal(rest as nat) + digits@.reverse(),
            rest == 0 ==> decimal(n as nat) == digits@.reverse(),
        decreases rest,
    {
        let ghost before = digits@;
        digits.push((48u8 + (rest % 10) as u8) as char);
        assert(digits@.reverse() == seq![digit_char((rest % 10) as nat)] + before.reverse());
        rest = rest / 10;
    }
    let mut out = String::new();
    let mut k: usize = digits.len();
    while k > 0
        invariant
            k <= digits@.len(),
            out@ == digits@.reverse().take(digits@.len() - k),
        decreases k,
    {
        k = k - 1;
        push_char(&mut out, digits[k]);
    }
    assert(digits@.reverse().take(digits@.len() as int) == digits@.reverse());
    out
}

/// Reads a size field.
pub fn parse_size(s: &str) -> (r: Result<u64, SizeError>)
    ensures
        r == parse_size_spec(s@),
{
    let mut acc: u64 = 0;
    let mut at_start = true;
    let mut no_digits = true;
    for c in it: s.chars()
        invariant
            it.seq() == s@,
            at_start == (it.index() == 0),
            no_digits == (digits_of(s@.take(it.index() as int)).len() == 0),
            scan_digits(digits_of(s@.take(it.index() as int))) == Ok::<nat, SizeError>(acc as nat),
    {
        let ghost k = it.index() as int;
        let ghost seen = digits_of(s@.take(k));
        if at_start && c == '+' {
            assert(digits_of(s@.take(k + 1)) == Seq::<char>::empty());
        } else {
            proof {
                assert(digits_of(s@.take(k + 1)) == seen.push(c));
                assert(seen.push(c).drop_last() == seen);
                if s@[0] == '+' {
                    assert(s@.take(k + 1).drop_first() == s@.drop_first().take(k));
                    lemma_scan_prefix(digits_of(s@), k);
                } else {
                    lemma_scan_prefix(digits_of(s@), k + 1);
                }
            }
            if !(c >= '0' && c <= '9') {
                return Err(SizeError::InvalidDigit);
            }
            let d: u64 = (c as u32 - '0' as u32) as u64;
            match acc.checked_mul(10) {
                None => {
                    return Err(SizeError::Overflow);
                },
                Some(shifted) => match shifted.checked_add(d) {
                    None => {
                        return Err(SizeError::Overflow);
                    },
                    Some(next) => {
                        acc = next;
                    },
                },
            }
            no_digits = false;
        }
        at_start = false;
    }
    assert(s@.take(s@.len() as int) == s@);
    if at_start {
        Err(SizeError::Empty)
    } else if no_digits {
        Err(SizeError::InvalidDigit)
    } else {
        Ok(acc)
    }
}

/// There is at least one piece.
pub proof fn lemma_split_on_nonempty(s: Seq<char>, sep: char)
    ensures
        split_on(s, sep).len() >= 1,
    decreases s.len(),
{
    if s.len() > 0 {
        lemma_split_on_nonempty(s.drop_last(), sep);
    }
}

/// Characters without a separator only lengthen the last piece.
pub proof fn lemma_split_extend(a: Seq<char>, b: Seq<char>, sep: char)
    requires
        !b.contains(sep),
    ensures
        split_on(a + b, sep) == split_on(a, sep).drop_last().push(split_on(a, sep).last() + b),
    decreases b.len(),
{
    lemma_split_on_nonempty(a, sep);
    let pieces = split_on(a, sep);
    if b.len() == 0 {
        assert(a + b == a);
        assert(pieces.last() + b == pieces.last());
        assert(pieces.drop_last().push(pieces.last()) == pieces);
    } else {
        let shorter = b.drop_last();
        assert forall|i: int| 0 <= i < shorter.len() implies shorter[i] != sep by {
            assert(b[i] == shorter[i]);
            assert(b.contains(b[i]));
        }
        assert(b.contains(b.last()));
        lemma_split_extend(a, shorter, sep);
        assert((a + b).drop_last() == a + shorter);
        assert((a + b).last() == b.last());
        let grown = pieces.drop_last().push(pieces.last() + shorter);
        assert(grown.drop_last() == pieces.drop_last());
        assert((pieces.last() + shorter).push(b.last()) == pieces.last() + b);
    }
}

/// A text without the separator is one piece.
pub proof fn lemma_split_whole(s: Seq<char>, sep: char)
    requires
        !s.contains(sep),
    ensures
        split_on(s, sep) == seq![s],
{
    let none = Seq::<char>::empty();
    lemma_split_extend(none, s, sep);
    assert(none + s == s);
    assert(split_on(none, sep).drop_last().push(none + s) == seq![s]);
}

/// A separator followed by characters without one adds exactly one piece.
pub proof fn lemma_split_append(a: Seq<char>, b: Seq<char>, sep: char)
    requires
        !b.contains(sep),
    ensures
        split_on(a + seq![sep] + b, sep) == split_on(a, sep).push(b),
{
    let head = a + seq![sep];
    assert(head.drop_last() == a);
    assert(split_on(head, sep) == split_on(a, sep).push(Seq::<char>::empty()));
    lemma_split_extend(head, b, sep);
    assert(split_on(head, sep).drop_last() == split_on(a, sep));
    assert(Seq::<char>::empty() + b == b);
}

/// Splitting undoes joining: pieces without a separator in them, joined by
/// separators, split into just those pieces.
pub proof fn lemma_split_joined(pieces: Seq<Seq<char>>, sep: char)
    requires
        pieces.len() >= 1,
        forall|i: int| 0 <= i < pieces.len() ==> !(#[trigger] pieces[i]).contains(sep),
    ensures
        split_on(joined(pieces, sep), sep) == pieces,
    decreases pieces.len(),
{
    if pieces.len() == 1 {
        lemma_split_whole(pieces[0], sep);
    } else {
        let front = pieces.drop_last();
        assert forall|i: int| 0 <= i < front.len() implies !(#[trigger] front[i]).contains(sep) by {
            assert(front[i] == pieces[i]);
        }
        lemma_split_joined(front, sep);
        lemma_split_append(joined(front, sep), pieces.last(), sep);
        assert(front.push(pieces.last()) == pieces);
    }
}

/// Joining undoes splitting, and no piece holds a separator.
pub proof fn lemma_joined_split(s: Seq<char>, sep: char)
    ensures
        joined(split_on(s, sep), sep) == s,
        split_on(s, sep).len() >= 1,
        forall|i: int| 0 <= i < split_on(s, sep).len() ==> !(#[trigger] split_on(s, sep)[i]).contains(sep),
    decreases s.len(),
{
    let pieces = split_on(s, sep);
    if s.len() > 0 {
        let front = s.drop_last();
        let before = split_on(front, sep);
        lemma_joined_split(front, sep);
        if s.last() == sep {
            assert(pieces.drop_last() == before);
            assert(joined(pieces, sep) == joined(before, sep) + seq![sep] + Seq::<char>::empty());
            assert(front + seq![sep] + Seq::<char>::empty() == s);
            assert forall|i: int| 0 <= i < pieces.len() implies !(#[trigger] pieces[i]).contains(
                sep,
            ) by {
                if i < before.len() {
                    assert(pieces[i] == before[i]);
                }
            }
        } else {
            let grown = before.last().push(s.last());
            assert(pieces == before.drop_last().push(grown));
            assert forall|i: int| 0 <= i < pieces.len() implies !(#[trigger] pieces[i]).contains(
                sep,
            ) by {
                if i < before.len() - 1 {
                    assert(pieces[i] == before[i]);
                } else {
                    assert(!before.last().contains(sep));
                    if grown.contains(sep) {
                        let j = choose|j: int| 0 <= j < grown.len() && grown[j] == sep;
                        assert(before.last()[j] == sep);
                    }
                }
            }
            if before.len() == 1 {
                assert(joined(before, sep) == before[0]);
                assert(joined(pieces, sep) == grown);
                assert(grown == front.push(s.last()));
                assert(front.push(s.last()) == s);
            } else {
                assert(pieces.drop_last() == before.drop_last());
                assert(joined(before, sep) == joined(before.drop_last(), sep) + seq![sep]
                    + before.last());
                assert(joined(pieces, sep) == joined(before.drop_last(), sep) + seq![sep] + grown);
                assert(joined(before.drop_last(), sep) + seq![sep] + grown == (joined(
                    before.drop_last(),
                    sep,
                ) + seq![sep] + before.last()).push(s.last()));
                assert(front.push(s.last()) == s);
            }
        }
    }
}

/// The digit of a number below ten is a digit with that value, and no
/// character that the manifest format gives a meaning to.
pub proof fn lemma_digit_char(d: nat)
    requires
        d < 10,
    ensures
        is_digit(digit_char(d)),
        digit_value(digit_char(d)) == d,
        digit_char(d) != '\t',
        digit_char(d) != '\n',
        digit_char(d) != '\r',
        digit_char(d) != '+',
{
}

/// A decimal numeral is a non-empty run of digits.
pub proof fn lemma_decimal_digits(n: nat)
    ensures
        decimal(n).len() >= 1,
        forall|i: int| 0 <= i < decimal(n).len() ==> is_digit(#[trigger] decimal(n)[i]),
    decreases n,
{
    if n < 10 {
        lemma_digit_char(n);
    } else {
        lemma_decimal_digits(n / 10);
        lemma_digit_char(n % 10);
    }
}

/// An error met in a prefix of the digits is the error of the whole field.
pub proof fn lemma_scan_prefix(s: Seq<char>, k: int)
    requires
        0 <= k <= s.len(),
    ensures
        scan_digits(s.take(k)) is Err ==> scan_digits(s) == scan_digits(s.take(k)),
    decreases s.len() - k,
{
    if k < s.len() {
        assert(s.take(k + 1).drop_last() == s.take(k));
        lemma_scan_prefix(s, k + 1);
    } else {
        assert(s.take(k) == s);
    }
}

/// Digits are read without error just where every character is a digit
/// and the number that they denote fits in 64 bits; what is read is that
/// number.
pub proof fn lemma_scan_digits(s: Seq<char>)
    ensures
        scan_digits(s) is Ok <==> all_digits(s) && decimal_value(s) <= u64::MAX,
        scan_digits(s) matches Ok(v) ==> v == decimal_value(s),
    decreases s.len(),
{
    if s.len() > 0 {
        let front = s.drop_last();
        lemma_scan_digits(front);
        if all_digits(s) {
            assert forall|i: int| 0 <= i < front.len() implies is_digit(#[trigger] front[i]) by {
                assert(front[i] == s[i]);
            }
            assert(is_digit(s[s.len() - 1]));
        }
        if all_digits(front) && is_digit(s.last()) {
            assert forall|i: int| 0 <= i < s.len() implies is_digit(#[trigger] s[i]) by {
                if i < front.len() {
                    assert(s[i] == front[i]);
                }
            }
        }
    }
}

/// The digits of a numeral within 64 bits are read as its number.
proof fn lemma_scan_decimal(n: nat)
    requires
        n <= u64::MAX,
    ensures
        scan_digits(decimal(n)) == Ok::<nat, SizeError>(n),
    decreases n,
{
    if n < 10 {
        lemma_digit_char(n);
        assert(decimal(n).drop_last() == Seq::<char>::empty());
        assert(decimal(n).last() == digit_char(n));
        assert(scan_digits(decimal(n).drop_last()) == Ok::<nat, SizeError>(0));
    } else {
        lemma_scan_decimal(n / 10);
        lemma_digit_char(n % 10);
        assert(decimal(n).drop_last() == decimal(n / 10));
        assert(decimal(n).last() == digit_char(n % 10));
        assert(10 * (n / 10) + n % 10 == n);
    }
}

/// Reading the numeral of `n` gives `n` back.
pub proof fn lemma_parse_decimal(n: u64)
    ensures
        parse_size_spec(decimal(n as nat)) == Ok::<u64, SizeError>(n),
{
    lemma_decimal_digits(n as nat);
    lemma_scan_decimal(n as nat);
    assert(is_digit(decimal(n as nat)[0]));
}

} // verus!
