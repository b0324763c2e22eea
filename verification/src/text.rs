use vstd::prelude::*;
use vstd::utf8::{decode_utf8, valid_utf8};

verus! {

/// The text that lossy UTF-8 decoding gives for a byte string: well-formed input decodes as it
/// stands, every ill-formed sequence becomes U+FFFD.
pub uninterp spec fn utf8_lossy_text(bytes: Seq<u8>) -> Seq<char>;

/// The Unicode lower-case mapping of a text.
pub uninterp spec fn lowercase_text(s: Seq<char>) -> Seq<char>;

/// What the standard library says of a decimal literal that is no 32-bit integer.
pub uninterp spec fn i32_parse_error_text(s: Seq<char>) -> Seq<char>;

/// `needle` occurs in `hay` as a contiguous run of characters.
pub open spec fn has_substring(hay: Seq<char>, needle: Seq<char>) -> bool {
    exists|i: int|
        0 <= i && i + needle.len() <= hay.len() && #[trigger] hay.subrange(
            i,
            i + needle.len(),
        ) == needle
}

/// `needle` occurs in `hay` at position `i`.
pub open spec fn occurs_at(hay: Seq<char>, needle: Seq<char>, i: int) -> bool {
    0 <= i && i + needle.len() <= hay.len() && hay.subrange(i, i + needle.len()) == needle
}

/// `i` is the first position at which `needle` occurs in `hay`.
pub open spec fn first_occurrence(hay: Seq<char>, needle: Seq<char>, i: int) -> bool {
    occurs_at(hay, needle, i) && forall|j: int| 0 <= j < i ==> !occurs_at(hay, needle, j)
}

/// `needle` occurs nowhere in `hay`.
pub open spec fn occurs_nowhere(hay: Seq<char>, needle: Seq<char>) -> bool {
    forall|j: int| !occurs_at(hay, needle, j)
}

/// The text begins with `prefix`.
pub open spec fn has_prefix(s: Seq<char>, prefix: Seq<char>) -> bool {
    s.len() >= prefix.len() && s.subrange(0, prefix.len() as int) == prefix
}

/// The text ends with `suffix`.
pub open spec fn has_suffix(s: Seq<char>, suffix: Seq<char>) -> bool {
    s.len() >= suffix.len() && s.subrange(s.len() - suffix.len(), s.len() as int) == suffix
}

/// Lower-case form of one character under the ASCII mapping; other characters stay.
pub open spec fn ascii_lower_char(c: char) -> char {
    if 'A' <= c && c <= 'Z' {
        ((c as u8) + 32) as char
    } else {
        c
    }
}

/// Lower-case form of a text under the ASCII mapping.
pub open spec fn ascii_lower(s: Seq<char>) -> Seq<char> {
    s.map_values(|c: char| ascii_lower_char(c))
}

/// Two texts are equal up to the case of ASCII letters.
pub open spec fn eq_ignoring_ascii_case(a: Seq<char>, b: Seq<char>) -> bool {
    ascii_lower(a) == ascii_lower(b)
}

/// The character is white space: one of the code points with the Unicode property
/// `White_Space`.
pub open spec fn is_white_space(c: char) -> bool {
    let u = c as u32;
    (0x09 <= u <= 0x0D) || u == 0x20 || u == 0x85 || u == 0xA0 || u == 0x1680 || (0x2000 <= u
        <= 0x200A) || u == 0x2028 || u == 0x2029 || u == 0x202F || u == 0x205F || u == 0x3000
}

/// The text without the white space at its start.
pub open spec fn trimmed_start(s: Seq<char>) -> Seq<char>
    decreases s.len(),
{
    if s.len() > 0 && is_white_space(s[0]) {
        trimmed_start(s.skip(1))
    } else {
        s
    }
}

/// The text without the white space at its end.
pub open spec fn trimmed_end(s: Seq<char>) -> Seq<char>
    decreases s.len(),
{
    if s.len() > 0 && is_white_space(s.last()) {
        trimmed_end(s.drop_last())
    } else {
        s
    }
}

/// The text without the white space at its start and at its end.
pub open spec fn trimmed(s: Seq<char>) -> Seq<char> {
    trimmed_end(trimmed_start(s))
}

/// The text without every copy of `pattern` that stands at its start, one behind the other.
pub open spec fn without_leading(s: Seq<char>, pattern: Seq<char>) -> Seq<char>
    decreases s.len(),
{
    if pattern.len() > 0 && occurs_at(s, pattern, 0) {
        without_leading(s.skip(pattern.len() as int), pattern)
    } else {
        s
    }
}

/// The text between a pair of double quotes that enclose it; a text that is not enclosed
/// stays as it is.
pub open spec fn unquoted(s: Seq<char>) -> Seq<char> {
    if s.len() >= 2 && s[0] == '"' && s.last() == '"' {
        s.subrange(1, s.len() - 1)
    } else {
        s
    }
}

/// `text` shows an optional byte string: it is the lossy text of the bytes, which for
/// well-formed UTF-8 is the text that they encode, and it is empty when there are none.
pub open spec fn shows(bytes: Option<Seq<u8>>, text: Seq<char>) -> bool {
    &&& text == lossy_or_empty(bytes)
    &&& bytes is Some && valid_utf8(bytes->0) ==> text == decode_utf8(bytes->0)
}

/// The lossy text of an optional byte string; empty when there is none.
pub open spec fn lossy_or_empty(bytes: Option<Seq<u8>>) -> Seq<char> {
    match bytes {
        Some(b) => utf8_lossy_text(b),
        None => Seq::<char>::empty(),
    }
}

/// Value of a run of decimal digits, most significant first.
pub open spec fn digits_value(s: Seq<char>) -> int
    decreases s.len(),
{
    if s.len() == 0 {
        0
    } else {
        digits_value(s.drop_last()) * 10 + (s.last() as int - '0' as int)
    }
}

/// Every character is one of `0` to `9`.
pub open spec fn all_digits(s: Seq<char>) -> bool {
    forall|i: int| 0 <= i < s.len() ==> '0' <= #[trigger] s[i] && s[i] <= '9'
}

/// The integer that a decimal literal denotes: an optional sign, then at least one digit.
pub open spec fn decimal_value(s: Seq<char>) -> Option<int> {
    if s.len() > 0 && s[0] == '-' {
        if s.len() > 1 && all_digits(s.skip(1)) {
            Some(-digits_value(s.skip(1)))
        } else {
            None
        }
    } else if s.len() > 0 && s[0] == '+' {
        if s.len() > 1 && all_digits(s.skip(1)) {
            Some(digits_value(s.skip(1)))
        } else {
            None
        }
    } else if s.len() > 0 && all_digits(s) {
        Some(digits_value(s))
    } else {
        None
    }
}

/// The 32-bit signed integer that a decimal literal denotes, if it fits.
pub open spec fn decimal_i32(s: Seq<char>) -> Option<i32> {
    match decimal_value(s) {
        Some(v) => if i32::MIN <= v <= i32::MAX {
            Some(v as i32)
        } else {
            None
        },
        None => None,
    }
}

/// The index that a run of digits denotes, if it is not empty and fits the machine word.
pub open spec fn decimal_usize(s: Seq<char>) -> Option<usize> {
    if s.len() > 0 && all_digits(s) && digits_value(s) <= usize::MAX {
        Some(digits_value(s) as usize)
    } else {
        None
    }
}

/// Decimal digits of a natural number, without leading zeros (`0` for zero).
pub open spec fn nat_text(n: nat) -> Seq<char>
    decreases n,
{
    if n < 10 {
        seq![(('0' as u8) + (n as u8)) as char]
    } else {
        nat_text(n / 10).push((('0' as u8) + ((n % 10) as u8)) as char)
    }
}

/// Decimal form of an integer, with `-` in front of a negative one.
pub open spec fn int_text(n: int) -> Seq<char> {
    if n < 0 {
        seq!['-'] + nat_text((-n) as nat)
    } else {
        nat_text(n as nat)
    }
}

/// Calls `String::from_utf8_lossy`. Trusted: the result is the lossy decoding of the bytes,
/// which for well-formed UTF-8 is the text that the bytes encode.
#[verifier::external_body]
pub(crate) fn lossy_string(bytes: &[u8]) -> (s: String)
    ensures
        s@ == utf8_lossy_text(bytes@),
        valid_utf8(bytes@) ==> s@ == decode_utf8(bytes@),
{
    String::from_utf8_lossy(bytes).into_owned()
}

/// Calls `str::to_lowercase`. Trusted: the result is the Unicode lower-case mapping of the text.
#[verifier::external_body]
pub(crate) fn lowercase(s: &str) -> (r: String)
    ensures
        r@ == lowercase_text(s@),
{
    s.to_lowercase()
}

/// Calls `str::parse::<i32>`. Trusted: it accepts exactly the decimal literals of 32-bit
/// integers (an optional sign, then digits) and otherwise reports what was wrong in words.
#[verifier::external_body]
pub(crate) fn parse_i32(s: &str) -> (r: Result<i32, String>)
    ensures
        match r {
            Ok(n) => decimal_i32(s@) == Some(n),
            Err(e) => decimal_i32(s@) is None && e@ == i32_parse_error_text(s@),
        },
{
    match s.parse::<i32>() {
        Ok(n) => Ok(n),
        Err(e) => Err(e.to_string()),
    }
}

/// Text of a string slice as an owned string.
pub fn owned(s: &str) -> (r: String)
    ensures
        r@ == s@,
{
    s.to_owned()
}

/// Both texts, one after the other.
pub fn joined(a: &str, b: &str) -> (r: String)
    ensures
        r@ == a@ + b@,
{
    let mut out = a.to_owned();
    out.append(b);
    out
}

/// The characters of a text, one by one.
pub fn chars_of(s: &str) -> (r: Vec<char>)
    ensures
        r@ == s@,
{
    let n: usize = s.unicode_len();
    let mut out: Vec<char> = Vec::new();
    let mut i: usize = 0;
    while i < n
        invariant
            i <= n,
            n == s@.len(),
            out@ == s@.subrange(0, i as int),
        decreases n - i,
    {
        out.push(s.get_char(i));
        assert(out@ =~= s@.subrange(0, i + 1));
        i += 1;
    }
    assert(s@.subrange(0, n as int) =~= s@);
    out
}

/// Whether two lists hold the same characters.
pub fn same_chars(a: &Vec<char>, b: &Vec<char>) -> (r: bool)
    ensures
        r == (a@ == b@),
{
    if a.len() != b.len() {
        return false;
    }
    let mut i: usize = 0;
    while i < a.len()
        invariant
            i <= a.len(),
            a.len() == b.len(),
            forall|k: int| 0 <= k < i ==> a@[k] == b@[k],
        decreases a.len() - i,
    {
        if a[i] != b[i] {
            return false;
        }
        i += 1;
    }
    assert(a@ =~= b@);
    true
}

/// Whether two texts hold the same characters.
pub fn same_text(a: &str, b: &str) -> (r: bool)
    ensures
        r == (a@ == b@),
{
    let x = chars_of(a);
    let y = chars_of(b);
    same_chars(&x, &y)
}

/// Lower-case form of one character under the ASCII mapping.
pub fn lower_char(c: char) -> (r: char)
    ensures
        r == ascii_lower_char(c),
{
    if 'A' <= c && c <= 'Z' {
        ((c as u8) + 32) as char
    } else {
        c
    }
}

/// The characters of a text in lower case under the ASCII mapping.
pub fn lower_chars(s: &str) -> (r: Vec<char>)
    ensures
        r@ == ascii_lower(s@),
{
    let chars = chars_of(s);
    let mut out: Vec<char> = Vec::new();
    let mut i: usize = 0;
    assert(out@ =~= ascii_lower(s@.subrange(0, 0)));
    while i < chars.len()
        invariant
            i <= chars.len(),
            chars@ == s@,
            out@ == ascii_lower(s@.subrange(0, i as int)),
        decreases chars.len() - i,
    {
        out.push(lower_char(chars[i]));
        assert(out@ =~= ascii_lower(s@.subrange(0, i + 1)));
        i += 1;
    }
    assert(s@.subrange(0, chars@.len() as int) =~= s@);
    out
}

/// Whether a text in lower case under the ASCII mapping is `plain`.
pub fn lower_is(s: &str, plain: &str) -> (r: bool)
    ensures
        r == (ascii_lower(s@) == plain@),
{
    let x = lower_chars(s);
    let y = chars_of(plain);
    same_chars(&x, &y)
}

/// Whether two texts are equal up to the case of ASCII letters.
pub fn same_ignoring_ascii_case(a: &str, b: &str) -> (r: bool)
    ensures
        r == eq_ignoring_ascii_case(a@, b@),
{
    let x = lower_chars(a);
    let y = lower_chars(b);
    same_chars(&x, &y)
}

/// Whether `needle` occurs in `hay` at position `at`.
pub fn stands_at(hay: &Vec<char>, needle: &Vec<char>, at: usize) -> (r: bool)
    ensures
        r == occurs_at(hay@, needle@, at as int),
{
    if at > hay.len() || needle.len() > hay.len() - at {
        return false;
    }
    let mut k: usize = 0;
    while k < needle.len()
        invariant
            k <= needle.len(),
            at + needle.len() <= hay.len(),
            forall|x: int| 0 <= x < k ==> hay@[at + x] == needle@[x],
        decreases needle.len() - k,
    {
        if hay[at + k] != needle[k] {
            assert(hay@.subrange(at as int, at + needle@.len())[k as int] != needle@[k as int]);
            return false;
        }
        k += 1;
    }
    assert(hay@.subrange(at as int, at + needle@.len()) =~= needle@);
    true
}

/// Finds the first position at which `needle` occurs in `hay`.
pub fn find_first(hay: &Vec<char>, needle: &Vec<char>) -> (r: Option<usize>)
    ensures
        match r {
            Some(at) => first_occurrence(hay@, needle@, at as int) && at + needle@.len()
                <= hay@.len(),
            None => occurs_nowhere(hay@, needle@),
        },
{
    if needle.len() > hay.len() {
        return None;
    }
    let last: usize = hay.len() - needle.len();
    let mut at: usize = 0;
    loop
        invariant
            at <= last,
            last == hay.len() - needle.len(),
            forall|j: int| 0 <= j < at ==> !occurs_at(hay@, needle@, j),
        decreases last - at,
    {
        if stands_at(hay, needle, at) {
            return Some(at);
        }
        if at == last {
            return None;
        }
        at += 1;
    }
}

/// Whether `needle` occurs in `hay`.
pub fn contains_text(hay: &str, needle: &str) -> (r: bool)
    ensures
        r == has_substring(hay@, needle@),
{
    let h = chars_of(hay);
    let n = chars_of(needle);
    match find_first(&h, &n) {
        Some(at) => {
            assert(occurs_at(h@, n@, at as int));
            assert(h@.subrange(at as int, at + n@.len()) == n@);
            true
        },
        None => {
            assert forall|i: int| 0 <= i && i + n@.len() <= h@.len() implies #[trigger] h@.subrange(
                i,
                i + n@.len(),
            ) != n@ by {
                assert(!occurs_at(h@, n@, i));
            }
            false
        },
    }
}

/// Whether the characters end with those of `suffix`.
pub fn chars_end_with(s: &Vec<char>, suffix: &Vec<char>) -> (r: bool)
    ensures
        r == has_suffix(s@, suffix@),
{
    if suffix.len() > s.len() {
        return false;
    }
    stands_at(s, suffix, s.len() - suffix.len())
}

/// Whether a text ends with `suffix`.
pub fn ends_with_text(s: &str, suffix: &str) -> (r: bool)
    ensures
        r == has_suffix(s@, suffix@),
{
    let x = chars_of(s);
    let y = chars_of(suffix);
    chars_end_with(&x, &y)
}

/// Cuts a text before the first place at which `needle` occurs in it; `None` where it
/// occurs nowhere.
pub fn split_at_first<'a>(hay: &'a str, needle: &str) -> (r: Option<(&'a str, &'a str)>)
    ensures
        match r {
            Some((before, rest)) => before@ + rest@ == hay@ && first_occurrence(
                hay@,
                needle@,
                before@.len() as int,
            ),
            None => occurs_nowhere(hay@, needle@),
        },
{
    let h = chars_of(hay);
    let n = chars_of(needle);
    match find_first(&h, &n) {
        Some(at) => {
            let before = hay.substring_char(0, at);
            let rest = hay.substring_char(at, h.len());
            assert(before@ + rest@ =~= hay@);
            Some((before, rest))
        },
        None => None,
    }
}

/// Removes every copy of `pattern` that stands at the start of a text, one behind the
/// other.
pub fn strip_leading<'a>(s: &'a str, pattern: &str) -> (r: &'a str)
    requires
        pattern@.len() > 0,
    ensures
        r@ == without_leading(s@, pattern@),
{
    let h = chars_of(s);
    let p = chars_of(pattern);
    let mut at: usize = 0;
    assert(s@.skip(0) =~= s@);
    while stands_at(&h, &p, at)
        invariant
            at <= h.len(),
            h@ == s@,
            p@ == pattern@,
            p@.len() > 0,
            without_leading(s@, pattern@) == without_leading(s@.skip(at as int), pattern@),
        decreases h.len() - at,
    {
        proof {
            let rest = s@.skip(at as int);
            assert(rest.subrange(0, p@.len() as int) =~= s@.subrange(
                at as int,
                at + p@.len(),
            ));
            assert(occurs_at(rest, p@, 0));
            assert(rest.skip(p@.len() as int) =~= s@.skip(at + p@.len()));
        }
        at = at + p.len();
    }
    proof {
        let rest = s@.skip(at as int);
        assert(rest.subrange(0, p@.len() as int) =~= s@.subrange(at as int, at + p@.len())
            || rest.len() < p@.len());
        assert(!occurs_at(rest, p@, 0));
    }
    let r = s.substring_char(at, h.len());
    assert(r@ =~= s@.skip(at as int));
    r
}

/// Whether a character is white space.
pub fn white_space(c: char) -> (r: bool)
    ensures
        r == is_white_space(c),
{
    let u: u32 = c as u32;
    (0x09 <= u && u <= 0x0D) || u == 0x20 || u == 0x85 || u == 0xA0 || u == 0x1680 || (0x2000 <= u
        && u <= 0x200A) || u == 0x2028 || u == 0x2029 || u == 0x202F || u == 0x205F || u == 0x3000
}

/// Removes the white space at both ends of a text.
pub fn trim_text(s: &str) -> (r: &str)
    ensures
        r@ == trimmed(s@),
{
    let chars = chars_of(s);
    let mut from: usize = 0;
    assert(s@.skip(0) =~= s@);
    while from < chars.len() && white_space(chars[from])
        invariant
            from <= chars.len(),
            chars@ == s@,
            trimmed_start(s@) == trimmed_start(s@.skip(from as int)),
        decreases chars.len() - from,
    {
        assert(s@.skip(from as int).skip(1) =~= s@.skip(from + 1));
        from += 1;
    }
    let ghost rest = s@.skip(from as int);
    assert(trimmed_start(s@) == rest);
    let mut to: usize = chars.len();
    assert(s@.subrange(from as int, to as int) =~= rest);
    while to > from && white_space(chars[to - 1])
        invariant
            from <= to <= chars.len(),
            chars@ == s@,
            trimmed_end(rest) == trimmed_end(s@.subrange(from as int, to as int)),
        decreases to,
    {
        assert(s@.subrange(from as int, to as int).drop_last() =~= s@.subrange(
            from as int,
            to - 1,
        ));
        to -= 1;
    }
    s.substring_char(from, to)
}

/// Removes a pair of double quotes that enclose the text.
pub fn unquote(s: &str) -> (r: &str)
    ensures
        r@ == unquoted(s@),
{
    let n: usize = s.unicode_len();
    if n >= 2 && s.get_char(0) == '"' && s.get_char(n - 1) == '"' {
        s.substring_char(1, n - 1)
    } else {
        s
    }
}

/// Reads a run of digits as an index; `None` where its value does not fit.
pub fn parse_index(s: &str) -> (r: Option<usize>)
    requires
        all_digits(s@),
        s@.len() > 0,
    ensures
        r == decimal_usize(s@),
{
    let chars = chars_of(s);
    let mut value: usize = 0;
    let mut i: usize = 0;
    assert(chars@.subrange(0, 0) =~= Seq::<char>::empty());
    while i < chars.len()
        invariant
            i <= chars.len(),
            chars@ == s@,
            all_digits(chars@),
            value == digits_value(chars@.subrange(0, i as int)),
        decreases chars.len() - i,
    {
        let c: char = chars[i];
        assert('0' <= chars@[i as int] && chars@[i as int] <= '9');
        let d: usize = (c as u32 - '0' as u32) as usize;
        let ghost longer = chars@.subrange(0, i + 1);
        proof {
            assert(longer.drop_last() =~= chars@.subrange(0, i as int));
            assert(longer.last() == c);
            assert(digits_value(longer) == value * 10 + d);
        }
        if value > (usize::MAX - d) / 10 {
            proof {
                lemma_digits_grow(chars@, i + 1);
            }
            return None;
        }
        value = value * 10 + d;
        i += 1;
    }
    assert(chars@.subrange(0, chars@.len() as int) =~= chars@);
    Some(value)
}

/// The text of one digit.
fn digit_text(d: u8) -> (r: &'static str)
    requires
        d < 10,
    ensures
        r@ == seq![(('0' as u8) + d) as char],
{
    proof {
        reveal_strlit("0");
        reveal_strlit("1");
        reveal_strlit("2");
        reveal_strlit("3");
        reveal_strlit("4");
        reveal_strlit("5");
        reveal_strlit("6");
        reveal_strlit("7");
        reveal_strlit("8");
        reveal_strlit("9");
    }
    let r = match d {
        0 => "0",
        1 => "1",
        2 => "2",
        3 => "3",
        4 => "4",
        5 => "5",
        6 => "6",
        7 => "7",
        8 => "8",
        _ => "9",
    };
    assert(r@ =~= seq![(('0' as u8) + d) as char]);
    r
}

/// The decimal form of a natural number.
pub fn natural_text(n: u64) -> (r: String)
    ensures
        r@ == nat_text(n as nat),
        r@ == int_text(n as int),
    decreases n,
{
    if n < 10 {
        owned(digit_text(n as u8))
    } else {
        let mut out = natural_text(n / 10);
        out.append(digit_text((n % 10) as u8));
        assert(out@ =~= nat_text((n / 10) as nat).push((('0' as u8) + ((n % 10) as u8)) as char));
        out
    }
}

/// The decimal form of an integer.
pub fn integer_text(n: i64) -> (r: String)
    ensures
        r@ == int_text(n as int),
{
    if n < 0 {
        proof {
            reveal_strlit("-");
        }
        let magnitude: u64 = ((-(n + 1)) as u64) + 1;
        let digits = natural_text(magnitude);
        let r = joined("-", digits.as_str());
        assert("-"@ =~= seq!['-']);
        r
    } else {
        natural_text(n as u64)
    }
}

/// The value of a run of digits is not negative.
pub proof fn lemma_digits_nonnegative(s: Seq<char>)
    requires
        all_digits(s),
    ensures
        digits_value(s) >= 0,
    decreases s.len(),
{
    if s.len() > 0 {
        assert(all_digits(s.drop_last())) by {
            assert forall|i: int| 0 <= i < s.drop_last().len() implies '0'
                <= #[trigger] s.drop_last()[i] && s.drop_last()[i] <= '9' by {
                assert(s.drop_last()[i] == s[i]);
            }
        }
        lemma_digits_nonnegative(s.drop_last());
    }
}

/// A longer run of digits has no smaller value than the run it begins with.
pub proof fn lemma_digits_grow(s: Seq<char>, k: int)
    requires
        all_digits(s),
        0 <= k <= s.len(),
    ensures
        0 <= digits_value(s.subrange(0, k)) <= digits_value(s),
    decreases s.len() - k,
{
    assert(all_digits(s.subrange(0, k))) by {
        assert forall|i: int| 0 <= i < k implies '0' <= #[trigger] s.subrange(0, k)[i]
            && s.subrange(0, k)[i] <= '9' by {
            assert(s.subrange(0, k)[i] == s[i]);
        }
    }
    lemma_digits_nonnegative(s.subrange(0, k));
    if k == s.len() {
        assert(s.subrange(0, k) =~= s);
    } else {
        lemma_digits_grow(s, k + 1);
        let longer = s.subrange(0, k + 1);
        assert(longer.drop_last() =~= s.subrange(0, k));
        assert(longer.last() == s[k]);
    }
}

/// The decimal digits of a natural number are digits, at least one, and spell the number.
pub proof fn lemma_nat_text(n: nat)
    ensures
        nat_text(n).len() >= 1,
        all_digits(nat_text(n)),
        digits_value(nat_text(n)) == n,
    decreases n,
{
    if n < 10 {
        let c = (('0' as u8) + (n as u8)) as char;
        let s = seq![c];
        assert(s.drop_last() =~= Seq::<char>::empty());
        assert(s.last() == c);
        assert(digits_value(s.drop_last()) == 0);
        assert(c as int - '0' as int == n);
    } else {
        lemma_nat_text(n / 10);
        let c = (('0' as u8) + ((n % 10) as u8)) as char;
        let s = nat_text(n / 10).push(c);
        assert(s.drop_last() =~= nat_text(n / 10));
        assert(s.last() == c);
        assert(c as int - '0' as int == n % 10);
        assert forall|i: int| 0 <= i < s.len() implies '0' <= #[trigger] s[i] && s[i] <= '9' by {
            if i < s.len() - 1 {
                assert(s[i] == nat_text(n / 10)[i]);
            }
        }
    }
}

/// The decimal form of an integer has at least one character, digits behind the first, and
/// a first character that is `-` exactly when the integer is negative.
pub proof fn lemma_int_text(n: int)
    ensures
        int_text(n).len() >= 1,
        forall|i: int| 1 <= i < int_text(n).len() ==> '0' <= #[trigger] int_text(n)[i]
            && int_text(n)[i] <= '9',
        (int_text(n)[0] == '-') == (n < 0),
{
    if n < 0 {
        lemma_nat_text((-n) as nat);
        let t = nat_text((-n) as nat);
        assert forall|i: int| 1 <= i < int_text(n).len() implies '0' <= #[trigger] int_text(n)[i]
            && int_text(n)[i] <= '9' by {
            assert(int_text(n)[i] == t[i - 1]);
        }
    } else {
        lemma_nat_text(n as nat);
        assert(int_text(n)[0] == nat_text(n as nat)[0]);
    }
}

/// Two integers with the same decimal form are the same.
pub proof fn lemma_int_text_injective(a: int, b: int)
    requires
        int_text(a) == int_text(b),
    ensures
        a == b,
{
    lemma_int_text(a);
    lemma_int_text(b);
    if a < 0 {
        lemma_nat_text((-a) as nat);
        lemma_nat_text((-b) as nat);
        assert(int_text(a).skip(1) =~= nat_text((-a) as nat));
        assert(int_text(b).skip(1) =~= nat_text((-b) as nat));
    } else {
        lemma_nat_text(a as nat);
        lemma_nat_text(b as nat);
    }
}

/// The text of each side of a result.
pub open spec fn result_text(r: Result<String, String>) -> Result<Seq<char>, Seq<char>> {
    match r {
        Ok(s) => Ok(s@),
        Err(e) => Err(e@),
    }
}

} // verus!
