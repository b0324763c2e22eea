use vstd::prelude::*;
use vstd::utf8::encode_utf8;
use crate::text::{lossy_string, shows, utf8_lossy_text};

verus! {

/// Lower-case form of an ASCII letter; any other byte stays.
pub open spec fn lower_byte(b: u8) -> u8 {
    if 0x41 <= b <= 0x5A {
        (b + 0x20) as u8
    } else {
        b
    }
}

/// The byte is an ASCII letter or digit.
pub open spec fn is_word_byte(b: u8) -> bool {
    (0x30 <= b <= 0x39) || (0x41 <= b <= 0x5A) || (0x61 <= b <= 0x7A)
}

/// The byte is blank between a name and its value: tab, line feed, form feed, carriage
/// return or space.
pub open spec fn is_blank(b: u8) -> bool {
    b == 0x09 || b == 0x0A || b == 0x0C || b == 0x0D || b == 0x20
}

/// The byte ends a value without quotes: white space of the Latin-1 range, or `;`.
pub open spec fn ends_bare_value(b: u8) -> bool {
    (0x09 <= b <= 0x0D) || b == 0x20 || b == 0x85 || b == 0xA0 || b == 0x3B
}

/// The name `field`, given in lower case, stands at `i` in any case of letters, as a word
/// of its own: no letter or digit stands right before or right behind it.
pub open spec fn names_at(s: Seq<u8>, field: Seq<u8>, i: int) -> bool {
    &&& 0 <= i && i + field.len() <= s.len()
    &&& forall|k: int| 0 <= k < field.len() ==> lower_byte(#[trigger] s[i + k]) == field[k]
    &&& i == 0 || !is_word_byte(s[i - 1])
    &&& i + field.len() >= s.len() || !is_word_byte(s[i + field.len()])
}

/// Position of the first byte at or after `from` that is not blank.
pub open spec fn after_blanks(s: Seq<u8>, from: int) -> int
    decreases s.len() - from,
{
    if from < 0 || from >= s.len() || !is_blank(s[from]) {
        from
    } else {
        after_blanks(s, from + 1)
    }
}

/// Position of the first byte `b` at or after `from`; the length when there is none.
pub open spec fn next_byte(s: Seq<u8>, b: u8, from: int) -> int
    decreases s.len() - from,
{
    if from < 0 || from >= s.len() || s[from] == b {
        from
    } else {
        next_byte(s, b, from + 1)
    }
}

/// Position of the first byte at or after `from` that ends a value without quotes; the
/// length when there is none.
pub open spec fn bare_end(s: Seq<u8>, from: int) -> int
    decreases s.len() - from,
{
    if from < 0 || from >= s.len() || ends_bare_value(s[from]) {
        from
    } else {
        bare_end(s, from + 1)
    }
}

/// The name `field` stands at `i` and is given a value: behind it, after any blanks, comes
/// `=`.
pub open spec fn assigns_at(s: Seq<u8>, field: Seq<u8>, i: int) -> bool {
    names_at(s, field, i) && after_blanks(s, i + field.len()) < s.len() && s[after_blanks(
        s,
        i + field.len(),
    )] == 0x3D
}

/// The value written behind the `=` that follows the name at `i`: what stands between a
/// pair of single or double quotes, up to the end where the closing quote is missing; or,
/// without quotes, what stands before the next white space or `;`. `None` where nothing
/// follows the `=`, or the value without quotes is empty.
pub open spec fn value_at(s: Seq<u8>, field: Seq<u8>, i: int) -> Option<Seq<u8>> {
    let j = after_blanks(s, after_blanks(s, i + field.len()) + 1);
    if j >= s.len() {
        None
    } else if s[j] == 0x22 || s[j] == 0x27 {
        Some(s.subrange(j + 1, next_byte(s, s[j], j + 1)))
    } else if bare_end(s, j) > j {
        Some(s.subrange(j, bare_end(s, j)))
    } else {
        None
    }
}

/// The value of the first place at or after `from` where the name `field` is given one.
pub open spec fn field_value_from(s: Seq<u8>, field: Seq<u8>, from: int) -> Option<Seq<u8>>
    decreases s.len() - from + 1,
{
    if from < 0 || from + field.len() > s.len() {
        None
    } else if assigns_at(s, field, from) {
        value_at(s, field, from)
    } else {
        field_value_from(s, field, from + 1)
    }
}

/// The value that a JAAS-like text gives the name `field`.
pub open spec fn field_value(s: Seq<u8>, field: Seq<u8>) -> Option<Seq<u8>> {
    field_value_from(s, field, 0)
}

/// User name and password that a JAAS-like text gives, as texts; `None` when one of them
/// is missing.
pub open spec fn jaas_credentials(s: Seq<u8>, user_field: Seq<u8>, pass_field: Seq<u8>) -> Option<
    (Seq<char>, Seq<char>),
> {
    match (field_value(s, user_field), field_value(s, pass_field)) {
        (Some(u), Some(p)) => Some((utf8_lossy_text(u), utf8_lossy_text(p))),
        _ => None,
    }
}

/// User name and password that a JAAS-like text gives to the names `username` and
/// `password`.
pub open spec fn credentials_of(text: Seq<char>) -> Option<(Seq<char>, Seq<char>)> {
    jaas_credentials(encode_utf8(text), encode_utf8("username"@), encode_utf8("password"@))
}

/// The bytes of the value that a JAAS-like text gives the name `name`, which is given in
/// lower case.
pub open spec fn value_bytes(text: Seq<char>, name: Seq<char>) -> Option<Seq<u8>> {
    field_value(encode_utf8(text), encode_utf8(name))
}

/// Lower-case form of a byte.
fn to_lower(b: u8) -> (r: u8)
    ensures
        r == lower_byte(b),
{
    if 0x41 <= b && b <= 0x5A {
        b + 0x20
    } else {
        b
    }
}

/// Whether a byte is an ASCII letter or digit.
fn word_byte(b: u8) -> (r: bool)
    ensures
        r == is_word_byte(b),
{
    (0x30 <= b && b <= 0x39) || (0x41 <= b && b <= 0x5A) || (0x61 <= b && b <= 0x7A)
}

/// Finds the first byte at or after `from` that is not blank.
fn skip_blanks(s: &[u8], from: usize) -> (j: usize)
    requires
        from <= s.len(),
    ensures
        j == after_blanks(s@, from as int),
        from <= j <= s.len(),
{
    let mut j: usize = from;
    while j < s.len() && (s[j] == 0x09 || s[j] == 0x0A || s[j] == 0x0C || s[j] == 0x0D || s[j]
        == 0x20)
        invariant
            from <= j <= s.len(),
            after_blanks(s@, from as int) == after_blanks(s@, j as int),
        decreases s.len() - j,
    {
        j += 1;
    }
    j
}

/// Finds the first byte `b` at or after `from`.
fn find_byte(s: &[u8], b: u8, from: usize) -> (j: usize)
    requires
        from <= s.len(),
    ensures
        j == next_byte(s@, b, from as int),
        from <= j <= s.len(),
{
    let mut j: usize = from;
    while j < s.len() && s[j] != b
        invariant
            from <= j <= s.len(),
            next_byte(s@, b, from as int) == next_byte(s@, b, j as int),
        decreases s.len() - j,
    {
        j += 1;
    }
    j
}

/// Finds the end of a value without quotes that begins at `from`.
fn find_bare_end(s: &[u8], from: usize) -> (j: usize)
    requires
        from <= s.len(),
    ensures
        j == bare_end(s@, from as int),
        from <= j <= s.len(),
{
    let mut j: usize = from;
    while j < s.len() && !((0x09 <= s[j] && s[j] <= 0x0D) || s[j] == 0x20 || s[j] == 0x85 || s[j]
        == 0xA0 || s[j] == 0x3B)
        invariant
            from <= j <= s.len(),
            bare_end(s@, from as int) == bare_end(s@, j as int),
        decreases s.len() - j,
    {
        j += 1;
    }
    j
}

/// Whether the name stands at `i` as a word of its own.
fn name_stands_at(s: &[u8], field: &[u8], i: usize) -> (r: bool)
    requires
        i + field.len() <= s.len(),
    ensures
        r == names_at(s@, field@, i as int),
{
    let mut k: usize = 0;
    while k < field.len()
        invariant
            k <= field.len(),
            i + field.len() <= s.len(),
            forall|x: int| 0 <= x < k ==> lower_byte(#[trigger] s@[i + x]) == field@[x],
        decreases field.len() - k,
    {
        if to_lower(s[i + k]) != field[k] {
            return false;
        }
        k += 1;
    }
    let before_ok: bool = i == 0 || !word_byte(s[i - 1]);
    let after: usize = i + field.len();
    let after_ok: bool = after >= s.len() || !word_byte(s[after]);
    before_ok && after_ok
}

/// Finds the value that the text gives the name `field`, which is given in lower case.
pub fn extract_field(s: &[u8], field: &[u8]) -> (r: Option<(usize, usize)>)
    ensures
        match r {
            Some((from, to)) => from <= to <= s.len() && field_value(s@, field@) == Some(
                s@.subrange(from as int, to as int),
            ),
            None => field_value(s@, field@) is None,
        },
{
    if field.len() > s.len() {
        return None;
    }
    let last: usize = s.len() - field.len();
    let mut i: usize = 0;
    loop
        invariant
            i <= last,
            last == s.len() - field.len(),
            field_value(s@, field@) == field_value_from(s@, field@, i as int),
        decreases last - i,
    {
        if name_stands_at(s, field, i) {
            let eq = skip_blanks(s, i + field.len());
            if eq < s.len() && s[eq] == 0x3D {
                let j = skip_blanks(s, eq + 1);
                if j >= s.len() {
                    return None;
                }
                let quote: u8 = s[j];
                if quote == 0x22 || quote == 0x27 {
                    let close = find_byte(s, quote, j + 1);
                    return Some((j + 1, close));
                }
                let end = find_bare_end(s, j);
                if end > j {
                    return Some((j, end));
                }
                return None;
            }
        }
        if i == last {
            assert(field_value_from(s@, field@, i + 1) is None);
            return None;
        }
        i += 1;
    }
}

/// Takes user name and password out of a JAAS-like text such as
/// `username="user" password="pass";`. Names are found in any case of letters; `=` may
/// stand between blanks; a value stands in single or double quotes or ends at white space
/// or `;`. Each value is given as the lossy text of its bytes, which for a value of
/// well-formed UTF-8 is the text that it encodes.
pub fn parse_username_password_from_jaas(s: &str) -> (r: Option<(String, String)>)
    ensures
        match r {
            Some((user, pass)) => {
                &&& credentials_of(s@) == Some((user@, pass@))
                &&& shows(value_bytes(s@, "username"@), user@)
                &&& shows(value_bytes(s@, "password"@), pass@)
            },
            None => credentials_of(s@) is None,
        },
{
    let bytes = s.as_bytes();
    let user = match extract_field(bytes, "username".as_bytes()) {
        Some((from, to)) => lossy_string(&bytes[from..to]),
        None => {
            return None;
        },
    };
    let pass = match extract_field(bytes, "password".as_bytes()) {
        Some((from, to)) => lossy_string(&bytes[from..to]),
        None => {
            return None;
        },
    };
    Some((user, pass))
}

} // verus!
