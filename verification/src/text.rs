//! Numbers as text.
use vstd::prelude::*;

verus! {

/// The character of a decimal digit.
pub open spec fn digit_char(d: nat) -> char {
    if d == 0 {
        '0'
    } else if d == 1 {
        '1'
    } else if d == 2 {
        '2'
    } else if d == 3 {
        '3'
    } else if d == 4 {
        '4'
    } else if d == 5 {
        '5'
    } else if d == 6 {
        '6'
    } else if d == 7 {
        '7'
    } else if d == 8 {
        '8'
    } else {
        '9'
    }
}

/// A number in decimal, without sign or leading zeros.
pub open spec fn decimal(n: nat) -> Seq<char>
    decreases n,
{
    if n < 10 {
        seq![digit_char(n)]
    } else {
        decimal(n / 10).push(digit_char(n % 10))
    }
}

/// `u64::to_string` of std: the decimal digits of the number, as `decimal`
/// spells them out.
#[verifier::external_body]
pub(crate) fn decimal_string(n: u64) -> (s: String)
    ensures
        s@ == decimal(n as nat),
{
    n.to_string()
}

/// A character with its upper-case ASCII letter made lower-case.
pub open spec fn lower_char(c: char) -> char {
    if 'A' <= c && c <= 'Z' {
        ((c as u8 + 32) as u8) as char
    } else {
        c
    }
}

/// A text with its upper-case ASCII letters made lower-case.
pub open spec fn ascii_lower(s: Seq<char>) -> Seq<char> {
    Seq::new(s.len(), |i: int| lower_char(s[i]))
}

/// `str::to_ascii_lowercase` of std: the letters `A` to `Z` become `a` to `z`,
/// every other character stays.
#[verifier::external_body]
pub(crate) fn ascii_lowercase(s: &str) -> (r: String)
    ensures
        r@ == ascii_lower(s@),
{
    s.to_ascii_lowercase()
}

/// `==` of std on two string slices: whether they hold the same characters.
#[verifier::external_body]
pub(crate) fn str_equal(a: &str, b: &str) -> (r: bool)
    ensures
        r == (a@ == b@),
{
    a == b
}

/// What `str::trim` of std leaves of a text: the text without the white
/// space at its two ends.
pub uninterp spec fn trimmed(s: Seq<char>) -> Seq<char>;

/// `str::trim` of std.
#[verifier::external_body]
pub(crate) fn trim(s: &str) -> (r: &str)
    ensures
        r@ == trimmed(s@),
{
    s.trim()
}

/// What `str::to_lowercase` of std makes of a text.
pub uninterp spec fn lowered(s: Seq<char>) -> Seq<char>;

/// `str::to_lowercase` of std.
#[verifier::external_body]
pub(crate) fn lowercase(s: &str) -> (r: String)
    ensures
        r@ == lowered(s@),
{
    s.to_lowercase()
}

/// What `str::to_uppercase` of std makes of a text.
pub uninterp spec fn uppered(s: Seq<char>) -> Seq<char>;

/// `str::to_uppercase` of std: the text with each character replaced by
/// its upper-case form, which depends on the text alone.
#[verifier::external_body]
pub(crate) fn uppercase(s: &str) -> (r: String)
    ensures
        r@ == uppered(s@),
{
    s.to_uppercase()
}

/// Reads a number up to `max` from a text of decimal digits, after a plus
/// sign or none.
pub fn parse_unsigned(s: &str, max: u64) -> (r: Option<u64>)
    ensures
        r is Some == unsigned_of(s@, max as nat) is Some,
        r is Some ==> r.unwrap() <= max && r.unwrap() as nat == unsigned_of(s@, max as nat).unwrap(),
{
    match parse_u64(s) {
        Some(n) => if n <= max {
            Some(n)
        } else {
            None
        },
        None => None,
    }
}

/// Whether a text is made of decimal digits only.
pub open spec fn all_digits(s: Seq<char>) -> bool {
    forall|i: int| 0 <= i < s.len() ==> '0' <= #[trigger] s[i] && s[i] <= '9'
}

/// The number that a text of decimal digits spells.
pub open spec fn digits_value(s: Seq<char>) -> nat
    decreases s.len(),
{
    if s.len() == 0 {
        0
    } else {
        digits_value(s.drop_last()) * 10 + (s.last() as nat - '0' as nat) as nat
    }
}

/// The number that a text spells, if it is one or more decimal digits,
/// after a plus sign or none, and the number is not above `max`.
pub open spec fn unsigned_of(s: Seq<char>, max: nat) -> Option<nat> {
    let body = if s.len() > 0 && s[0] == '+' {
        s.skip(1)
    } else {
        s
    };
    if body.len() > 0 && all_digits(body) && digits_value(body) <= max {
        Some(digits_value(body))
    } else {
        None
    }
}

/// `str::parse` of std to a `u64`: the number that the text spells, where
/// it is decimal digits after an optional plus sign and fits.
#[verifier::external_body]
pub(crate) fn parse_u64(s: &str) -> (r: Option<u64>)
    ensures
        r is Some == unsigned_of(s@, u64::MAX as nat) is Some,
        r is Some ==> r.unwrap() as nat == unsigned_of(s@, u64::MAX as nat).unwrap(),
{
    s.parse::<u64>().ok()
}

/// The order of texts: the first character that differs decides, and a
/// text comes before every longer one that begins with it.
pub open spec fn text_le(a: Seq<char>, b: Seq<char>) -> bool
    decreases a.len(),
{
    if a.len() == 0 {
        true
    } else if b.len() == 0 {
        false
    } else if a[0] != b[0] {
        (a[0] as int) < (b[0] as int)
    } else {
        text_le(a.skip(1), b.skip(1))
    }
}

/// Of two texts one comes before the other or with it.
pub proof fn lemma_text_le_total(a: Seq<char>, b: Seq<char>)
    ensures
        text_le(a, b) || text_le(b, a),
    decreases a.len(),
{
    if a.len() == 0 {
        assert(text_le(a, b));
    } else if b.len() == 0 {
        assert(text_le(b, a));
    } else if a[0] == b[0] {
        lemma_text_le_total(a.skip(1), b.skip(1));
        assert(text_le(a, b) == text_le(a.skip(1), b.skip(1)));
        assert(text_le(b, a) == text_le(b.skip(1), a.skip(1)));
    } else {
        assert(a[0] as int != b[0] as int);
        assert(text_le(a, b) == ((a[0] as int) < (b[0] as int)));
        assert(text_le(b, a) == ((b[0] as int) < (a[0] as int)));
    }
}

/// What comes before a text that comes before another comes before that
/// other.
pub proof fn lemma_text_le_trans(a: Seq<char>, b: Seq<char>, c: Seq<char>)
    requires
        text_le(a, b),
        text_le(b, c),
    ensures
        text_le(a, c),
    decreases a.len(),
{
    if a.len() > 0 && b.len() > 0 && c.len() > 0 {
        if a[0] == b[0] && b[0] == c[0] {
            lemma_text_le_trans(a.skip(1), b.skip(1), c.skip(1));
        }
    }
}

/// `<=` of std on two string slices: their order character by character.
#[verifier::external_body]
pub(crate) fn str_le(a: &str, b: &str) -> (r: bool)
    ensures
        r == text_le(a@, b@),
{
    a <= b
}

/// `String::push` of std: the text with the character at its end.
#[verifier::external_body]
pub(crate) fn push_char(s: &mut String, c: char)
    ensures
        final(s)@ == old(s)@.push(c),
{
    s.push(c)
}

/// `str::chars` of std, collected: the characters of a text.
#[verifier::external_body]
pub(crate) fn chars_of(s: &str) -> (r: Vec<char>)
    ensures
        r@ == s@,
{
    s.chars().collect()
}

/// The text of a sequence of characters.
pub fn string_of(chars: &Vec<char>) -> (s: String)
    ensures
        s@ == chars@,
{
    let mut s = String::new();
    let mut i: usize = 0;
    while i < chars.len()
        invariant
            i <= chars@.len(),
            s@ == chars@.take(i as int),
        decreases chars@.len() - i,
    {
        push_char(&mut s, chars[i]);
        proof {
            assert(chars@.take(i as int + 1) =~= chars@.take(i as int).push(chars@[i as int]));
        }
        i += 1;
    }
    proof {
        assert(chars@.take(chars@.len() as int) =~= chars@);
    }
    s
}

/// A text with blanks behind it, up to a width.
pub open spec fn padded_right(s: Seq<char>, width: nat) -> Seq<char>
    decreases width - s.len(),
{
    if s.len() >= width {
        s
    } else {
        padded_right(s.push(' '), width)
    }
}

/// A text with blanks before it, up to a width.
pub open spec fn padded_left(s: Seq<char>, width: nat) -> Seq<char>
    decreases width - s.len(),
{
    if s.len() >= width {
        s
    } else {
        padded_left(seq![' '] + s, width)
    }
}

/// Puts blanks behind a text until it is as wide as asked.
pub fn pad_right(s: &str, width: usize) -> (r: String)
    ensures
        r@ == padded_right(s@, width as nat),
{
    let mut chars = chars_of(s);
    while chars.len() < width
        invariant
            padded_right(chars@, width as nat) == padded_right(s@, width as nat),
        decreases width - chars@.len(),
    {
        chars.push(' ');
    }
    string_of(&chars)
}

/// Puts blanks before a text until it is as wide as asked.
pub fn pad_left(s: &str, width: usize) -> (r: String)
    ensures
        r@ == padded_left(s@, width as nat),
{
    let mut chars = chars_of(s);
    while chars.len() < width
        invariant
            padded_left(chars@, width as nat) == padded_left(s@, width as nat),
        decreases width - chars@.len(),
    {
        let ghost before = chars@;
        chars.insert(0, ' ');
        proof {
            assert(chars@ =~= seq![' '] + before);
        }
    }
    string_of(&chars)
}

/// The words of a text: what `str::split_whitespace` of std gives, the
/// parts between runs of white space.
pub uninterp spec fn words_of(s: Seq<char>) -> Seq<Seq<char>>;

/// `str::split_whitespace` of std, collected.
#[verifier::external_body]
pub(crate) fn split_words(s: &str) -> (r: Vec<String>)
    ensures
        crate::records::texts(r@) == words_of(s@),
{
    s.split_whitespace().map(str::to_owned).collect()
}

} // verus!
