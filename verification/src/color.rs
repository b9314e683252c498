//! Colours, and the integer keys under which the tables hold them.
use vstd::prelude::*;
use vstd::string::StringExecFns;

use crate::text::{decimal, decimal_string};

verus! {

/// An RGB colour. Two pixels of one colour belong to one province.
pub type Color = [u8; 3];

/// The colour that no province may have.
pub const BLACK_KEY: u32 = 0;

/// One more than the largest key of a colour.
pub const KEY_LIMIT: u32 = 0x100_0000;

/// The key of a colour: its three bytes as one number, red first.
pub open spec fn key_of(c: Color) -> u32 {
    (c[0] as u32 * 0x1_0000 + c[1] as u32 * 0x100 + c[2] as u32) as u32
}

/// The colour of a key below `KEY_LIMIT`.
pub open spec fn color_of(k: u32) -> Color {
    [(k / 0x1_0000) as u8, ((k / 0x100) % 0x100) as u8, (k % 0x100) as u8]
}

/// Keys and colours correspond one to one.
pub proof fn lemma_key_round_trip(c: Color)
    ensures
        key_of(c) < KEY_LIMIT,
        color_of(key_of(c)) == c,
{
    let d = color_of(key_of(c));
    assert(d[0] == c[0]);
    assert(d[1] == c[1]);
    assert(d[2] == c[2]);
    assert(d =~= c);
}

/// A key below the limit is the key of its colour.
pub proof fn lemma_color_round_trip(k: u32)
    requires
        k < KEY_LIMIT,
    ensures
        key_of(color_of(k)) == k,
{
}

/// Two colours with one key are the same colour.
pub proof fn lemma_key_injective(a: Color, b: Color)
    requires
        key_of(a) == key_of(b),
    ensures
        a == b,
{
    lemma_key_round_trip(a);
    lemma_key_round_trip(b);
}

/// Packs a colour into its key.
pub fn color_key(c: Color) -> (k: u32)
    ensures
        k == key_of(c),
        k < KEY_LIMIT,
{
    let r: u32 = c[0] as u32;
    let g: u32 = c[1] as u32;
    let b: u32 = c[2] as u32;
    r * 0x1_0000 + g * 0x100 + b
}

/// Unpacks a key into its colour.
pub fn key_color(k: u32) -> (c: Color)
    requires
        k < KEY_LIMIT,
    ensures
        c == color_of(k),
        key_of(c) == k,
{
    let c: Color = [(k / 0x1_0000) as u8, ((k / 0x100) % 0x100) as u8, (k % 0x100) as u8];
    proof {
        assert(c =~= color_of(k));
        lemma_color_round_trip(k);
    }
    c
}

/// Whether two colours are the same.
pub fn same_color(a: Color, b: Color) -> (r: bool)
    ensures
        r == (a == b),
        r == (key_of(a) == key_of(b)),
{
    let r = a[0] == b[0] && a[1] == b[1] && a[2] == b[2];
    proof {
        if r {
            assert(a =~= b);
        }
        if key_of(a) == key_of(b) {
            lemma_key_injective(a, b);
        }
    }
    r
}

/// What `stringify_color` writes: the three bytes in decimal, in brackets.
pub open spec fn color_text(c: Color) -> Seq<char> {
    "("@ + decimal(c[0] as nat) + ", "@ + decimal(c[1] as nat) + ", "@ + decimal(c[2] as nat)
        + ")"@
}

/// The text `(r, g, b)` of a colour.
pub fn stringify_color(color: Color) -> (s: String)
    ensures
        s@ == color_text(color),
{
    let mut s = String::from_str("(");
    s.append(decimal_string(color[0] as u64).as_str());
    s.append(", ");
    s.append(decimal_string(color[1] as u64).as_str());
    s.append(", ");
    s.append(decimal_string(color[2] as u64).as_str());
    s.append(")");
    s
}

} // verus!
