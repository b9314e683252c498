//! Unordered pairs.
use vstd::prelude::*;
use vstd::std_specs::cmp::PartialEqSpec;
use vstd::std_specs::cmp::PartialEqSpecImpl;
use crate::color::{Color, key_of, color_key, same_color, lemma_key_injective, KEY_LIMIT};
use crate::extents::{Pos, same_pos};

verus! {

/// A pair without an order: `(a, b)` and `(b, a)` are the same pair.
#[derive(Debug, Clone, Copy)]
pub struct UOrd<T> {
    pub a: T,
    pub b: T,
}

/// The base of a pair key: one more than the largest colour key.
pub const PAIR_BASE: u64 = 0x100_0000;

/// The pair of two values.
pub open spec fn pair_of<T>(a: T, b: T) -> UOrd<T> {
    UOrd { a, b }
}

/// The key of an unordered pair of colour keys: the lesser key, then the greater.
pub open spec fn pair_key(x: u32, y: u32) -> u64 {
    if x <= y {
        (x as u64 * PAIR_BASE + y as u64) as u64
    } else {
        (y as u64 * PAIR_BASE + x as u64) as u64
    }
}

/// The lesser colour key of a pair key.
pub open spec fn pair_low(key: u64) -> u32 {
    (key / PAIR_BASE) as u32
}

/// The greater colour key of a pair key.
pub open spec fn pair_high(key: u64) -> u32 {
    (key % PAIR_BASE) as u32
}

/// Whether a number is the key of a pair of colour keys.
pub open spec fn is_pair_key(key: u64) -> bool {
    key / PAIR_BASE <= key % PAIR_BASE && key / PAIR_BASE < PAIR_BASE
}

/// A pair key holds its two colour keys, whichever came first.
pub proof fn lemma_pair_key(x: u32, y: u32)
    requires
        x < KEY_LIMIT,
        y < KEY_LIMIT,
    ensures
        pair_key(x, y) == pair_key(y, x),
        is_pair_key(pair_key(x, y)),
        pair_low(pair_key(x, y)) == if x <= y { x } else { y },
        pair_high(pair_key(x, y)) == if x <= y { y } else { x },
{
}

/// A pair key is the key of its two halves.
pub proof fn lemma_pair_key_halves(key: u64)
    requires
        is_pair_key(key),
    ensures
        pair_low(key) < KEY_LIMIT,
        pair_high(key) < KEY_LIMIT,
        pair_low(key) <= pair_high(key),
        pair_key(pair_low(key), pair_high(key)) == key,
{
}

/// Packs two colour keys into the key of their pair.
pub fn pair_key_of(x: u32, y: u32) -> (key: u64)
    requires
        x < KEY_LIMIT,
        y < KEY_LIMIT,
    ensures
        key == pair_key(x, y),
        is_pair_key(key),
{
    if x <= y {
        x as u64 * PAIR_BASE + y as u64
    } else {
        y as u64 * PAIR_BASE + x as u64
    }
}

/// Unpacks the key of a pair into its two colour keys, the lesser first.
pub fn pair_key_halves(key: u64) -> (r: (u32, u32))
    requires
        is_pair_key(key),
    ensures
        r.0 == pair_low(key),
        r.1 == pair_high(key),
        r.0 <= r.1,
        r.1 < KEY_LIMIT,
{
    ((key / PAIR_BASE) as u32, (key % PAIR_BASE) as u32)
}

impl<T> UOrd<T> {
    pub fn new(a: T, b: T) -> (u: UOrd<T>)
        ensures
            u.a == a,
            u.b == b,
    {
        UOrd { a, b }
    }

    /// The two members, in the order in which they were given.
    pub fn into_tuple_unordered(self) -> (r: (T, T))
        ensures
            r.0 == self.a,
            r.1 == self.b,
    {
        (self.a, self.b)
    }

    /// The pair of what `f` makes of each member.
    pub fn map<U, F: Fn(T) -> U>(self, f: F) -> (u: UOrd<U>)
        requires
            call_requires(f, (self.a,)),
            call_requires(f, (self.b,)),
        ensures
            call_ensures(f, (self.a,), u.a),
            call_ensures(f, (self.b,), u.b),
    {
        let a = f(self.a);
        let b = f(self.b);
        UOrd { a, b }
    }
}

impl<T: PartialEq> PartialEq for UOrd<T> {
    /// Two pairs are equal when they hold equal members, in either order.
    fn eq(&self, other: &UOrd<T>) -> (r: bool) {
        (self.a == other.a && self.b == other.b) || (self.a == other.b && self.b == other.a)
    }
}

impl<T: PartialEq> PartialEqSpecImpl for UOrd<T> {
    open spec fn obeys_eq_spec() -> bool {
        <T as PartialEqSpec>::obeys_eq_spec()
    }

    open spec fn eq_spec(&self, other: &UOrd<T>) -> bool {
        (self.a.eq_spec(&other.a) && self.b.eq_spec(&other.b)) || (self.a.eq_spec(&other.b)
            && self.b.eq_spec(&other.a))
    }
}

impl UOrd<u32> {
    /// Two pairs are the same when they hold the same members, in either order.
    pub open spec fn same(self, other: UOrd<u32>) -> bool {
        (self.a == other.a && self.b == other.b) || (self.a == other.b && self.b == other.a)
    }

    pub fn contains(&self, x: u32) -> (r: bool)
        ensures
            r == (self.a == x || self.b == x),
    {
        self.a == x || self.b == x
    }

    pub fn replace(self, from: u32, to: u32) -> (u: UOrd<u32>)
        ensures
            u.a == if self.a == from { to } else { self.a },
            u.b == if self.b == from { to } else { self.b },
    {
        let a = if self.a == from { to } else { self.a };
        let b = if self.b == from { to } else { self.b };
        UOrd { a, b }
    }

    pub fn is_distinct(&self) -> (r: bool)
        ensures
            r == (self.a != self.b),
    {
        self.a != self.b
    }

    /// The two members, the lesser first.
    pub fn as_tuple(&self) -> (r: (&u32, &u32))
        ensures
            *r.0 <= *r.1,
            pair_of(*r.0, *r.1).same(*self),
    {
        if self.a <= self.b {
            (&self.a, &self.b)
        } else {
            (&self.b, &self.a)
        }
    }

    /// The two members, the lesser first.
    pub fn into_tuple(self) -> (r: (u32, u32))
        ensures
            r.0 <= r.1,
            pair_of(r.0, r.1).same(self),
    {
        if self.a <= self.b {
            (self.a, self.b)
        } else {
            (self.b, self.a)
        }
    }

    pub fn equals(&self, other: &UOrd<u32>) -> (r: bool)
        ensures
            r == self.same(*other),
    {
        (self.a == other.a && self.b == other.b) || (self.a == other.b && self.b == other.a)
    }
}

impl UOrd<Color> {
    /// Two pairs are the same when they hold the same members, in either order.
    pub open spec fn same(self, other: UOrd<Color>) -> bool {
        (self.a == other.a && self.b == other.b) || (self.a == other.b && self.b == other.a)
    }

    /// The key under which the connection table holds this pair.
    pub open spec fn spec_key(self) -> u64 {
        pair_key(key_of(self.a), key_of(self.b))
    }

    pub fn contains(&self, x: Color) -> (r: bool)
        ensures
            r == (self.a == x || self.b == x),
    {
        same_color(self.a, x) || same_color(self.b, x)
    }

    pub fn replace(self, from: Color, to: Color) -> (u: UOrd<Color>)
        ensures
            u.a == if self.a == from { to } else { self.a },
            u.b == if self.b == from { to } else { self.b },
    {
        let a = if same_color(self.a, from) { to } else { self.a };
        let b = if same_color(self.b, from) { to } else { self.b };
        UOrd { a, b }
    }

    pub fn is_distinct(&self) -> (r: bool)
        ensures
            r == (self.a != self.b),
    {
        !same_color(self.a, self.b)
    }

    /// The two members, the one with the lesser key first: red decides, then
    /// green, then blue.
    pub fn as_tuple(&self) -> (r: (&Color, &Color))
        ensures
            key_of(*r.0) <= key_of(*r.1),
            pair_of(*r.0, *r.1).same(*self),
    {
        if color_key(self.a) <= color_key(self.b) {
            (&self.a, &self.b)
        } else {
            (&self.b, &self.a)
        }
    }

    /// The two members, the one with the lesser key first: red decides, then
    /// green, then blue.
    pub fn into_tuple(self) -> (r: (Color, Color))
        ensures
            key_of(r.0) <= key_of(r.1),
            pair_of(r.0, r.1).same(self),
    {
        if color_key(self.a) <= color_key(self.b) {
            (self.a, self.b)
        } else {
            (self.b, self.a)
        }
    }

    pub fn equals(&self, other: &UOrd<Color>) -> (r: bool)
        ensures
            r == self.same(*other),
            r == (self.spec_key() == other.spec_key()),
    {
        let r = (same_color(self.a, other.a) && same_color(self.b, other.b)) || (same_color(
            self.a,
            other.b,
        ) && same_color(self.b, other.a));
        proof {
            crate::color::lemma_key_round_trip(self.a);
            crate::color::lemma_key_round_trip(self.b);
            crate::color::lemma_key_round_trip(other.a);
            crate::color::lemma_key_round_trip(other.b);
            lemma_pair_key(key_of(self.a), key_of(self.b));
            lemma_pair_key(key_of(other.a), key_of(other.b));
            if self.spec_key() == other.spec_key() {
                if key_of(self.a) == key_of(other.a) {
                    lemma_key_injective(self.a, other.a);
                    lemma_key_injective(self.b, other.b);
                } else {
                    lemma_key_injective(self.a, other.b);
                    lemma_key_injective(self.b, other.a);
                }
            }
        }
        r
    }

    /// The key under which the connection table holds this pair.
    pub fn key(&self) -> (k: u64)
        ensures
            k == self.spec_key(),
            is_pair_key(k),
    {
        pair_key_of(color_key(self.a), color_key(self.b))
    }
}

/// The order of positions: the column decides, then the row.
pub open spec fn pos_le(p: Pos, q: Pos) -> bool {
    p[0] < q[0] || (p[0] == q[0] && p[1] <= q[1])
}

impl UOrd<Pos> {
    /// Two pairs are the same when they hold the same members, in either order.
    pub open spec fn same(self, other: UOrd<Pos>) -> bool {
        (self.a == other.a && self.b == other.b) || (self.a == other.b && self.b == other.a)
    }

    pub fn contains(&self, x: Pos) -> (r: bool)
        ensures
            r == (self.a == x || self.b == x),
    {
        same_pos(self.a, x) || same_pos(self.b, x)
    }

    pub fn replace(self, from: Pos, to: Pos) -> (u: UOrd<Pos>)
        ensures
            u.a == if self.a == from { to } else { self.a },
            u.b == if self.b == from { to } else { self.b },
    {
        let a = if same_pos(self.a, from) { to } else { self.a };
        let b = if same_pos(self.b, from) { to } else { self.b };
        UOrd { a, b }
    }

    pub fn is_distinct(&self) -> (r: bool)
        ensures
            r == (self.a != self.b),
    {
        !same_pos(self.a, self.b)
    }

    /// The two members, the lesser first: the column decides, then the row.
    pub fn as_tuple(&self) -> (r: (&Pos, &Pos))
        ensures
            pos_le(*r.0, *r.1),
            pair_of(*r.0, *r.1).same(*self),
    {
        if self.a[0] < self.b[0] || (self.a[0] == self.b[0] && self.a[1] <= self.b[1]) {
            (&self.a, &self.b)
        } else {
            (&self.b, &self.a)
        }
    }

    /// The two members, the lesser first: the column decides, then the row.
    pub fn into_tuple(self) -> (r: (Pos, Pos))
        ensures
            pos_le(r.0, r.1),
            pair_of(r.0, r.1).same(self),
    {
        if self.a[0] < self.b[0] || (self.a[0] == self.b[0] && self.a[1] <= self.b[1]) {
            (self.a, self.b)
        } else {
            (self.b, self.a)
        }
    }

    pub fn equals(&self, other: &UOrd<Pos>) -> (r: bool)
        ensures
            r == self.same(*other),
    {
        (same_pos(self.a, other.a) && same_pos(self.b, other.b)) || (same_pos(self.a, other.b)
            && same_pos(self.b, other.a))
    }
}

} // verus!
