//! Counting the pixels of a colour in a raster, and summing their positions.
use vstd::prelude::*;

verus! {

/// The sum of `f(i)` over the places `i` at which `s` holds `k`.
pub open spec fn weight(s: Seq<u32>, k: u32, f: spec_fn(int) -> nat) -> nat
    decreases s.len(),
{
    if s.len() == 0 {
        0
    } else {
        weight(s.drop_last(), k, f) + if s.last() == k {
            f(s.len() - 1)
        } else {
            0
        }
    }
}

/// The weight that counts.
pub open spec fn unit() -> spec_fn(int) -> nat {
    |i: int| 1nat
}

/// The weight of a place's column in a raster of the given width.
pub open spec fn column(width: int) -> spec_fn(int) -> nat {
    |i: int| (i % width) as nat
}

/// The weight of a place's row in a raster of the given width.
pub open spec fn row(width: int) -> spec_fn(int) -> nat {
    |i: int| (i / width) as nat
}

/// How many pixels of the raster have the key `k`.
pub open spec fn count_of(s: Seq<u32>, k: u32) -> nat {
    weight(s, k, unit())
}

/// The sum of the columns of the pixels with the key `k`.
pub open spec fn sum_x_of(s: Seq<u32>, width: int, k: u32) -> nat {
    weight(s, k, column(width))
}

/// The sum of the rows of the pixels with the key `k`.
pub open spec fn sum_y_of(s: Seq<u32>, width: int, k: u32) -> nat {
    weight(s, k, row(width))
}

/// The raster in which every pixel of key `a` has the key `b`.
pub open spec fn recolored(s: Seq<u32>, a: u32, b: u32) -> Seq<u32> {
    Seq::new(s.len(), |i: int| if s[i] == a { b } else { s[i] })
}

/// Writing one pixel moves its weight from the old key to the new one.
pub proof fn lemma_weight_update(s: Seq<u32>, i: int, c: u32, k: u32, f: spec_fn(int) -> nat)
    requires
        0 <= i < s.len(),
    ensures
        weight(s.update(i, c), k, f) + (if s[i] == k { f(i) } else { 0 }) == weight(s, k, f) + (if c
            == k { f(i) } else { 0 }),
    decreases s.len(),
{
    let t = s.update(i, c);
    if i == s.len() - 1 {
        assert(t.drop_last() =~= s.drop_last());
    } else {
        assert(t.drop_last() =~= s.drop_last().update(i, c));
        lemma_weight_update(s.drop_last(), i, c, k, f);
    }
}

/// A weight is at most the count times the largest value of `f`.
pub proof fn lemma_weight_bound(s: Seq<u32>, k: u32, f: spec_fn(int) -> nat, b: nat)
    requires
        forall|i: int| 0 <= i < s.len() ==> #[trigger] f(i) <= b,
    ensures
        weight(s, k, f) <= count_of(s, k) * b,
        count_of(s, k) <= s.len(),
    decreases s.len(),
{
    if s.len() > 0 {
        lemma_weight_bound(s.drop_last(), k, f, b);
        assert(f(s.len() - 1) <= b);
        assert(unit()(s.len() - 1) == 1);
        assert((count_of(s.drop_last(), k) + 1) * b == count_of(s.drop_last(), k) * b + b)
            by (nonlinear_arith);
    } else {
        assert(0 * b == 0) by (nonlinear_arith);
    }
}

/// A key that some pixel has is counted.
pub proof fn lemma_count_positive(s: Seq<u32>, k: u32, i: int)
    requires
        0 <= i < s.len(),
        s[i] == k,
    ensures
        count_of(s, k) > 0,
    decreases s.len(),
{
    if i < s.len() - 1 {
        lemma_count_positive(s.drop_last(), k, i);
    } else {
        assert(unit()(s.len() - 1) == 1);
    }
}

/// A key that is counted is the key of some pixel.
pub proof fn lemma_count_witness(s: Seq<u32>, k: u32) -> (i: int)
    requires
        count_of(s, k) > 0,
    ensures
        0 <= i < s.len(),
        s[i] == k,
    decreases s.len(),
{
    if s.last() == k {
        s.len() - 1
    } else {
        lemma_count_witness(s.drop_last(), k)
    }
}

/// A key that no pixel has weighs nothing.
pub proof fn lemma_weight_absent(s: Seq<u32>, k: u32, f: spec_fn(int) -> nat)
    requires
        forall|i: int| 0 <= i < s.len() ==> s[i] != k,
    ensures
        weight(s, k, f) == 0,
    decreases s.len(),
{
    if s.len() > 0 {
        lemma_weight_absent(s.drop_last(), k, f);
    }
}

/// A key that is not counted weighs nothing.
pub proof fn lemma_uncounted_weighs_nothing(s: Seq<u32>, k: u32, f: spec_fn(int) -> nat)
    requires
        count_of(s, k) == 0,
    ensures
        weight(s, k, f) == 0,
{
    assert forall|i: int| 0 <= i < s.len() implies s[i] != k by {
        if s[i] == k {
            lemma_count_positive(s, k, i);
        }
    }
    lemma_weight_absent(s, k, f);
}

/// Giving every pixel of key `a` a key `b` that no pixel had moves the
/// weight of `a` to `b` and leaves every other key its weight.
pub proof fn lemma_weight_recolored(s: Seq<u32>, a: u32, b: u32, k: u32, f: spec_fn(int) -> nat)
    requires
        a != b,
        forall|i: int| 0 <= i < s.len() ==> s[i] != b,
    ensures
        weight(recolored(s, a, b), k, f) == if k == b {
            weight(s, a, f)
        } else if k == a {
            0
        } else {
            weight(s, k, f)
        },
    decreases s.len(),
{
    if s.len() > 0 {
        assert(recolored(s, a, b).drop_last() =~= recolored(s.drop_last(), a, b));
        lemma_weight_recolored(s.drop_last(), a, b, k, f);
    }
}

/// Giving every pixel of key `a` the key `b` adds the weight of `a` to that
/// of `b` and leaves every other key its weight.
pub proof fn lemma_weight_joined(s: Seq<u32>, a: u32, b: u32, k: u32, f: spec_fn(int) -> nat)
    requires
        a != b,
    ensures
        weight(recolored(s, a, b), k, f) == if k == b {
            weight(s, a, f) + weight(s, b, f)
        } else if k == a {
            0
        } else {
            weight(s, k, f)
        },
    decreases s.len(),
{
    if s.len() > 0 {
        assert(recolored(s, a, b).drop_last() =~= recolored(s.drop_last(), a, b));
        lemma_weight_joined(s.drop_last(), a, b, k, f);
    }
}

/// The raster in which every pixel has the key that `f` gives for its key.
pub open spec fn relabeled(s: Seq<u32>, f: Map<u32, u32>) -> Seq<u32> {
    Seq::new(s.len(), |i: int| f[s[i]])
}

/// Whether `f` gives no key twice.
pub open spec fn one_to_one(f: Map<u32, u32>) -> bool {
    forall|a: u32, b: u32|
        #![trigger f[a], f[b]]
        f.contains_key(a) && f.contains_key(b) && f[a] == f[b] ==> a == b
}

/// Giving every key another one, no two the same, keeps the weight of
/// each.
pub proof fn lemma_weight_relabeled(s: Seq<u32>, f: Map<u32, u32>, k: u32, g: spec_fn(int) -> nat)
    requires
        forall|i: int| 0 <= i < s.len() ==> f.contains_key(#[trigger] s[i]),
        one_to_one(f),
        f.contains_key(k),
    ensures
        weight(relabeled(s, f), f[k], g) == weight(s, k, g),
    decreases s.len(),
{
    if s.len() > 0 {
        assert(relabeled(s, f).drop_last() =~= relabeled(s.drop_last(), f));
        assert forall|i: int| 0 <= i < s.drop_last().len() implies f.contains_key(
            #[trigger] s.drop_last()[i],
        ) by {
            assert(s.drop_last()[i] == s[i]);
        }
        lemma_weight_relabeled(s.drop_last(), f, k, g);
        assert(f.contains_key(s[s.len() - 1]));
        assert(relabeled(s, f).last() == f[s.last()]);
    }
}

/// The place of a pixel in a row-major raster.
pub open spec fn place(x: int, y: int, width: int) -> int {
    y * width + x
}

/// A pixel inside the raster has a place inside it, from which its column
/// and row can be read.
pub proof fn lemma_place(x: int, y: int, width: int, height: int)
    requires
        0 <= x < width,
        0 <= y < height,
    ensures
        0 <= place(x, y, width) < width * height,
        place(x, y, width) % width == x,
        place(x, y, width) / width == y,
{
    assert(y * width + x < width * height) by (nonlinear_arith)
        requires
            0 <= x < width,
            0 <= y < height,
    {
        assert((y + 1) * width <= height * width);
    }
    assert(y * width >= 0) by (nonlinear_arith)
        requires
            y >= 0,
            width >= 0,
    ;
    vstd::arithmetic::div_mod::lemma_fundamental_div_mod_converse(y * width + x, width, y, x);
}

/// A place inside the raster is the place of its column and row.
pub proof fn lemma_place_of(i: int, width: int, height: int)
    requires
        0 <= i < width * height,
        width > 0,
    ensures
        0 <= i % width < width,
        0 <= i / width < height,
        place(i % width, i / width, width) == i,
{
    vstd::arithmetic::div_mod::lemma_fundamental_div_mod(i, width);
    vstd::arithmetic::div_mod::lemma_mod_bound(i, width);
    vstd::arithmetic::div_mod::lemma_div_pos_is_pos(i, width);
    assert(i / width < height) by (nonlinear_arith)
        requires
            0 <= i < width * height,
            width > 0,
            i == width * (i / width) + i % width,
            0 <= i % width < width,
    {
        if i / width >= height {
            assert(width * (i / width) >= width * height);
        }
    }
    assert(width * (i / width) == (i / width) * width) by (nonlinear_arith);
}

/// The column and row of the places next to a place of the raster.
pub proof fn lemma_neighbours(i: int, width: int, height: int)
    requires
        0 <= i < width * height,
        width > 0,
    ensures
        (i + 1) % width != 0 ==> (i + 1) % width == i % width + 1 && (i + 1) / width == i / width
            && i + 1 < width * height,
        i % width + 1 < width ==> (i + 1) % width != 0,
        i + width < width * height ==> (i + width) % width == i % width && (i + width) / width == i
            / width + 1,
        i / width + 1 < height ==> i + width < width * height,
{
    lemma_place_of(i, width, height);
    let x = i % width;
    let y = i / width;
    if x + 1 < width {
        lemma_place(x + 1, y, width, height);
        assert(place(x + 1, y, width) == i + 1);
    } else {
        assert(i + 1 == (y + 1) * width + 0) by (nonlinear_arith)
            requires
                i == y * width + x,
                x + 1 == width,
        ;
        assert((y + 1) * width >= 0) by (nonlinear_arith)
            requires
                y >= 0,
                width > 0,
        ;
        vstd::arithmetic::div_mod::lemma_fundamental_div_mod_converse(i + 1, width, y + 1, 0);
    }
    if y + 1 < height {
        lemma_place(x, y + 1, width, height);
        assert(place(x, y + 1, width) == i + width) by (nonlinear_arith)
            requires
                i == y * width + x,
        ;
    } else {
        assert(i + width >= width * height) by (nonlinear_arith)
            requires
                i == y * width + x,
                y + 1 >= height,
                x >= 0,
                width > 0,
        {
            assert((y + 1) * width >= height * width);
        }
    }
}

} // verus!
