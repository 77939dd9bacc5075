//! Gap masks: a padded output column either carries the next character of
//! the original line (`true`) or a gap marker (`false`).

use vstd::prelude::*;

verus! {

/// The characters of `s` that are not the gap marker `m`, in order.
pub open spec fn strip(s: Seq<char>, m: char) -> Seq<char>
    decreases s.len(),
{
    if s.len() == 0 {
        Seq::empty()
    } else if s[0] == m {
        strip(s.skip(1), m)
    } else {
        seq![s[0]] + strip(s.skip(1), m)
    }
}

/// How many columns of a mask carry an original character.
pub open spec fn count_true(s: Seq<bool>) -> nat
    decreases s.len(),
{
    if s.len() == 0 {
        0
    } else {
        (if s[0] {
            1nat
        } else {
            0nat
        }) + count_true(s.skip(1))
    }
}

/// The padded line a mask describes: original characters at `true`
/// columns, the marker `m` at `false` columns.
pub open spec fn expand_spec(orig: Seq<char>, mask: Seq<bool>, m: char) -> Seq<char>
    decreases mask.len(),
{
    if mask.len() == 0 {
        Seq::empty()
    } else if mask[0] {
        seq![orig[0]] + expand_spec(orig.skip(1), mask.skip(1), m)
    } else {
        seq![m] + expand_spec(orig, mask.skip(1), m)
    }
}

/// Unfolds `strip` over a sequence with its first element split off.
pub proof fn lemma_strip_cons(x: char, s: Seq<char>, m: char)
    ensures
        strip(seq![x] + s, m) == if x == m {
            strip(s, m)
        } else {
            seq![x] + strip(s, m)
        },
{
    assert((seq![x] + s)[0] == x);
    assert((seq![x] + s).skip(1) =~= s);
}

/// Unfolds `count_true` over a mask with its first column split off.
pub proof fn lemma_count_true_cons(x: bool, s: Seq<bool>)
    ensures
        count_true(seq![x] + s) == (if x {
            1nat
        } else {
            0nat
        }) + count_true(s),
{
    assert((seq![x] + s)[0] == x);
    assert((seq![x] + s).skip(1) =~= s);
}

/// Adding a column at the end adds its contribution to the count.
pub proof fn lemma_count_true_push(s: Seq<bool>, x: bool)
    ensures
        count_true(s.push(x)) == count_true(s) + (if x {
            1nat
        } else {
            0nat
        }),
    decreases s.len(),
{
    if s.len() == 0 {
        assert(s.push(x)[0] == x);
        assert(s.push(x).skip(1) =~= Seq::<bool>::empty());
        assert(count_true(s.push(x)) == (if x {
            1nat
        } else {
            0nat
        }) + count_true(s.push(x).skip(1)));
    } else {
        assert(s.push(x)[0] == s[0]);
        assert(s.push(x).skip(1) =~= s.skip(1).push(x));
        lemma_count_true_push(s.skip(1), x);
        assert(count_true(s.push(x)) == (if s[0] {
            1nat
        } else {
            0nat
        }) + count_true(s.skip(1).push(x)));
    }
}

/// Reversing a mask keeps its count.
pub proof fn lemma_count_true_reverse(s: Seq<bool>)
    ensures
        count_true(s.reverse()) == count_true(s),
    decreases s.len(),
{
    if s.len() > 0 {
        lemma_count_true_reverse(s.skip(1));
        assert(s.reverse() =~= s.skip(1).reverse().push(s[0]));
        lemma_count_true_push(s.skip(1).reverse(), s[0]);
        assert(s =~= seq![s[0]] + s.skip(1));
        lemma_count_true_cons(s[0], s.skip(1));
    }
}

/// A mask cannot carry more original characters than it has columns.
pub proof fn lemma_count_true_le_len(s: Seq<bool>)
    ensures
        count_true(s) <= s.len(),
    decreases s.len(),
{
    if s.len() > 0 {
        lemma_count_true_le_len(s.skip(1));
    }
}

/// The padded line is exactly one column per mask position.
pub proof fn lemma_expand_len(orig: Seq<char>, mask: Seq<bool>, m: char)
    ensures
        expand_spec(orig, mask, m).len() == mask.len(),
    decreases mask.len(),
{
    if mask.len() > 0 {
        if mask[0] {
            lemma_expand_len(orig.skip(1), mask.skip(1), m);
        } else {
            lemma_expand_len(orig, mask.skip(1), m);
        }
    }
}

/// Padding inserts markers and nothing else: stripping the markers from
/// the padded line gives back the stripped original.
pub proof fn lemma_expand_strip(orig: Seq<char>, mask: Seq<bool>, m: char)
    requires
        count_true(mask) == orig.len(),
    ensures
        strip(expand_spec(orig, mask, m), m) == strip(orig, m),
    decreases mask.len(),
{
    if mask.len() == 0 {
        assert(orig.len() == 0);
        assert(strip(orig, m) =~= Seq::<char>::empty());
    } else if mask[0] {
        lemma_count_true_le_len(mask.skip(1));
        assert(orig.len() >= 1);
        lemma_expand_strip(orig.skip(1), mask.skip(1), m);
        lemma_strip_cons(orig[0], expand_spec(orig.skip(1), mask.skip(1), m), m);
        assert(orig =~= seq![orig[0]] + orig.skip(1));
        lemma_strip_cons(orig[0], orig.skip(1), m);
    } else {
        lemma_expand_strip(orig, mask.skip(1), m);
        lemma_strip_cons(m, expand_spec(orig, mask.skip(1), m), m);
    }
}

/// Changing only the gap marker changes only what stands at gap columns:
/// the two padded lines have the same length, agree at every column that
/// carries an original character, and hold their own marker at every gap
/// column. The column structure itself comes from the mask alone.
pub proof fn lemma_expand_marker_choice(orig: Seq<char>, mask: Seq<bool>, m1: char, m2: char)
    ensures
        expand_spec(orig, mask, m1).len() == mask.len(),
        expand_spec(orig, mask, m2).len() == mask.len(),
        forall|j: int|
            0 <= j < mask.len() && mask[j] ==> expand_spec(orig, mask, m1)[j] == expand_spec(
                orig,
                mask,
                m2,
            )[j],
        forall|j: int|
            0 <= j < mask.len() && !mask[j] ==> expand_spec(orig, mask, m1)[j] == m1
                && expand_spec(orig, mask, m2)[j] == m2,
    decreases mask.len(),
{
    lemma_expand_len(orig, mask, m1);
    lemma_expand_len(orig, mask, m2);
    if mask.len() > 0 {
        if mask[0] {
            lemma_expand_marker_choice(orig.skip(1), mask.skip(1), m1, m2);
        } else {
            lemma_expand_marker_choice(orig, mask.skip(1), m1, m2);
        }
        assert forall|j: int|
            0 <= j < mask.len() && mask[j] implies expand_spec(orig, mask, m1)[j] == expand_spec(
            orig,
            mask,
            m2,
        )[j] by {
            if j > 0 {
                assert(mask.skip(1)[j - 1] == mask[j]);
            }
        }
        assert forall|j: int|
            0 <= j < mask.len() && !mask[j] implies expand_spec(orig, mask, m1)[j] == m1
            && expand_spec(orig, mask, m2)[j] == m2 by {
            if j > 0 {
                assert(mask.skip(1)[j - 1] == mask[j]);
            }
        }
    }
}

/// A copy of `v` with its elements in the opposite order.
pub fn reversed<T: Copy>(v: &Vec<T>) -> (r: Vec<T>)
    ensures
        r@ == v@.reverse(),
{
    let mut r: Vec<T> = Vec::new();
    let mut i: usize = v.len();
    while i > 0
        invariant
            i <= v@.len(),
            r@.len() == v@.len() - i,
            forall|k: int| 0 <= k < r@.len() ==> r@[k] == v@[v@.len() - 1 - k],
        decreases i,
    {
        r.push(v[i - 1]);
        i -= 1;
    }
    proof {
        assert(r@ =~= v@.reverse());
    }
    r
}

/// Pads `orig` as the mask says, writing the marker `m` at gap columns.
pub fn expand_with_mask(orig: &Vec<char>, mask: &Vec<bool>, m: char) -> (r: Vec<char>)
    requires
        count_true(mask@) == orig@.len(),
    ensures
        r@ == expand_spec(orig@, mask@, m),
        r@.len() == mask@.len(),
        strip(r@, m) == strip(orig@, m),
{
    let mut out: Vec<char> = Vec::new();
    let mut idx: usize = 0;
    let mut j: usize = 0;
    proof {
        assert(orig@.skip(0) =~= orig@);
        assert(mask@.skip(0) =~= mask@);
        assert(mask@.take(0) =~= Seq::<bool>::empty());
        assert(Seq::<char>::empty() + expand_spec(orig@, mask@, m) =~= expand_spec(
            orig@,
            mask@,
            m,
        ));
    }
    while j < mask.len()
        invariant
            j <= mask@.len(),
            idx == count_true(mask@.take(j as int)),
            idx <= orig@.len(),
            count_true(mask@) == orig@.len(),
            out@.len() == j,
            expand_spec(orig@, mask@, m) == out@ + expand_spec(
                orig@.skip(idx as int),
                mask@.skip(j as int),
                m,
            ),
        decreases mask@.len() - j,
    {
        proof {
            assert(mask@.take(j + 1) =~= mask@.take(j as int).push(mask@[j as int]));
            lemma_count_true_push(mask@.take(j as int), mask@[j as int]);
            assert(mask@ =~= mask@.take(j + 1) + mask@.skip(j + 1));
            lemma_count_true_add(mask@.take(j + 1), mask@.skip(j + 1));
            lemma_count_true_le_len(mask@.take(j + 1));
            assert(mask@.skip(j as int)[0] == mask@[j as int]);
            assert(mask@.skip(j as int).skip(1) =~= mask@.skip(j + 1));
        }
        if mask[j] {
            proof {
                assert(orig@.skip(idx as int)[0] == orig@[idx as int]);
                assert(orig@.skip(idx as int).skip(1) =~= orig@.skip(idx + 1));
                assert(out@.push(orig@[idx as int]) + expand_spec(
                    orig@.skip(idx + 1),
                    mask@.skip(j + 1),
                    m,
                ) =~= out@ + expand_spec(orig@.skip(idx as int), mask@.skip(j as int), m));
            }
            out.push(orig[idx]);
            idx += 1;
        } else {
            proof {
                assert(out@.push(m) + expand_spec(orig@.skip(idx as int), mask@.skip(j + 1), m)
                    =~= out@ + expand_spec(orig@.skip(idx as int), mask@.skip(j as int), m));
            }
            out.push(m);
        }
        j += 1;
    }
    proof {
        assert(mask@.take(mask@.len() as int) =~= mask@);
        assert(mask@.skip(mask@.len() as int) =~= Seq::<bool>::empty());
        assert(out@ + Seq::<char>::empty() =~= out@);
        lemma_expand_len(orig@, mask@, m);
        lemma_expand_strip(orig@, mask@, m);
    }
    out
}

/// Every column of the mask carries an original character.
pub open spec fn all_true(s: Seq<bool>) -> bool {
    forall|i: int| 0 <= i < s.len() ==> s[i]
}

/// A mask of only character columns counts them all.
pub proof fn lemma_all_true_count(s: Seq<bool>)
    requires
        all_true(s),
    ensures
        count_true(s) == s.len(),
    decreases s.len(),
{
    if s.len() > 0 {
        assert(s[0]);
        assert(all_true(s.skip(1)));
        lemma_all_true_count(s.skip(1));
    }
}

/// A mask without gap columns pads nothing: the padded line is the
/// original.
pub proof fn lemma_expand_all_true(orig: Seq<char>, mask: Seq<bool>, m: char)
    requires
        all_true(mask),
        mask.len() == orig.len(),
    ensures
        expand_spec(orig, mask, m) == orig,
    decreases mask.len(),
{
    if mask.len() == 0 {
        assert(expand_spec(orig, mask, m) =~= orig);
    } else {
        assert(mask[0]);
        assert(all_true(mask.skip(1)));
        lemma_expand_all_true(orig.skip(1), mask.skip(1), m);
        assert(expand_spec(orig, mask, m) =~= orig);
    }
}

/// Counting over two masks laid end to end adds their counts.
pub proof fn lemma_count_true_add(a: Seq<bool>, b: Seq<bool>)
    ensures
        count_true(a + b) == count_true(a) + count_true(b),
    decreases a.len(),
{
    if a.len() == 0 {
        assert(a + b =~= b);
    } else {
        assert((a + b)[0] == a[0]);
        assert((a + b).skip(1) =~= a.skip(1) + b);
        lemma_count_true_add(a.skip(1), b);
    }
}

} // verus!
