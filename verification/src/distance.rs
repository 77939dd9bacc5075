//! Edit distance between character sequences, and an all-pairs ranking.

use vstd::prelude::*;

verus! {

/// Smallest of three naturals.
pub open spec fn min3(a: nat, b: nat, c: nat) -> nat {
    if a <= b && a <= c {
        a
    } else if b <= c {
        b
    } else {
        c
    }
}

/// Minimum number of single-character insertions, deletions and
/// substitutions (unit cost each) that turn `a` into `b`.
pub open spec fn edit_dist(a: Seq<char>, b: Seq<char>) -> nat
    decreases a.len(), b.len(),
{
    if a.len() == 0 {
        b.len()
    } else if b.len() == 0 {
        a.len()
    } else {
        let del = edit_dist(a.drop_last(), b) + 1;
        let ins = edit_dist(a, b.drop_last()) + 1;
        let sub = edit_dist(a.drop_last(), b.drop_last()) + (
        if a.last() == b.last() {
            0nat
        } else {
            1nat
        });
        min3(del as nat, ins as nat, sub as nat)
    }
}

/// The distance never exceeds the length of the longer sequence.
pub proof fn lemma_edit_dist_le_max(a: Seq<char>, b: Seq<char>)
    ensures
        edit_dist(a, b) <= a.len() || edit_dist(a, b) <= b.len(),
        edit_dist(a, b) <= a.len() + b.len(),
    decreases a.len(), b.len(),
{
    if a.len() == 0 || b.len() == 0 {
    } else {
        lemma_edit_dist_le_max(a.drop_last(), b.drop_last());
    }
}

/// Unfolds the distance on prefixes: the standard dynamic-programming
/// recurrence over `a.take(i)` and `b.take(j)`.
pub proof fn lemma_edit_dist_step(a: Seq<char>, b: Seq<char>, i: int, j: int)
    requires
        1 <= i <= a.len(),
        1 <= j <= b.len(),
    ensures
        edit_dist(a.take(i), b.take(j)) == min3(
            (edit_dist(a.take(i - 1), b.take(j)) + 1) as nat,
            (edit_dist(a.take(i), b.take(j - 1)) + 1) as nat,
            (edit_dist(a.take(i - 1), b.take(j - 1)) + (
            if a[i - 1] == b[j - 1] {
                0nat
            } else {
                1nat
            })) as nat,
        ),
{
    let x = a.take(i);
    let y = b.take(j);
    assert(x.drop_last() =~= a.take(i - 1));
    assert(y.drop_last() =~= b.take(j - 1));
    assert(x.last() == a[i - 1]);
    assert(y.last() == b[j - 1]);
}

/// Distance to an empty sequence is the sequence's own length.
pub proof fn lemma_edit_dist_empty(a: Seq<char>, b: Seq<char>, i: int)
    requires
        0 <= i <= a.len(),
    ensures
        edit_dist(a.take(i), b.take(0)) == i,
        edit_dist(b.take(0), a.take(i)) == i,
{
    assert(b.take(0) =~= Seq::<char>::empty());
    assert(a.take(i).len() == i);
}

/// Computes the edit distance of two strings, counted over Unicode
/// characters, so a multi-byte character is a single edit unit.
///
/// Returns 0 exactly when the two strings hold the same characters.
pub fn levenshtein(s_line: &str, t_line: &str) -> (r: u32)
    requires
        s_line@.len() < 0xFFFF_FFFF,
        t_line@.len() < 0xFFFF_FFFF,
    ensures
        r == edit_dist(s_line@, t_line@),
        r == 0 <==> s_line@ == t_line@,
{
    let s_len = s_line.unicode_len();
    let t_len = t_line.unicode_len();

    let mut t_chars: Vec<char> = Vec::new();
    let mut k: usize = 0;
    while k < t_len
        invariant
            k <= t_len == t_line@.len(),
            t_chars@ == t_line@.take(k as int),
        decreases t_len - k,
    {
        t_chars.push(t_line.get_char(k));
        proof {
            assert(t_line@.take(k + 1) =~= t_line@.take(k as int).push(t_line@[k as int]));
        }
        k += 1;
    }
    proof {
        assert(t_line@.take(t_len as int) =~= t_line@);
    }

    let mut v0: Vec<u32> = Vec::new();
    let mut j: usize = 0;
    while j <= t_len
        invariant
            j <= t_len + 1,
            t_len == t_line@.len() < 0xFFFF_FFFF,
            v0@.len() == j,
            forall|q: int| 0 <= q < j ==> v0@[q] == q,
        decreases t_len + 1 - j,
    {
        v0.push(j as u32);
        j += 1;
    }

    let mut i: usize = 0;
    while i < s_len
        invariant
            i <= s_len == s_line@.len() < 0xFFFF_FFFF,
            t_len == t_line@.len() < 0xFFFF_FFFF,
            t_chars@ == t_line@,
            v0@.len() == t_len + 1,
            forall|q: int|
                0 <= q <= t_len ==> v0@[q] == edit_dist(s_line@.take(i as int), t_line@.take(q)),
        decreases s_len - i,
    {
        let s_char = s_line.get_char(i);
        let mut v1: Vec<u32> = Vec::new();
        v1.push((i + 1) as u32);
        proof {
            lemma_edit_dist_empty(s_line@, t_line@, i + 1);
        }
        let mut j: usize = 0;
        while j < t_len
            invariant
                j <= t_len == t_line@.len() < 0xFFFF_FFFF,
                i < s_len == s_line@.len() < 0xFFFF_FFFF,
                s_char == s_line@[i as int],
                t_chars@ == t_line@,
                v0@.len() == t_len + 1,
                forall|q: int|
                    0 <= q <= t_len ==> v0@[q] == edit_dist(s_line@.take(i as int), t_line@.take(q)),
                v1@.len() == j + 1,
                forall|q: int|
                    0 <= q <= j ==> v1@[q] == edit_dist(s_line@.take(i + 1), t_line@.take(q)),
            decreases t_len - j,
        {
            proof {
                lemma_edit_dist_le_max(s_line@.take(i as int), t_line@.take(j + 1));
                lemma_edit_dist_le_max(s_line@.take(i + 1), t_line@.take(j as int));
                lemma_edit_dist_le_max(s_line@.take(i as int), t_line@.take(j as int));
            }
            let del = v0[j + 1] + 1;
            let ins = v1[j] + 1;
            let sub = if s_char == t_chars[j] {
                v0[j]
            } else {
                v0[j] + 1
            };
            let mut best = del;
            if ins < best {
                best = ins;
            }
            if sub < best {
                best = sub;
            }
            proof {
                lemma_edit_dist_step(s_line@, t_line@, i + 1, j + 1);
            }
            v1.push(best);
            j += 1;
        }
        v0 = v1;
        i += 1;
    }

    proof {
        assert(s_line@.take(s_len as int) =~= s_line@);
        assert(t_line@.take(t_len as int) =~= t_line@);
        lemma_edit_dist_zero_iff(s_line@, t_line@);
    }
    v0[t_len]
}

/// The distance is zero exactly for equal sequences.
pub proof fn lemma_edit_dist_zero_iff(a: Seq<char>, b: Seq<char>)
    ensures
        edit_dist(a, b) == 0 <==> a == b,
    decreases a.len(), b.len(),
{
    if a.len() == 0 {
        if b.len() == 0 {
            assert(a =~= b);
        }
    } else if b.len() == 0 {
    } else {
        lemma_edit_dist_zero_iff(a.drop_last(), b.drop_last());
        if a == b {
            assert(a.drop_last() =~= b.drop_last());
        }
        if edit_dist(a, b) == 0 {
            assert(a =~= a.drop_last().push(a.last()));
            assert(b =~= b.drop_last().push(b.last()));
        }
    }
}

/// A sequence is at distance zero from itself.
pub proof fn lemma_edit_dist_self(x: Seq<char>)
    ensures
        edit_dist(x, x) == 0,
{
    lemma_edit_dist_zero_iff(x, x);
}

/// The distance is symmetric in its two arguments.
pub proof fn lemma_edit_dist_symmetric(a: Seq<char>, b: Seq<char>)
    ensures
        edit_dist(a, b) == edit_dist(b, a),
    decreases a.len(), b.len(),
{
    if a.len() == 0 || b.len() == 0 {
    } else {
        lemma_edit_dist_symmetric(a.drop_last(), b);
        lemma_edit_dist_symmetric(a, b.drop_last());
        lemma_edit_dist_symmetric(a.drop_last(), b.drop_last());
    }
}

/// The distance can shrink by at most one when a sequence loses its last
/// character, so it is at least the difference of the two lengths.
pub proof fn lemma_edit_dist_len_diff(a: Seq<char>, b: Seq<char>)
    ensures
        edit_dist(a, b) + a.len() >= b.len(),
        edit_dist(a, b) + b.len() >= a.len(),
    decreases a.len(), b.len(),
{
    if a.len() == 0 || b.len() == 0 {
    } else {
        lemma_edit_dist_len_diff(a.drop_last(), b);
        lemma_edit_dist_len_diff(a, b.drop_last());
        lemma_edit_dist_len_diff(a.drop_last(), b.drop_last());
    }
}

/// Triangle inequality: going through a middle sequence never beats the
/// direct distance.
pub proof fn lemma_edit_dist_triangle(a: Seq<char>, b: Seq<char>, c: Seq<char>)
    ensures
        edit_dist(a, c) <= edit_dist(a, b) + edit_dist(b, c),
    decreases a.len(), b.len(), c.len(),
{
    if b.len() == 0 {
        lemma_edit_dist_le_max(a, c);
    } else if a.len() == 0 {
        lemma_edit_dist_len_diff(b, c);
    } else if c.len() == 0 {
        lemma_edit_dist_len_diff(a, b);
    } else {
        let dab = edit_dist(a, b);
        let dbc = edit_dist(b, c);
        if dab == edit_dist(a.drop_last(), b) + 1 {
            lemma_edit_dist_triangle(a.drop_last(), b, c);
        } else if dbc == edit_dist(b, c.drop_last()) + 1 {
            lemma_edit_dist_triangle(a, b, c.drop_last());
        } else if dab == edit_dist(a, b.drop_last()) + 1 {
            if dbc == edit_dist(b.drop_last(), c) + 1 {
                lemma_edit_dist_triangle(a, b.drop_last(), c);
            } else {
                lemma_edit_dist_triangle(a, b.drop_last(), c.drop_last());
            }
        } else {
            if dbc == edit_dist(b.drop_last(), c) + 1 {
                lemma_edit_dist_triangle(a.drop_last(), b.drop_last(), c);
            } else {
                lemma_edit_dist_triangle(a.drop_last(), b.drop_last(), c.drop_last());
            }
        }
    }
}

/// The ranking record for the pair of lines at positions `i < j`.
pub open spec fn pair_entry(lines: Seq<&str>, i: int, j: int) -> (u32, u32, u32) {
    (edit_dist(lines[i]@, lines[j]@) as u32, i as u32, j as u32)
}

/// A record names a pair `i < j` of lines and carries their distance.
pub open spec fn valid_entry(lines: Seq<&str>, e: (u32, u32, u32)) -> bool {
    &&& e.1 < e.2
    &&& (e.2 as int) < lines.len()
    &&& e.0 == edit_dist(lines[e.1 as int]@, lines[e.2 as int]@)
}

/// The ranking records still to be produced when the pair scan stands at
/// `(i, j)`: the pairs `(i, j), (i, j + 1), ..., (i + 1, i + 2), ...` in
/// index order.
pub open spec fn rank_entries_from(lines: Seq<&str>, i: int, j: int) -> Seq<(u32, u32, u32)>
    decreases lines.len() - i, lines.len() - j,
{
    if i < 0 || j <= i {
        Seq::empty()
    } else if i + 1 >= lines.len() {
        Seq::empty()
    } else if j >= lines.len() {
        rank_entries_from(lines, i + 1, i + 2)
    } else {
        seq![pair_entry(lines, i, j)] + rank_entries_from(lines, i, j + 1)
    }
}

/// One ranking record for every pair `i < j`, in index order.
pub open spec fn rank_entries(lines: Seq<&str>) -> Seq<(u32, u32, u32)> {
    rank_entries_from(lines, 0, 1)
}

/// Ascending order on records: by distance first, then by the index pair.
pub open spec fn trip_le(x: (u32, u32, u32), y: (u32, u32, u32)) -> bool {
    ||| x.0 < y.0
    ||| (x.0 == y.0 && x.1 < y.1)
    ||| (x.0 == y.0 && x.1 == y.1 && x.2 <= y.2)
}

/// The whole sequence is in ascending record order.
pub open spec fn sorted_records(s: Seq<(u32, u32, u32)>) -> bool {
    forall|k1: int, k2: int| 0 <= k1 < k2 < s.len() ==> trip_le(s[k1], s[k2])
}

/// Every pending ranking record names a pair in range with its distance.
proof fn lemma_rank_entries_from_valid(lines: Seq<&str>, i: int, j: int)
    requires
        lines.len() <= 0xFFFF_FFFF,
        forall|k: int| 0 <= k < lines.len() ==> (#[trigger] lines[k])@.len() < 0xFFFF_FFFF,
    ensures
        forall|k: int|
            0 <= k < rank_entries_from(lines, i, j).len() ==> valid_entry(
                lines,
                #[trigger] rank_entries_from(lines, i, j)[k],
            ),
    decreases lines.len() - i, lines.len() - j,
{
    if i < 0 || j <= i || i + 1 >= lines.len() {
    } else if j >= lines.len() {
        lemma_rank_entries_from_valid(lines, i + 1, i + 2);
        let res = rank_entries_from(lines, i, j);
        let rest = rank_entries_from(lines, i + 1, i + 2);
        assert(res == rest);
        assert forall|k: int| 0 <= k < res.len() implies valid_entry(lines, #[trigger] res[k]) by {
            assert(res[k] == rest[k]);
            assert(valid_entry(lines, rest[k]));
        }
    } else {
        lemma_rank_entries_from_valid(lines, i, j + 1);
        lemma_edit_dist_le_max(lines[i]@, lines[j]@);
        let res = rank_entries_from(lines, i, j);
        let rest = rank_entries_from(lines, i, j + 1);
        assert forall|k: int| 0 <= k < res.len() implies valid_entry(lines, #[trigger] res[k]) by {
            if k > 0 {
                assert(res[k] == rest[k - 1]);
            } else {
                assert(res[0] == pair_entry(lines, i, j));
            }
        }
    }
}

/// Every pair not yet passed by the scan still shows up in its records.
proof fn lemma_rank_entries_from_contains(lines: Seq<&str>, i: int, j: int, ci: int, cj: int)
    requires
        0 <= i < j,
        i <= ci,
        ci < cj < lines.len(),
        i == ci ==> j <= cj,
    ensures
        rank_entries_from(lines, i, j).contains(pair_entry(lines, ci, cj)),
    decreases lines.len() - i, lines.len() - j,
{
    let res = rank_entries_from(lines, i, j);
    let e = pair_entry(lines, ci, cj);
    if j >= lines.len() {
        lemma_rank_entries_from_contains(lines, i + 1, i + 2, ci, cj);
    } else if i == ci && j == cj {
        assert(res[0] == e);
    } else {
        lemma_rank_entries_from_contains(lines, i, j + 1, ci, cj);
        let rest = rank_entries_from(lines, i, j + 1);
        let k = choose|k: int| 0 <= k < rest.len() && rest[k] == e;
        assert(res[k + 1] == e);
    }
}

/// Ascending order on records, decided in executable code.
fn record_le(x: (u32, u32, u32), y: (u32, u32, u32)) -> (r: bool)
    ensures
        r == trip_le(x, y),
{
    if x.0 < y.0 {
        true
    } else if x.0 == y.0 {
        if x.1 < y.1 {
            true
        } else if x.1 == y.1 {
            x.2 <= y.2
        } else {
            false
        }
    } else {
        false
    }
}

/// Selection sort on ranking records: reorders into ascending record
/// order without adding or dropping a record.
fn sort_records(v: &mut Vec<(u32, u32, u32)>)
    ensures
        final(v)@.len() == old(v)@.len(),
        sorted_records(final(v)@),
        final(v)@.to_multiset() == old(v)@.to_multiset(),
{
    broadcast use vstd::seq_lib::group_to_multiset_ensures;
    broadcast use vstd::seq_lib::to_multiset_update;

    let n = v.len();
    let mut i: usize = 0;
    while i < n
        invariant
            i <= n == v@.len(),
            v@.to_multiset() == old(v)@.to_multiset(),
            forall|k1: int, k2: int| 0 <= k1 < k2 < i ==> trip_le(v@[k1], v@[k2]),
            forall|k1: int, k2: int| 0 <= k1 < i <= k2 < n ==> trip_le(v@[k1], v@[k2]),
        decreases n - i,
    {
        let mut m: usize = i;
        let mut j: usize = i + 1;
        while j < n
            invariant
                i <= m < j <= n == v@.len(),
                forall|k: int| i <= k < j ==> trip_le(v@[m as int], v@[k]),
            decreases n - j,
        {
            if record_le(v[j], v[m]) {
                m = j;
            }
            j += 1;
        }
        let vi = v[i];
        let vm = v[m];
        let ghost pre = v@;
        v.set(i, vm);
        v.set(m, vi);
        proof {
            broadcast use vstd::multiset::group_multiset_axioms;
            broadcast use vstd::multiset::group_multiset_properties;

            let s1 = pre.update(i as int, vm);
            vstd::seq_lib::to_multiset_update(pre, i as int, vm);
            vstd::seq_lib::to_multiset_update(s1, m as int, vi);
            assert(s1.to_multiset() == pre.to_multiset().insert(vm).remove(pre[i as int]));
            assert(s1[m as int] == vm);
            assert(v@ == s1.update(m as int, vi));
            assert(v@.to_multiset() == s1.to_multiset().insert(vi).remove(vm));
            broadcast use vstd::seq_lib::group_to_multiset_ensures;

            assert(pre.contains(vi)) by {
                assert(pre[i as int] == vi);
            }
            assert(pre.to_multiset().count(vi) > 0);
            assert forall|x: (u32, u32, u32)|
                v@.to_multiset().count(x) == pre.to_multiset().count(x) by {
                assert(v@.to_multiset().count(x) == s1.to_multiset().insert(vi).remove(vm).count(
                    x,
                ));
            }
            assert(v@.to_multiset() =~= pre.to_multiset());
        }
        i += 1;
    }
}

/// Computes the distance of every pair of lines and ranks the pairs.
///
/// The result holds one record `(distance, i, j)` for each pair of
/// positions `i < j`, sorted ascending by distance and then by the index
/// pair, so ties in distance break deterministically. Fewer than two
/// lines give an empty ranking.
pub fn levenshtein_all(lines: Vec<&str>) -> (r: Vec<(u32, u32, u32)>)
    requires
        lines@.len() <= 0xFFFF_FFFF,
        forall|k: int| 0 <= k < lines@.len() ==> (#[trigger] lines@[k])@.len() < 0xFFFF_FFFF,
    ensures
        r@.to_multiset() == rank_entries(lines@).to_multiset(),
        sorted_records(r@),
        forall|k: int| 0 <= k < r@.len() ==> valid_entry(lines@, #[trigger] r@[k]),
        forall|i: int, j: int|
            0 <= i < j < lines@.len() ==> r@.contains(pair_entry(lines@, i, j)),
        lines@.len() < 2 ==> r@ == Seq::<(u32, u32, u32)>::empty(),
{
    broadcast use vstd::seq_lib::group_to_multiset_ensures;

    let n = lines.len();
    let mut results: Vec<(u32, u32, u32)> = Vec::new();
    if n < 2 {
        proof {
            assert(results@ =~= Seq::<(u32, u32, u32)>::empty());
            assert(rank_entries(lines@) =~= Seq::<(u32, u32, u32)>::empty());
        }
        return results;
    }
    let mut i: usize = 0;
    while i < n - 1
        invariant
            2 <= n == lines@.len() <= 0xFFFF_FFFF,
            i <= n - 1,
            forall|k: int| 0 <= k < lines@.len() ==> (#[trigger] lines@[k])@.len() < 0xFFFF_FFFF,
            rank_entries(lines@) == results@ + rank_entries_from(lines@, i as int, i + 1),
        decreases n - i,
    {
        let mut j: usize = i + 1;
        while j < n
            invariant
                2 <= n == lines@.len() <= 0xFFFF_FFFF,
                i < n - 1,
                i < j <= n,
                forall|k: int| 0 <= k < lines@.len() ==> (#[trigger] lines@[k])@.len() < 0xFFFF_FFFF,
                rank_entries(lines@) == results@ + rank_entries_from(lines@, i as int, j as int),
            decreases n - j,
        {
            let d = levenshtein(lines[i], lines[j]);
            let e = (d, i as u32, j as u32);
            proof {
                lemma_edit_dist_le_max(lines@[i as int]@, lines@[j as int]@);
                assert(e == pair_entry(lines@, i as int, j as int));
                assert(rank_entries_from(lines@, i as int, j as int) == seq![
                    pair_entry(lines@, i as int, j as int),
                ] + rank_entries_from(lines@, i as int, j + 1));
                assert(results@.push(e) + rank_entries_from(lines@, i as int, j + 1) =~= results@
                    + rank_entries_from(lines@, i as int, j as int));
            }
            results.push(e);
            j += 1;
        }
        proof {
            assert(rank_entries_from(lines@, i as int, n as int) == rank_entries_from(
                lines@,
                i + 1,
                i + 2,
            ));
        }
        i += 1;
    }
    proof {
        assert(rank_entries_from(lines@, n - 1, n as int) =~= Seq::<(u32, u32, u32)>::empty());
        assert(results@ =~= rank_entries(lines@));
    }
    sort_records(&mut results);
    proof {
        let sorted = results@;
        let all = rank_entries(lines@);
        lemma_rank_entries_from_valid(lines@, 0, 1);
        assert forall|k: int| 0 <= k < sorted.len() implies valid_entry(
            lines@,
            #[trigger] sorted[k],
        ) by {
            assert(sorted.contains(sorted[k]));
            assert(sorted.to_multiset().count(sorted[k]) > 0);
            assert(all.contains(sorted[k]));
            let q = choose|q: int| 0 <= q < all.len() && all[q] == sorted[k];
            assert(valid_entry(lines@, all[q]));
        }
        assert forall|ci: int, cj: int| 0 <= ci < cj < lines@.len() implies sorted.contains(
            pair_entry(lines@, ci, cj),
        ) by {
            lemma_rank_entries_from_contains(lines@, 0, 1, ci, cj);
            assert(all.to_multiset().count(pair_entry(lines@, ci, cj)) > 0);
        }
    }
    results
}

} // verus!
