//! Progressive multiple-sequence alignment with affine gap costs.
//!
//! Each new line is aligned against the first member of the growing
//! consensus by a three-state dynamic program (match, gap against the
//! profile, gap against the line), with a gap run charged an opening cost
//! once and an extension cost per further column. The traceback yields a
//! gap mask for each side; the profile-side mask is applied to every
//! string already in the consensus, so all output strings stay the same
//! length.

use vstd::prelude::*;

use crate::masks::all_true;
use crate::masks::count_true;
use crate::masks::expand_spec;
use crate::masks::expand_with_mask;
use crate::masks::lemma_expand_all_true;
use crate::masks::lemma_all_true_count;
use crate::masks::lemma_count_true_le_len;
use crate::masks::lemma_count_true_push;
use crate::masks::lemma_count_true_reverse;
use crate::masks::reversed;
use crate::masks::strip;

verus! {

/// Substitution cost charged when two distinct characters share a column
/// and the table has no entry for the pair.
pub const MISMATCH_COST: i32 = -1;

/// Border score for a state that no alignment path can end in.
const UNREACH: i64 = -0x2000_0000_0000_0000;

/// The unordered character pair, stored with the smaller code point first.
pub open spec fn canon_pair(a: char, b: char) -> (char, char) {
    if a as u32 <= b as u32 {
        (a, b)
    } else {
        (b, a)
    }
}

/// Cost of the first table entry holding `key`; the mismatch default when
/// none does.
pub open spec fn table_cost(subs: Seq<((char, char), i32)>, key: (char, char)) -> int
    decreases subs.len(),
{
    if subs.len() == 0 {
        MISMATCH_COST as int
    } else if subs[0].0 == key {
        subs[0].1 as int
    } else {
        table_cost(subs.skip(1), key)
    }
}

/// Substitution cost of putting `a` and `b` in one column: zero for equal
/// characters, the table entry of the canonical pair otherwise.
pub open spec fn sub_cost(subs: Seq<((char, char), i32)>, a: char, b: char) -> int {
    if a == b {
        0
    } else {
        table_cost(subs, canon_pair(a, b))
    }
}

/// Every entry of the table is a penalty: no substitution scores above
/// zero.
pub open spec fn nonpos_table(subs: Seq<((char, char), i32)>) -> bool {
    forall|k: int| 0 <= k < subs.len() ==> (#[trigger] subs[k]).1 <= 0
}

/// With only penalties in the table, every lookup is a penalty too.
proof fn lemma_table_cost_nonpos(subs: Seq<((char, char), i32)>, key: (char, char))
    requires
        nonpos_table(subs),
    ensures
        table_cost(subs, key) <= 0,
    decreases subs.len(),
{
    if subs.len() > 0 && subs[0].0 != key {
        assert forall|k: int| 0 <= k < subs.skip(1).len() implies (#[trigger] subs.skip(
            1,
        )[k]).1 <= 0 by {
            assert(subs.skip(1)[k] == subs[k + 1]);
        }
        lemma_table_cost_nonpos(subs.skip(1), key);
    }
}

/// Looks the substitution cost of `a` against `b` up in the table.
fn sub_cost_exec(subs: &Vec<((char, char), i32)>, a: char, b: char) -> (r: i32)
    ensures
        r as int == sub_cost(subs@, a, b),
{
    if a == b {
        return 0;
    }
    let key = if (a as u32) <= (b as u32) {
        (a, b)
    } else {
        (b, a)
    };
    let mut k: usize = 0;
    proof {
        assert(subs@.skip(0) =~= subs@);
    }
    while k < subs.len()
        invariant
            k <= subs@.len(),
            a != b,
            key == canon_pair(a, b),
            table_cost(subs@.skip(k as int), key) == table_cost(subs@, key),
        decreases subs@.len() - k,
    {
        let entry = subs[k];
        proof {
            assert(subs@.skip(k as int)[0] == subs@[k as int]);
            assert(subs@.skip(k as int).skip(1) =~= subs@.skip(k + 1));
        }
        if entry.0.0 == key.0 && entry.0.1 == key.1 {
            proof {
                assert(entry.0 == key);
                assert(table_cost(subs@.skip(k as int), key) == entry.1 as int);
            }
            return entry.1;
        }
        k += 1;
    }
    proof {
        assert(subs@.skip(subs@.len() as int) =~= Seq::<((char, char), i32)>::empty());
    }
    MISMATCH_COST
}

/// Which predecessor state a cell's best score came from.
#[derive(Clone, Copy)]
enum Dir {
    Start,
    Diag,
    Up,
    Left,
}

/// One cell of the score grid: the best score ending here in each state,
/// the overall best, and the state it came from.
#[derive(Clone, Copy)]
struct Cell {
    val: i64,
    up: i64,
    left: i64,
    dir: Dir,
}

/// Scores reachable at `(r, c)` stay within `r + c` cost steps of zero.
spec fn score_ok(v: int, r: int, c: int) -> bool {
    -((r + c) * 0x8000_0000) <= v <= (r + c) * 0x8000_0000
}

/// The traceback pointer always moves toward the origin.
spec fn dir_ok(d: Dir, r: int, c: int) -> bool {
    if r == 0 && c == 0 {
        true
    } else if r == 0 {
        d is Left
    } else if c == 0 {
        d is Up
    } else {
        d is Diag || d is Up || d is Left
    }
}

/// Well-formedness of one grid cell at position `(r, c)`.
spec fn cell_ok(cell: Cell, r: int, c: int) -> bool {
    &&& score_ok(cell.val as int, r, c)
    &&& (if r == 0 && c >= 1 {
        cell.up == UNREACH
    } else {
        score_ok(cell.up as int, r, c)
    })
    &&& (if c == 0 && r >= 1 {
        cell.left == UNREACH
    } else {
        score_ok(cell.left as int, r, c)
    })
    &&& dir_ok(cell.dir, r, c)
}

/// Under a configuration of pure penalties, no score rises above zero.
spec fn cell_nonpos(cell: Cell) -> bool {
    cell.val <= 0 && cell.up <= 0 && cell.left <= 0
}

/// The hypothesis under which an identical profile and line align as the
/// pure diagonal: the two sequences are equal and every cost is a penalty.
spec fn self_align(
    gap: i32,
    skew: i32,
    subs: Seq<((char, char), i32)>,
    pchars: Seq<char>,
    lchars: Seq<char>,
) -> bool {
    pchars == lchars && gap <= 0 && skew <= 0 && nonpos_table(subs)
}

/// Aligns the line `lchars` against the profile `pchars`: fills the
/// affine-gap score grid, then walks the recorded best states back from
/// the far corner. Returns the gap masks of the profile side and the
/// line side; both have one entry per output column.
#[verifier::loop_isolation(false)]
fn align_step(
    gap: i32,
    skew: i32,
    subs: &Vec<((char, char), i32)>,
    pchars: &Vec<char>,
    lchars: &Vec<char>,
) -> (r: (Vec<bool>, Vec<bool>))
    requires
        pchars@.len() + lchars@.len() <= 0x800_0000,
    ensures
        r.0@.len() == r.1@.len(),
        count_true(r.0@) == pchars@.len(),
        count_true(r.1@) == lchars@.len(),
        r.0@.len() <= pchars@.len() + lchars@.len(),
        self_align(gap, skew, subs@, pchars@, lchars@) ==> all_true(r.0@) && all_true(r.1@)
            && r.0@.len() == pchars@.len(),
{
    let ghost hyp = self_align(gap, skew, subs@, pchars@, lchars@);
    let rows = pchars.len();
    let cols = lchars.len();

    let mut grid: Vec<Vec<Cell>> = Vec::new();
    let mut row0: Vec<Cell> = Vec::new();
    row0.push(Cell { val: 0, up: 0, left: 0, dir: Dir::Start });
    let mut penalty: i64 = gap as i64;
    let mut c: usize = 1;
    while c <= cols
        invariant
            1 <= c <= cols + 1,
            row0@.len() == c,
            -((c as int) * 0x8000_0000) <= penalty <= (c as int) * 0x8000_0000,
            forall|cc: int| 0 <= cc < c ==> cell_ok(#[trigger] row0@[cc], 0, cc),
            row0@[0].val == 0,
            hyp ==> penalty <= 0,
            hyp ==> forall|cc: int| 0 <= cc < c ==> cell_nonpos(#[trigger] row0@[cc]),
        decreases cols + 1 - c,
    {
        row0.push(Cell { val: penalty, up: UNREACH, left: penalty, dir: Dir::Left });
        penalty = penalty + (skew as i64);
        c += 1;
    }
    grid.push(row0);

    let mut rpenalty: i64 = gap as i64;
    let mut r: usize = 1;
    while r <= rows
        invariant
            1 <= r <= rows + 1,
            grid@.len() == r,
            -((r as int) * 0x8000_0000) <= rpenalty <= (r as int) * 0x8000_0000,
            forall|rr: int| 0 <= rr < r ==> (#[trigger] grid@[rr])@.len() == cols + 1,
            forall|rr: int, cc: int|
                0 <= rr < r && 0 <= cc <= cols ==> cell_ok(#[trigger] grid@[rr]@[cc], rr, cc),
            grid@[0]@[0].val == 0,
            hyp ==> rpenalty <= 0,
            hyp ==> forall|rr: int, cc: int|
                0 <= rr < r && 0 <= cc <= cols ==> cell_nonpos(#[trigger] grid@[rr]@[cc]),
            hyp ==> forall|rr: int|
                1 <= rr < r && rr <= cols ==> (#[trigger] grid@[rr]@[rr]).val == 0
                    && grid@[rr]@[rr].dir is Diag,
        decreases rows + 1 - r,
    {
        let mut row: Vec<Cell> = Vec::new();
        row.push(Cell { val: rpenalty, up: rpenalty, left: UNREACH, dir: Dir::Up });
        let mut c: usize = 1;
        while c <= cols
            invariant
                1 <= c <= cols + 1,
                row@.len() == c,
                forall|cc: int| 0 <= cc < c ==> cell_ok(#[trigger] row@[cc], r as int, cc),
                hyp ==> forall|cc: int| 0 <= cc < c ==> cell_nonpos(#[trigger] row@[cc]),
                hyp ==> (r < c && r <= cols ==> row@[r as int].val == 0 && row@[r as int].dir
                    is Diag),
            decreases cols + 1 - c,
        {
            let prev = &grid[r - 1];
            let up_pred = prev[c];
            let diag_pred = prev[c - 1];
            let left_pred = row[c - 1];

            let up_a = up_pred.up + (skew as i64);
            let up_b = up_pred.val + (gap as i64);
            let up_score = if up_a >= up_b {
                up_a
            } else {
                up_b
            };
            let left_a = left_pred.left + (skew as i64);
            let left_b = left_pred.val + (gap as i64);
            let left_score = if left_a >= left_b {
                left_a
            } else {
                left_b
            };
            let sub = sub_cost_exec(subs, pchars[r - 1], lchars[c - 1]);
            proof {
                if hyp {
                    if pchars@[r - 1] != lchars@[c - 1] {
                        lemma_table_cost_nonpos(
                            subs@,
                            canon_pair(pchars@[r - 1], lchars@[c - 1]),
                        );
                    }
                    assert(sub <= 0);
                }
            }
            let diag_score = diag_pred.val + (sub as i64);

            let mut val = diag_score;
            let mut dir = Dir::Diag;
            if up_score > val {
                val = up_score;
                dir = Dir::Up;
            }
            if left_score > val {
                val = left_score;
                dir = Dir::Left;
            }
            proof {
                if hyp {
                    assert(cell_nonpos(grid@[r - 1]@[c as int]));
                    assert(cell_nonpos(grid@[r - 1]@[c - 1]));
                    assert(cell_nonpos(row@[c - 1]));
                    assert(up_score <= 0 && left_score <= 0 && val <= 0);
                    if c == r {
                        assert(pchars@[r - 1] == lchars@[c - 1]);
                        assert(sub == 0);
                        if r - 1 == 0 {
                            assert(grid@[0]@[0].val == 0);
                        } else {
                            assert(grid@[r - 1]@[r - 1].val == 0);
                        }
                        assert(diag_score == 0);
                        assert(val == 0 && dir is Diag);
                    }
                }
            }
            row.push(Cell { val, up: up_score, left: left_score, dir });
            c += 1;
        }
        grid.push(row);
        rpenalty = rpenalty + (skew as i64);
        r += 1;
    }

    let mut pmask_rev: Vec<bool> = Vec::new();
    let mut lmask_rev: Vec<bool> = Vec::new();
    let mut tr: usize = rows;
    let mut tc: usize = cols;
    while tr > 0 || tc > 0
        invariant
            tr <= rows,
            tc <= cols,
            pmask_rev@.len() == lmask_rev@.len(),
            count_true(pmask_rev@) == rows - tr,
            count_true(lmask_rev@) == cols - tc,
            pmask_rev@.len() <= (rows - tr) + (cols - tc),
            hyp ==> tr == tc,
            hyp ==> all_true(pmask_rev@) && all_true(lmask_rev@),
        decreases tr + tc,
    {
        let row = &grid[tr];
        let cell = row[tc];
        proof {
            assert(cell_ok(grid@[tr as int]@[tc as int], tr as int, tc as int));
            lemma_count_true_push(pmask_rev@, true);
            lemma_count_true_push(pmask_rev@, false);
            lemma_count_true_push(lmask_rev@, true);
            lemma_count_true_push(lmask_rev@, false);
        }
        match cell.dir {
            Dir::Diag => {
                pmask_rev.push(true);
                lmask_rev.push(true);
                tr -= 1;
                tc -= 1;
            },
            Dir::Up => {
                proof {
                    if hyp {
                        assert(grid@[tr as int]@[tr as int].dir is Diag);
                        assert(false);
                    }
                }
                pmask_rev.push(true);
                lmask_rev.push(false);
                tr -= 1;
            },
            Dir::Left => {
                proof {
                    if hyp {
                        assert(grid@[tr as int]@[tr as int].dir is Diag);
                        assert(false);
                    }
                }
                pmask_rev.push(false);
                lmask_rev.push(true);
                tc -= 1;
            },
            Dir::Start => {
                proof {
                    assert(false);
                }
            },
        }
    }
    proof {
        lemma_count_true_reverse(pmask_rev@);
        lemma_count_true_reverse(lmask_rev@);
        if hyp {
            lemma_all_true_count(pmask_rev@);
            lemma_all_true_count(lmask_rev@);
        }
    }
    let pmask = reversed(&pmask_rev);
    let lmask = reversed(&lmask_rev);
    proof {
        if hyp {
            assert forall|i: int| 0 <= i < pmask@.len() implies pmask@[i] by {
                assert(pmask@[i] == pmask_rev@[pmask_rev@.len() - 1 - i]);
            }
            assert forall|i: int| 0 <= i < lmask@.len() implies lmask@[i] by {
                assert(lmask@[i] == lmask_rev@[lmask_rev@.len() - 1 - i]);
            }
        }
    }
    (pmask, lmask)
}

/// The characters of all lines counted together.
pub open spec fn total_len(lines: Seq<&str>) -> nat
    decreases lines.len(),
{
    if lines.len() == 0 {
        0
    } else {
        lines[0]@.len() + total_len(lines.skip(1))
    }
}

/// Splits one line off the front of the total.
proof fn lemma_total_len_skip(lines: Seq<&str>, s: int)
    requires
        0 <= s < lines.len(),
    ensures
        total_len(lines.skip(s)) == lines[s]@.len() + total_len(lines.skip(s + 1)),
{
    assert(lines.skip(s)[0] == lines[s]);
    assert(lines.skip(s).skip(1) =~= lines.skip(s + 1));
}

/// The characters of a string, one per Unicode code point.
fn chars_of(s: &str) -> (r: Vec<char>)
    ensures
        r@ == s@,
{
    let len = s.unicode_len();
    let mut r: Vec<char> = Vec::new();
    let mut k: usize = 0;
    while k < len
        invariant
            k <= len == s@.len(),
            r@ == s@.take(k as int),
        decreases len - k,
    {
        r.push(s.get_char(k));
        proof {
            assert(s@.take(k + 1) =~= s@.take(k as int).push(s@[k as int]));
        }
        k += 1;
    }
    proof {
        assert(s@.take(len as int) =~= s@);
    }
    r
}

/// Relies on String::push: appends exactly the one character at the end.
#[verifier::external_body]
fn string_push(s: &mut String, c: char)
    ensures
        final(s)@ == old(s)@.push(c),
{
    s.push(c);
}

/// A `String` holding exactly the given characters.
fn string_of(chars: &Vec<char>) -> (r: String)
    ensures
        r@ == chars@,
{
    let mut r = String::new();
    let mut k: usize = 0;
    while k < chars.len()
        invariant
            k <= chars@.len(),
            r@ == chars@.take(k as int),
        decreases chars@.len() - k,
    {
        string_push(&mut r, chars[k]);
        proof {
            assert(chars@.take(k + 1) =~= chars@.take(k as int).push(chars@[k as int]));
        }
        k += 1;
    }
    proof {
        assert(chars@.take(chars@.len() as int) =~= chars@);
    }
    r
}

/// Error in an alignment configuration.
#[derive(Clone, Copy, Debug, PartialEq, Eq, Structural)]
pub enum ConfigError {
    /// Two substitution entries give the same unordered character pair
    /// different costs.
    ConflictingSubstitution,
}

/// The canonical key of a substitution entry.
pub open spec fn canon_key(e: ((char, char), i32)) -> (char, char) {
    canon_pair(e.0.0, e.0.1)
}

/// Keys stored canonically, and no key twice.
pub open spec fn table_wf(table: Seq<((char, char), i32)>) -> bool {
    &&& forall|q: int| 0 <= q < table.len() ==> (#[trigger] table[q]).0 == canon_key(table[q])
    &&& forall|q1: int, q2: int| 0 <= q1 < q2 < table.len() ==> table[q1].0 != table[q2].0
}

/// No two entries give the same unordered pair different costs, in
/// whichever order the two entries write the pair.
pub open spec fn table_consistent(subs: Seq<((char, char), i32)>) -> bool {
    forall|k1: int, k2: int|
        0 <= k1 < subs.len() && 0 <= k2 < subs.len() && canon_key(#[trigger] subs[k1]) == canon_key(
            #[trigger] subs[k2],
        ) ==> subs[k1].1 == subs[k2].1
}

/// Some stored entry carries this entry's canonical key and its cost.
pub open spec fn covers(table: Seq<((char, char), i32)>, e: ((char, char), i32)) -> bool {
    exists|t: int|
        0 <= t < table.len() && (#[trigger] table[t]).0 == canon_key(e) && table[t].1 == e.1
}

/// The stored entry at `t` came from one of the first `k` input entries.
pub open spec fn from_input(input: Seq<((char, char), i32)>, k: int, e: ((char, char), i32)) -> bool {
    exists|p: int| 0 <= p < k && canon_key(#[trigger] input[p]) == e.0 && input[p].1 == e.1
}

/// The substitution cost a raw entry list asks for: zero for equal
/// characters, the cost its entries give the unordered pair, the mismatch
/// default when none does.
pub open spec fn input_cost(subs: Seq<((char, char), i32)>, a: char, b: char) -> int {
    if a == b {
        0
    } else if exists|p: int|
        0 <= p < subs.len() && canon_key(#[trigger] subs[p]) == canon_pair(a, b) {
        (subs[choose|p: int|
            0 <= p < subs.len() && canon_key(#[trigger] subs[p]) == canon_pair(a, b)].1) as int
    } else {
        MISMATCH_COST as int
    }
}

/// With distinct keys, the lookup returns the cost stored beside the key.
proof fn lemma_table_cost_at(table: Seq<((char, char), i32)>, key: (char, char), t: int)
    requires
        0 <= t < table.len(),
        table[t].0 == key,
        forall|q1: int, q2: int| 0 <= q1 < q2 < table.len() ==> table[q1].0 != table[q2].0,
    ensures
        table_cost(table, key) == table[t].1 as int,
    decreases table.len(),
{
    if t == 0 {
    } else {
        assert(table[0].0 != key);
        assert(table.skip(1)[t - 1] == table[t]);
        assert forall|q1: int, q2: int|
            0 <= q1 < q2 < table.skip(1).len() implies table.skip(1)[q1].0 != table.skip(
            1,
        )[q2].0 by {
            assert(table.skip(1)[q1] == table[q1 + 1]);
            assert(table.skip(1)[q2] == table[q2 + 1]);
        }
        lemma_table_cost_at(table.skip(1), key, t - 1);
    }
}

/// A key no entry holds looks up to the mismatch default.
proof fn lemma_table_cost_missing(table: Seq<((char, char), i32)>, key: (char, char))
    requires
        forall|t: int| 0 <= t < table.len() ==> (#[trigger] table[t]).0 != key,
    ensures
        table_cost(table, key) == MISMATCH_COST as int,
    decreases table.len(),
{
    if table.len() > 0 {
        assert forall|t: int| 0 <= t < table.skip(1).len() implies (#[trigger] table.skip(
            1,
        )[t]).0 != key by {
            assert(table.skip(1)[t] == table[t + 1]);
        }
        lemma_table_cost_missing(table.skip(1), key);
    }
}

/// Position of the entry holding `key`, if the table has one.
fn find_key(table: &Vec<((char, char), i32)>, key: (char, char)) -> (r: Option<usize>)
    ensures
        match r {
            Some(t) => t < table@.len() && table@[t as int].0 == key,
            None => forall|t: int| 0 <= t < table@.len() ==> (#[trigger] table@[t]).0 != key,
        },
{
    let mut t: usize = 0;
    while t < table.len()
        invariant
            t <= table@.len(),
            forall|q: int| 0 <= q < t ==> (#[trigger] table@[q]).0 != key,
        decreases table@.len() - t,
    {
        let entry = table[t];
        if entry.0.0 == key.0 && entry.0.1 == key.1 {
            proof {
                assert(entry.0 == key);
            }
            return Some(t);
        }
        t += 1;
    }
    None
}

/// Configuration of the alignment engine: the gap marker written at gap
/// columns, the gap-open and gap-extend costs, and the substitution cost
/// table keyed by canonical character pairs.
pub struct LineAlign {
    pub gap_char: char,
    pub gap: i32,
    pub skew: i32,
    pub substitutions: Vec<((char, char), i32)>,
}

impl LineAlign {
    /// Builds a configuration with the default gap marker.
    ///
    /// Each substitution entry names an unordered character pair with its
    /// cost; the pair is stored canonically, smaller code point first, so
    /// one entry serves both orders. Entries that give the same pair
    /// different costs are rejected; a repeated entry with the same cost
    /// is kept once.
    pub fn new(substitutions: Vec<((char, char), i32)>, gap: i32, skew: i32) -> (r: Result<
        LineAlign,
        ConfigError,
    >)
        ensures
            r is Ok <==> table_consistent(substitutions@),
            r is Ok ==> (r->Ok_0).gap_char == '\u{22c4}' && (r->Ok_0).gap == gap && (r->Ok_0).skew
                == skew,
            r is Ok ==> table_wf((r->Ok_0).substitutions@),
            r is Ok ==> forall|a: char, b: char|
                sub_cost((r->Ok_0).substitutions@, a, b) == input_cost(substitutions@, a, b),
            r is Err ==> r->Err_0 == ConfigError::ConflictingSubstitution,
    {
        let mut table: Vec<((char, char), i32)> = Vec::new();
        let mut k: usize = 0;
        while k < substitutions.len()
            invariant
                k <= substitutions@.len(),
                table_wf(table@),
                forall|p: int| 0 <= p < k ==> covers(table@, #[trigger] substitutions@[p]),
                forall|t: int|
                    0 <= t < table@.len() ==> from_input(
                        substitutions@,
                        k as int,
                        #[trigger] table@[t],
                    ),
            decreases substitutions@.len() - k,
        {
            let e = substitutions[k];
            let key = if (e.0.0 as u32) <= (e.0.1 as u32) {
                e.0
            } else {
                (e.0.1, e.0.0)
            };
            proof {
                assert(key == canon_key(e));
            }
            match find_key(&table, key) {
                Some(t) => {
                    if table[t].1 != e.1 {
                        proof {
                            let te = table@[t as int];
                            assert(from_input(substitutions@, k as int, te));
                            let p = choose|p: int|
                                0 <= p < k && canon_key(#[trigger] substitutions@[p]) == te.0
                                    && substitutions@[p].1 == te.1;
                            assert(canon_key(substitutions@[p]) == canon_key(
                                substitutions@[k as int],
                            ));
                            assert(substitutions@[p].1 != substitutions@[k as int].1);
                            assert(!table_consistent(substitutions@));
                        }
                        return Err(ConfigError::ConflictingSubstitution);
                    }
                    proof {
                        assert(covers(table@, substitutions@[k as int])) by {
                            assert(table@[t as int].0 == canon_key(substitutions@[k as int])
                                && table@[t as int].1 == substitutions@[k as int].1);
                        }
                        assert forall|tt: int| 0 <= tt < table@.len() implies from_input(
                            substitutions@,
                            k + 1,
                            #[trigger] table@[tt],
                        ) by {
                            let te = table@[tt];
                            assert(from_input(substitutions@, k as int, te));
                            let p = choose|p: int|
                                0 <= p < k && canon_key(#[trigger] substitutions@[p]) == te.0
                                    && substitutions@[p].1 == te.1;
                            assert(0 <= p < k + 1 && canon_key(substitutions@[p]) == table@[tt].0
                                && substitutions@[p].1 == table@[tt].1);
                        }
                    }
                },
                None => {
                    let ghost pre = table@;
                    table.push((key, e.1));
                    proof {
                        assert forall|p: int| 0 <= p < k + 1 implies covers(
                            table@,
                            #[trigger] substitutions@[p],
                        ) by {
                            if p < k {
                                assert(covers(pre, substitutions@[p]));
                                let t = choose|t: int|
                                    0 <= t < pre.len() && (#[trigger] pre[t]).0 == canon_key(
                                        substitutions@[p],
                                    ) && pre[t].1 == substitutions@[p].1;
                                assert(table@[t] == pre[t]);
                            } else {
                                assert(table@[pre.len() as int].0 == canon_key(substitutions@[p])
                                    && table@[pre.len() as int].1 == substitutions@[p].1);
                            }
                        }
                        assert forall|tt: int| 0 <= tt < table@.len() implies from_input(
                            substitutions@,
                            k + 1,
                            #[trigger] table@[tt],
                        ) by {
                            if tt < pre.len() {
                                assert(table@[tt] == pre[tt]);
                                let te = pre[tt];
                                assert(from_input(substitutions@, k as int, te));
                                let p = choose|p: int|
                                    0 <= p < k && canon_key(#[trigger] substitutions@[p]) == te.0
                                        && substitutions@[p].1 == te.1;
                                assert(0 <= p < k + 1 && canon_key(substitutions@[p])
                                    == table@[tt].0 && substitutions@[p].1 == table@[tt].1);
                            } else {
                                assert(canon_key(substitutions@[k as int]) == table@[tt].0
                                    && substitutions@[k as int].1 == table@[tt].1);
                            }
                        }
                    }
                },
            }
            k += 1;
        }
        proof {
            assert forall|k1: int, k2: int|
                0 <= k1 < substitutions@.len() && 0 <= k2 < substitutions@.len() && canon_key(
                    #[trigger] substitutions@[k1],
                ) == canon_key(#[trigger] substitutions@[k2]) implies substitutions@[k1].1
                == substitutions@[k2].1 by {
                assert(covers(table@, substitutions@[k1]));
                assert(covers(table@, substitutions@[k2]));
                let t1 = choose|t: int|
                    0 <= t < table@.len() && (#[trigger] table@[t]).0 == canon_key(
                        substitutions@[k1],
                    ) && table@[t].1 == substitutions@[k1].1;
                let t2 = choose|t: int|
                    0 <= t < table@.len() && (#[trigger] table@[t]).0 == canon_key(
                        substitutions@[k2],
                    ) && table@[t].1 == substitutions@[k2].1;
                if t1 != t2 {
                    assert(table@[t1].0 != table@[t2].0);
                }
            }
            assert(table_consistent(substitutions@));
            assert forall|a: char, b: char|
                sub_cost(table@, a, b) == input_cost(substitutions@, a, b) by {
                if a != b {
                    if exists|p: int|
                        0 <= p < substitutions@.len() && canon_key(#[trigger] substitutions@[p])
                            == canon_pair(a, b) {
                        let p0 = choose|p: int|
                            0 <= p < substitutions@.len() && canon_key(#[trigger] substitutions@[p])
                                == canon_pair(a, b);
                        assert(covers(table@, substitutions@[p0]));
                        let t = choose|t: int|
                            0 <= t < table@.len() && (#[trigger] table@[t]).0 == canon_key(
                                substitutions@[p0],
                            ) && table@[t].1 == substitutions@[p0].1;
                        lemma_table_cost_at(table@, canon_pair(a, b), t);
                    } else {
                        assert forall|t: int| 0 <= t < table@.len() implies (#[trigger] table@[t]).0
                            != canon_pair(a, b) by {
                            if table@[t].0 == canon_pair(a, b) {
                                assert(from_input(
                                    substitutions@,
                                    substitutions@.len() as int,
                                    table@[t],
                                ));
                                let p = choose|p: int|
                                    0 <= p < substitutions@.len() && canon_key(
                                        #[trigger] substitutions@[p],
                                    ) == table@[t].0 && substitutions@[p].1 == table@[t].1;
                            }
                        }
                        lemma_table_cost_missing(table@, canon_pair(a, b));
                    }
                }
            }
        }
        Ok(LineAlign { gap_char: '\u{22c4}', gap, skew, substitutions: table })
    }

    /// Builds a gap-padded multiple alignment of the given lines.
    ///
    /// Every output string has the same length; stripping the gap marker
    /// from an output string gives back the corresponding input line with
    /// any of its own marker characters removed, so no character is
    /// dropped or duplicated. Zero or one line comes back unchanged.
    #[verifier::loop_isolation(false)]
    pub fn align(&self, lines: Vec<&str>) -> (r: Vec<String>)
        requires
            total_len(lines@) <= 0x400_0000,
        ensures
            r@.len() == lines@.len(),
            forall|k: int|
                0 <= k < lines@.len() ==> strip(#[trigger] r@[k]@, self.gap_char) == strip(
                    lines@[k]@,
                    self.gap_char,
                ),
            forall|k1: int, k2: int|
                0 <= k1 < lines@.len() && 0 <= k2 < lines@.len() ==> r@[k1]@.len()
                    == r@[k2]@.len(),
            forall|k: int| 0 <= k < lines@.len() ==> r@[k]@.len() >= lines@[k]@.len(),
            lines@.len() <= 1 ==> forall|k: int| 0 <= k < lines@.len() ==> r@[k]@ == lines@[k]@,
            (self.gap <= 0 && self.skew <= 0 && nonpos_table(self.substitutions@) && (forall|k: int|
                0 <= k < lines@.len() ==> (#[trigger] lines@[k])@ == lines@[0]@)) ==> forall|k: int|
                0 <= k < lines@.len() ==> (#[trigger] r@[k])@ == lines@[k]@,
    {
        let ghost same = self.gap <= 0 && self.skew <= 0 && nonpos_table(self.substitutions@) && (
        forall|k: int| 0 <= k < lines@.len() ==> (#[trigger] lines@[k])@ == lines@[0]@);
        let n = lines.len();
        let mut out: Vec<String> = Vec::new();
        if n == 0 {
            return out;
        }
        let mut consensus: Vec<Vec<char>> = Vec::new();
        consensus.push(chars_of(lines[0]));
        let mut s: usize = 1;
        while s < n
            invariant
                1 <= s <= n == lines@.len(),
                consensus@.len() == s,
                forall|q: int|
                    0 <= q < s ==> strip(#[trigger] consensus@[q]@, self.gap_char) == strip(
                        lines@[q]@,
                        self.gap_char,
                    ),
                forall|q: int|
                    0 <= q < s ==> (#[trigger] consensus@[q])@.len() == consensus@[0]@.len(),
                forall|q: int| 0 <= q < s ==> (#[trigger] consensus@[q])@.len() >= lines@[q]@.len(),
                consensus@[0]@.len() + total_len(lines@.skip(s as int)) <= 0x400_0000,
                s == 1 ==> consensus@[0]@ == lines@[0]@,
                same ==> forall|q: int| 0 <= q < s ==> (#[trigger] consensus@[q])@ == lines@[q]@,
            decreases n - s,
        {
            let lchars = chars_of(lines[s]);
            proof {
                lemma_total_len_skip(lines@, s as int);
            }
            let ghost rows = consensus@[0]@.len();
            let (pmask, lmask) = align_step(
                self.gap,
                self.skew,
                &self.substitutions,
                &consensus[0],
                &lchars,
            );
            proof {
                lemma_count_true_le_len(pmask@);
                lemma_count_true_le_len(lmask@);
                if same {
                    assert(consensus@[0]@ == lines@[0]@);
                    assert(lchars@ == lines@[s as int]@);
                    assert(self_align(self.gap, self.skew, self.substitutions@, consensus@[0]@,
                        lchars@));
                    assert(all_true(pmask@) && all_true(lmask@));
                    assert(pmask@.len() == consensus@[0]@.len());
                }
            }
            let mut next: Vec<Vec<char>> = Vec::new();
            let mut k: usize = 0;
            while k < s
                invariant
                    k <= s,
                    next@.len() == k,
                    forall|q: int|
                        0 <= q < k ==> (#[trigger] next@[q])@ == expand_spec(
                            consensus@[q]@,
                            pmask@,
                            self.gap_char,
                        ),
                decreases s - k,
            {
                let e = expand_with_mask(&consensus[k], &pmask, self.gap_char);
                next.push(e);
                k += 1;
            }
            next.push(expand_with_mask(&lchars, &lmask, self.gap_char));
            proof {
                crate::masks::lemma_expand_len(consensus@[0]@, pmask@, self.gap_char);
                assert forall|q: int| 0 <= q < s implies strip(
                    #[trigger] next@[q]@,
                    self.gap_char,
                ) == strip(lines@[q]@, self.gap_char) by {
                    crate::masks::lemma_expand_strip(consensus@[q]@, pmask@, self.gap_char);
                    crate::masks::lemma_expand_len(consensus@[q]@, pmask@, self.gap_char);
                }
                assert forall|q: int| 0 <= q < s implies (#[trigger] next@[q])@.len() == pmask@.len()
                    by {
                    crate::masks::lemma_expand_len(consensus@[q]@, pmask@, self.gap_char);
                }
            }
            proof {
                if same {
                    assert forall|q: int| 0 <= q < s + 1 implies (#[trigger] next@[q])@
                        == lines@[q]@ by {
                        if q < s {
                            lemma_expand_all_true(consensus@[q]@, pmask@, self.gap_char);
                        } else {
                            lemma_expand_all_true(lchars@, lmask@, self.gap_char);
                        }
                    }
                }
            }
            consensus = next;
            s += 1;
        }
        let mut k: usize = 0;
        while k < consensus.len()
            invariant
                k <= consensus@.len(),
                out@.len() == k,
                forall|q: int| 0 <= q < k ==> (#[trigger] out@[q])@ == consensus@[q]@,
            decreases consensus@.len() - k,
        {
            out.push(string_of(&consensus[k]));
            k += 1;
        }
        out
    }
}

} // verus!
