//! The similarity metric: an edit distance that counts the swap of two
//! neighbouring characters as a single edit.

use vstd::prelude::*;

verus! {

/// Cost of replacing `x` by `y`: nothing when they agree, one edit otherwise.
pub open spec fn substitution_cost(x: char, y: char) -> nat {
    if x == y {
        0
    } else {
        1
    }
}

/// Whether the last two characters of the first `i` of `a` are the last two
/// of the first `j` of `b`, in the opposite order.
pub open spec fn swapped_tail(a: Seq<char>, b: Seq<char>, i: nat, j: nat) -> bool {
    &&& i > 1
    &&& j > 1
    &&& a[i - 1] == b[j - 2]
    &&& a[i - 2] == b[j - 1]
}

/// The least number of edits that turn the first `i` characters of `a` into
/// the first `j` characters of `b`.
///
/// An edit deletes one character, inserts one, replaces one by another, or
/// exchanges two neighbours; a pair that was exchanged is not edited again.
pub open spec fn prefix_distance(a: Seq<char>, b: Seq<char>, i: nat, j: nat) -> nat
    decreases i + j,
{
    if i == 0 {
        j
    } else if j == 0 {
        i
    } else {
        let replace = prefix_distance(a, b, (i - 1) as nat, (j - 1) as nat) + substitution_cost(
            a[i - 1],
            b[j - 1],
        );
        let delete = prefix_distance(a, b, (i - 1) as nat, j) + 1;
        let insert = prefix_distance(a, b, i, (j - 1) as nat) + 1;
        let plain = vstd::math::min(replace as int, vstd::math::min(delete as int, insert as int));
        if swapped_tail(a, b, i, j) {
            let exchange = prefix_distance(a, b, (i - 2) as nat, (j - 2) as nat) + 1;
            vstd::math::min(plain, exchange as int) as nat
        } else {
            plain as nat
        }
    }
}

/// The edit distance between `a` and `b`.
pub open spec fn distance(a: Seq<char>, b: Seq<char>) -> nat {
    prefix_distance(a, b, a.len(), b.len())
}

/// No prefix is further from another than the longer of the two is long.
pub proof fn prefix_distance_at_most_longer(a: Seq<char>, b: Seq<char>, i: nat, j: nat)
    ensures
        prefix_distance(a, b, i, j) <= vstd::math::max(i as int, j as int),
    decreases i + j,
{
    if i > 0 && j > 0 {
        prefix_distance_at_most_longer(a, b, (i - 1) as nat, (j - 1) as nat);
    }
}

/// Two prefixes are at least as far apart as their lengths differ.
pub proof fn prefix_distance_at_least_gap(a: Seq<char>, b: Seq<char>, i: nat, j: nat)
    ensures
        prefix_distance(a, b, i, j) >= i - j,
        prefix_distance(a, b, i, j) >= j - i,
    decreases i + j,
{
    if i > 0 && j > 0 {
        prefix_distance_at_least_gap(a, b, (i - 1) as nat, (j - 1) as nat);
        prefix_distance_at_least_gap(a, b, (i - 1) as nat, j);
        prefix_distance_at_least_gap(a, b, i, (j - 1) as nat);
        if i > 1 && j > 1 {
            prefix_distance_at_least_gap(a, b, (i - 2) as nat, (j - 2) as nat);
        }
    }
}

/// Exchanging the two arguments, and the two prefix lengths with them, does
/// not change the distance between the prefixes.
pub proof fn prefix_distance_symmetric(a: Seq<char>, b: Seq<char>, i: nat, j: nat)
    ensures
        prefix_distance(a, b, i, j) == prefix_distance(b, a, j, i),
    decreases i + j,
{
    if i > 0 && j > 0 {
        prefix_distance_symmetric(a, b, (i - 1) as nat, (j - 1) as nat);
        prefix_distance_symmetric(a, b, (i - 1) as nat, j);
        prefix_distance_symmetric(a, b, i, (j - 1) as nat);
        if i > 1 && j > 1 {
            prefix_distance_symmetric(a, b, (i - 2) as nat, (j - 2) as nat);
        }
    }
}

/// Prefixes of equal length that agree character by character are at distance zero.
pub proof fn prefix_distance_of_equal_prefixes(a: Seq<char>, b: Seq<char>, i: nat)
    requires
        i <= a.len(),
        i <= b.len(),
        forall|p: int| 0 <= p < i ==> a[p] == b[p],
    ensures
        prefix_distance(a, b, i, i) == 0,
    decreases i,
{
    if i > 0 {
        prefix_distance_of_equal_prefixes(a, b, (i - 1) as nat);
    }
}

/// Prefixes at distance zero have the same length and agree character by character.
pub proof fn prefix_distance_zero_means_equal(a: Seq<char>, b: Seq<char>, i: nat, j: nat)
    requires
        i <= a.len(),
        j <= b.len(),
        prefix_distance(a, b, i, j) == 0,
    ensures
        i == j,
        forall|p: int| 0 <= p < i ==> a[p] == b[p],
    decreases i + j,
{
    if i > 0 && j > 0 {
        prefix_distance_zero_means_equal(a, b, (i - 1) as nat, (j - 1) as nat);
    }
}

/// Appending characters on which both sequences agree does not move the
/// prefixes further apart.
pub proof fn prefix_distance_along_equal_run(
    a: Seq<char>,
    b: Seq<char>,
    from: nat,
    to: nat,
)
    requires
        from <= to,
        to <= a.len(),
        to <= b.len(),
        forall|p: int| from <= p < to ==> a[p] == b[p],
    ensures
        prefix_distance(a, b, to, to) <= prefix_distance(a, b, from, from),
    decreases to - from,
{
    if from < to {
        prefix_distance_along_equal_run(a, b, from, (to - 1) as nat);
    }
}

/// Every sequence is at distance zero from itself.
pub proof fn distance_identity(s: Seq<char>)
    ensures
        distance(s, s) == 0,
{
    prefix_distance_of_equal_prefixes(s, s, s.len());
}

/// The distance is zero for equal sequences and for no others.
pub proof fn distance_zero_iff_equal(a: Seq<char>, b: Seq<char>)
    ensures
        distance(a, b) == 0 <==> a == b,
{
    if a == b {
        distance_identity(a);
    }
    if distance(a, b) == 0 {
        prefix_distance_zero_means_equal(a, b, a.len(), b.len());
        assert(a =~= b);
    }
}

/// The distance does not depend on the order of its two arguments.
pub proof fn distance_symmetric(a: Seq<char>, b: Seq<char>)
    ensures
        distance(a, b) == distance(b, a),
{
    prefix_distance_symmetric(a, b, a.len(), b.len());
}

/// The distance never exceeds the length of the longer sequence, and so
/// never the two lengths taken together; it is never less than the
/// difference of the two lengths.
pub proof fn distance_bounds(a: Seq<char>, b: Seq<char>)
    ensures
        distance(a, b) <= a.len() + b.len(),
        distance(a, b) <= vstd::math::max(a.len() as int, b.len() as int),
        distance(a, b) >= a.len() - b.len(),
        distance(a, b) >= b.len() - a.len(),
{
    prefix_distance_at_most_longer(a, b, a.len(), b.len());
    prefix_distance_at_least_gap(a, b, a.len(), b.len());
}

/// From the empty sequence every character of the other one has to be
/// inserted, and towards it every character deleted.
pub proof fn distance_from_empty(s: Seq<char>)
    ensures
        distance(Seq::<char>::empty(), s) == s.len(),
        distance(s, Seq::<char>::empty()) == s.len(),
{
}

/// Two sequences of equal length that differ at exactly one position are at
/// distance one.
pub proof fn distance_single_substitution(a: Seq<char>, b: Seq<char>, at: int)
    requires
        a.len() == b.len(),
        0 <= at < a.len(),
        a[at] != b[at],
        forall|p: int| 0 <= p < a.len() && p != at ==> a[p] == b[p],
    ensures
        distance(a, b) == 1,
{
    prefix_distance_of_equal_prefixes(a, b, at as nat);
    prefix_distance_along_equal_run(a, b, (at + 1) as nat, a.len());
    distance_zero_iff_equal(a, b);
}

/// Two sequences that differ only in that two neighbouring, distinct
/// characters stand in the opposite order are at distance one.
pub proof fn distance_single_transposition(a: Seq<char>, b: Seq<char>, at: int)
    requires
        a.len() == b.len(),
        0 <= at,
        at + 1 < a.len(),
        a[at] != a[at + 1],
        b[at] == a[at + 1],
        b[at + 1] == a[at],
        forall|p: int| 0 <= p < a.len() && p != at && p != at + 1 ==> a[p] == b[p],
    ensures
        distance(a, b) == 1,
{
    prefix_distance_of_equal_prefixes(a, b, at as nat);
    assert(swapped_tail(a, b, (at + 2) as nat, (at + 2) as nat));
    prefix_distance_along_equal_run(a, b, (at + 2) as nat, a.len());
    distance_zero_iff_equal(a, b);
}

/// Where the cell of row `row` and column `col` lies in a table of `cols`
/// columns that is stored row after row.
pub open spec fn place(cols: int, row: int, col: int) -> int {
    row * cols + col
}

/// A table stored row after row keeps distinct cells apart and all of them
/// inside its `rows * cols` entries.
proof fn places_are_distinct(rows: int, cols: int, r: int, c: int, r2: int, c2: int)
    requires
        0 <= r < rows,
        0 <= r2 < rows,
        0 <= c < cols,
        0 <= c2 < cols,
    ensures
        0 <= place(cols, r, c) < rows * cols,
        place(cols, r, c) == place(cols, r2, c2) <==> r == r2 && c == c2,
{
    assert(0 <= r * cols && (r + 1) * cols <= rows * cols) by (nonlinear_arith)
        requires
            0 <= r < rows,
            0 <= cols,
    ;
    assert((r + 1) * cols == r * cols + cols) by (nonlinear_arith);
    if r < r2 {
        assert((r + 1) * cols <= r2 * cols) by (nonlinear_arith)
            requires
                r + 1 <= r2,
                0 <= cols,
        ;
    }
    if r2 < r {
        assert((r2 + 1) * cols <= r * cols) by (nonlinear_arith)
            requires
                r2 + 1 <= r,
                0 <= cols,
        ;
        assert((r2 + 1) * cols == r2 * cols + cols) by (nonlinear_arith);
    }
}

/// Whether the table holds, in the cell of row `row` and column `col`, the
/// distance between the first `row` characters of `a` and the first `col` of `b`.
spec fn filled(table: Seq<usize>, a: Seq<char>, b: Seq<char>, cols: int, row: int, col: int) -> bool {
    table[place(cols, row, col)] == prefix_distance(a, b, row as nat, col as nat)
}

/// The index of a cell in a table of `rows` rows and `cols` columns.
fn cell_index(rows: usize, cols: usize, row: usize, col: usize) -> (index: usize)
    requires
        row < rows,
        col < cols,
        rows * cols <= usize::MAX,
    ensures
        index == place(cols as int, row as int, col as int),
        index < rows * cols,
{
    proof {
        places_are_distinct(rows as int, cols as int, row as int, col as int, row as int, col as int);
    }
    row * cols + col
}

/// The smaller of two numbers.
fn smaller(x: usize, y: usize) -> (least: usize)
    ensures
        least == vstd::math::min(x as int, y as int),
{
    if x <= y {
        x
    } else {
        y
    }
}

/// The characters of `text`, in order, as a vector that can be indexed.
fn characters(text: &str) -> (chars: Vec<char>)
    ensures
        chars@ == text@,
{
    let mut chars: Vec<char> = Vec::new();
    for c in it: text.chars()
        invariant
            it.seq() == text@,
            chars@ == it.seq().take(it.index()),
    {
        chars.push(c);
        assert(chars@ =~= it.seq().take(it.index() + 1));
    }
    assert(chars@ =~= text@);
    chars
}

/// Return the edit distance between `search_chars` and `known_term`.
///
/// The search term is taken as a slice of characters, so that one that is
/// compared with many known terms is decoded once.
///
/// The table of distances between prefixes has one entry for each pair of a
/// prefix of the one and a prefix of the other, and has to fit in memory.
pub fn edit_distance(search_chars: &[char], known_term: &str) -> (d: usize)
    requires
        (search_chars@.len() + 1) * (known_term@.len() + 1) <= usize::MAX,
    ensures
        d == distance(search_chars@, known_term@),
{
    let known_chars = characters(known_term);
    let ghost a = search_chars@;
    let ghost b = known_term@;
    assert(a.len() + 1 <= (a.len() + 1) * (b.len() + 1) && b.len() + 1 <= (a.len() + 1) * (
    b.len() + 1)) by (nonlinear_arith);
    let n: usize = search_chars.len() + 1;
    let m: usize = known_chars.len() + 1;

    assert(m * n == n * m) by (nonlinear_arith);
    let mut mat: Vec<usize> = vec![0; m * n];
    proof {
        places_are_distinct(n as int, m as int, 0, 0, 0, 0);
        assert(filled(mat@, a, b, m as int, 0, 0));
    }

    for i in 1..n
        invariant
            n == a.len() + 1,
            m == b.len() + 1,
            n * m <= usize::MAX,
            mat.len() == n * m,
            forall|r: int| 0 <= r < i ==> #[trigger] filled(mat@, a, b, m as int, r, 0),
    {
        let at = cell_index(n, m, i, 0);
        let ghost before = mat@;
        mat.set(at, i);
        assert forall|r: int| 0 <= r < i + 1 implies #[trigger] filled(mat@, a, b, m as int, r, 0) by {
            places_are_distinct(n as int, m as int, r, 0, i as int, 0);
            if r < i {
                assert(filled(before, a, b, m as int, r, 0));
            }
        }
    }

    for j in 1..m
        invariant
            n == a.len() + 1,
            m == b.len() + 1,
            n * m <= usize::MAX,
            mat.len() == n * m,
            forall|r: int| 0 <= r < n ==> #[trigger] filled(mat@, a, b, m as int, r, 0),
            forall|c: int| 0 <= c < j ==> #[trigger] filled(mat@, a, b, m as int, 0, c),
    {
        let at = cell_index(n, m, 0, j);
        let ghost before = mat@;
        mat.set(at, j);
        assert forall|r: int| 0 <= r < n implies #[trigger] filled(mat@, a, b, m as int, r, 0) by {
            places_are_distinct(n as int, m as int, r, 0, 0, j as int);
            assert(filled(before, a, b, m as int, r, 0));
        }
        assert forall|c: int| 0 <= c < j + 1 implies #[trigger] filled(mat@, a, b, m as int, 0, c) by {
            places_are_distinct(n as int, m as int, 0, c, 0, j as int);
            if c < j {
                assert(filled(before, a, b, m as int, 0, c));
            }
        }
    }

    for i in 1..n
        invariant
            n == a.len() + 1,
            m == b.len() + 1,
            a == search_chars@,
            b == known_chars@,
            n * m <= usize::MAX,
            mat.len() == n * m,
            forall|r: int| 0 <= r < n ==> #[trigger] filled(mat@, a, b, m as int, r, 0),
            forall|r: int, c: int|
                0 <= r < i && 0 <= c < m ==> #[trigger] filled(mat@, a, b, m as int, r, c),
    {
        for j in 1..m
            invariant
                1 <= i < n,
                n == a.len() + 1,
                m == b.len() + 1,
                a == search_chars@,
                b == known_chars@,
                n * m <= usize::MAX,
                mat.len() == n * m,
                forall|r: int| 0 <= r < n ==> #[trigger] filled(mat@, a, b, m as int, r, 0),
                forall|r: int, c: int|
                    0 <= r < i && 0 <= c < m ==> #[trigger] filled(mat@, a, b, m as int, r, c),
                forall|c: int| 0 <= c < j ==> #[trigger] filled(mat@, a, b, m as int, i as int, c),
        {
            let sub_cost: usize = if search_chars[i - 1] == known_chars[j - 1] {
                0
            } else {
                1
            };
            let diagonal = cell_index(n, m, i - 1, j - 1);
            let above = cell_index(n, m, i - 1, j);
            let left = cell_index(n, m, i, j - 1);
            let here = cell_index(n, m, i, j);
            proof {
                assert(filled(mat@, a, b, m as int, i - 1, j - 1));
                assert(filled(mat@, a, b, m as int, i - 1, j as int));
                assert(filled(mat@, a, b, m as int, i as int, j - 1));
                prefix_distance_at_most_longer(a, b, (i - 1) as nat, (j - 1) as nat);
                prefix_distance_at_most_longer(a, b, (i - 1) as nat, j as nat);
                prefix_distance_at_most_longer(a, b, i as nat, (j - 1) as nat);
            }
            let mut best: usize = smaller(
                mat[diagonal] + sub_cost,
                smaller(mat[above] + 1, mat[left] + 1),
            );
            if i > 1 && j > 1 && search_chars[i - 1] == known_chars[j - 2] && search_chars[i - 2]
                == known_chars[j - 1] {
                let across = cell_index(n, m, i - 2, j - 2);
                proof {
                    assert(filled(mat@, a, b, m as int, i - 2, j - 2));
                    prefix_distance_at_most_longer(a, b, (i - 2) as nat, (j - 2) as nat);
                }
                best = smaller(best, mat[across] + 1);
            }
            assert(best == prefix_distance(a, b, i as nat, j as nat));
            let ghost before = mat@;
            mat.set(here, best);
            assert forall|r: int| 0 <= r < n implies #[trigger] filled(mat@, a, b, m as int, r, 0) by {
                places_are_distinct(n as int, m as int, r, 0, i as int, j as int);
                assert(filled(before, a, b, m as int, r, 0));
            }
            assert forall|r: int, c: int| 0 <= r < i && 0 <= c < m implies #[trigger] filled(
                mat@,
                a,
                b,
                m as int,
                r,
                c,
            ) by {
                places_are_distinct(n as int, m as int, r, c, i as int, j as int);
                assert(filled(before, a, b, m as int, r, c));
            }
            assert forall|c: int| 0 <= c < j + 1 implies #[trigger] filled(
                mat@,
                a,
                b,
                m as int,
                i as int,
                c,
            ) by {
                places_are_distinct(n as int, m as int, i as int, c, i as int, j as int);
                if c < j {
                    assert(filled(before, a, b, m as int, i as int, c));
                }
            }
        }
    }

    let last = cell_index(n, m, n - 1, m - 1);
    assert(filled(mat@, a, b, m as int, n - 1, m - 1));
    mat[last]
}

} // verus!
