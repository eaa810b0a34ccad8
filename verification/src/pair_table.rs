//! A table of pair sums over all windows of a sequence, and the places in
//! it where the pairs of one window are found.

use crate::validator::{is_pair_for, is_safe};
use vstd::prelude::*;

verus! {

/// How many sums one window contributes: one for each position after its
/// first.
pub open spec fn step(size: int) -> nat {
    if size >= 1 {
        (size - 1) as nat
    } else {
        0
    }
}

/// How many windows of `size` numbers a sequence of `len` numbers has.
pub open spec fn window_count(len: int, size: int) -> nat {
    if len < size {
        0
    } else {
        (len - size + 1) as nat
    }
}

/// The row of the window that starts at `w`: its first number added to each
/// of its other numbers, in order.
pub open spec fn window_sums(xs: Seq<u128>, size: int, w: int) -> Seq<int> {
    Seq::new(step(size), |j: int| xs[w] + xs[w + 1 + j])
}

/// The rows of the first `n` windows, one after the other.
pub open spec fn sums_of_windows(xs: Seq<u128>, size: int, n: nat) -> Seq<int>
    decreases n,
{
    if n == 0 {
        Seq::empty()
    } else {
        sums_of_windows(xs, size, (n - 1) as nat) + window_sums(xs, size, n - 1)
    }
}

/// The whole table: the rows of all windows of `xs`.
pub open spec fn pair_sums(xs: Seq<u128>, size: int) -> Seq<int> {
    sums_of_windows(xs, size, window_count(xs.len() as int, size))
}

/// Where the table keeps the sum of the numbers at positions `p` and `q`,
/// `p` before `q`: in the row of the window that starts at `p`, at the place
/// of `q` among the positions after `p`.
pub open spec fn pair_index(size: int, p: int, q: int) -> int {
    p * step(size) + (q - p - 1)
}

/// Every sum of the table fits the number type.
pub open spec fn sums_fit(xs: Seq<u128>, size: int) -> bool {
    forall|p: int, q: int|
        0 <= p < q < p + size && p + size <= xs.len() ==> #[trigger] xs[p] + #[trigger] xs[q]
            <= u128::MAX
}

/// The numbers of `v` are those of `model`, in the same order.
pub open spec fn holds_sums(v: Seq<u128>, model: Seq<int>) -> bool {
    &&& v.len() == model.len()
    &&& forall|k: int| 0 <= k < v.len() ==> #[trigger] v[k] == model[k]
}

/// Calculates the table of pair sums of `xs` over windows of `size`
/// numbers: for each window, from the first to the last, the sums of its
/// first number with each of its other numbers.
///
/// So the table holds, for every position `p` that starts a window and
/// every later position `q` of that window, the sum of the two numbers at
/// `pair_index(size, p, q)`, and nothing else.
pub fn calculate_sums(xs: &Vec<u128>, size: usize) -> (sums: Vec<u128>)
    requires
        size >= 1,
        sums_fit(xs@, size as int),
    ensures
        holds_sums(sums@, pair_sums(xs@, size as int)),
        sums@.len() == window_count(xs.len() as int, size as int) * step(size as int),
        forall|p: int, q: int|
            0 <= p < q < p + size && p + size <= xs.len() ==> {
                &&& 0 <= #[trigger] pair_index(size as int, p, q) < sums@.len()
                &&& sums@[pair_index(size as int, p, q)] == xs@[p] + xs@[q]
            },
{
    let mut sums: Vec<u128> = Vec::new();
    proof {
        lemma_sums_of_windows_len(xs@, size as int, window_count(xs.len() as int, size as int));
        assert forall|p: int, q: int| 0 <= p < q < p + size && p + size <= xs.len() implies {
            &&& 0 <= #[trigger] pair_index(size as int, p, q) < pair_sums(xs@, size as int).len()
            &&& pair_sums(xs@, size as int)[pair_index(size as int, p, q)] == xs@[p] + xs@[q]
        } by {
            lemma_pair_sum_at(xs@, size as int, p, q);
        }
    }
    if xs.len() < size {
        return sums;
    }
    let count: usize = xs.len() - size + 1;
    let mut w: usize = 0;
    while w < count
        invariant
            1 <= size <= xs.len(),
            count == xs.len() - size + 1,
            w <= count,
            sums_fit(xs@, size as int),
            holds_sums(sums@, sums_of_windows(xs@, size as int, w as nat)),
        decreases count - w,
    {
        let first: u128 = xs[w];
        let ghost done = sums_of_windows(xs@, size as int, w as nat);
        let ghost row = window_sums(xs@, size as int, w as int);
        let mut j: usize = 1;
        while j < size
            invariant
                1 <= j <= size <= xs.len(),
                w + size <= xs.len(),
                first == xs@[w as int],
                sums_fit(xs@, size as int),
                row == window_sums(xs@, size as int, w as int),
                holds_sums(sums@, done + row.take(j - 1)),
            decreases size - j,
        {
            let other: u128 = xs[w + j];
            assert(first + other <= u128::MAX) by {
                assert(xs@[w as int] + xs@[w + j] <= u128::MAX);
            }
            sums.push(first + other);
            assert(row.take(j as int) =~= row.take(j - 1).push(row[j - 1]));
            assert(done + row.take(j as int) =~= (done + row.take(j - 1)).push(row[j - 1]));
            j += 1;
        }
        assert(row.take(size - 1) =~= row);
        w += 1;
    }
    sums
}

/// The table indexes of the pairs made of position `p` and each later
/// position of the window that starts at `n`.
pub open spec fn row_indexes(size: int, n: int, p: int) -> Seq<int> {
    Seq::new((n + size - 1 - p) as nat, |j: int| pair_index(size, p, p + 1 + j))
}

/// The table indexes of the pairs whose first position is one of the first
/// `rows` positions of the window that starts at `n`.
pub open spec fn indexes_of_rows(size: int, n: int, rows: nat) -> Seq<int>
    decreases rows,
{
    if rows == 0 {
        Seq::empty()
    } else {
        indexes_of_rows(size, n, (rows - 1) as nat) + row_indexes(size, n, n + rows - 1)
    }
}

/// The table indexes of all pairs of two positions of the window that
/// starts at `n`, ordered by the first position, then by the second.
pub open spec fn window_pair_indexes(size: int, n: int) -> Seq<int> {
    indexes_of_rows(size, n, step(size))
}

/// The largest index that the window starting at `n` reaches in the table.
pub open spec fn last_pair_index(size: int, n: int) -> int {
    pair_index(size, n + size - 2, n + size - 1)
}

/// The numbers of `v` are those of `model`, in the same order.
pub open spec fn holds_indexes(v: Seq<usize>, model: Seq<int>) -> bool {
    &&& v.len() == model.len()
    &&& forall|k: int| 0 <= k < v.len() ==> #[trigger] v[k] == model[k]
}

/// Returns the indexes, in the table of pair sums for windows of `size`
/// numbers, of the sums of every two numbers of the window that starts at
/// position `n`.
pub fn get_indexes(size: usize, n: usize) -> (indexes: Vec<usize>)
    requires
        size >= 1,
        size >= 2 ==> last_pair_index(size as int, n as int) <= usize::MAX,
    ensures
        holds_indexes(indexes@, window_pair_indexes(size as int, n as int)),
        2 * indexes@.len() == size * (size - 1),
{
    let mut indexes: Vec<usize> = Vec::new();
    let step: usize = size - 1;
    if step == 0 {
        return indexes;
    }
    assert(n * step <= usize::MAX) by (nonlinear_arith)
        requires
            step >= 1,
            (n + step - 1) * step <= usize::MAX,
    ;
    let offset: usize = n * step;
    let mut i: usize = 0;
    while i < step
        invariant
            step == size - 1,
            1 <= step,
            i <= step,
            offset == n * step,
            (n + step - 1) * step <= usize::MAX,
            holds_indexes(indexes@, indexes_of_rows(size as int, n as int, i as nat)),
        decreases step - i,
    {
        let ghost done = indexes_of_rows(size as int, n as int, i as nat);
        let ghost row = row_indexes(size as int, n as int, n + i);
        assert(offset + i * step == (n + i) * step && (n + i) * step + (step - i) <= (n + step - 1)
            * step + 1) by (nonlinear_arith)
            requires
                offset == n * step,
                i < step,
        ;
        let mut j: usize = 0;
        while j < step - i
            invariant
                step == size - 1,
                i < step,
                j <= step - i,
                offset == n * step,
                offset + i * step == (n + i) * step,
                (n + i) * step + (step - i) <= usize::MAX + 1,
                row == row_indexes(size as int, n as int, n + i),
                holds_indexes(indexes@, done + row.take(j as int)),
            decreases step - i - j,
        {
            indexes.push(offset + i * step + j);
            assert(row.take(j + 1) =~= row.take(j as int).push(row[j as int]));
            assert(done + row.take(j + 1) =~= (done + row.take(j as int)).push(row[j as int]));
            j += 1;
        }
        assert(row.take(step - i) =~= row);
        i += 1;
    }
    proof {
        lemma_indexes_of_rows_len(size as int, n as int, step as nat);
        assert(step * (2 * step - step + 1) == size * (size - 1)) by (nonlinear_arith)
            requires
                step == size - 1,
        ;
    }
    indexes
}

/// The rows of `n` windows hold `n` times the sums of one window.
pub proof fn lemma_sums_of_windows_len(xs: Seq<u128>, size: int, n: nat)
    ensures
        sums_of_windows(xs, size, n).len() == n * step(size),
    decreases n,
{
    if n > 0 {
        lemma_sums_of_windows_len(xs, size, (n - 1) as nat);
        assert((n - 1) * step(size) + step(size) == n * step(size)) by (nonlinear_arith);
    } else {
        assert(n * step(size) == 0) by (nonlinear_arith)
            requires
                n == 0,
        ;
    }
}

/// In the rows of `n` windows, the sum of the first number of window `w`
/// with the number `j + 1` places after it stands at `w * step(size) + j`.
proof fn lemma_sums_of_windows_index(xs: Seq<u128>, size: int, n: nat, w: int, j: int)
    requires
        0 <= w < n,
        0 <= j < step(size),
    ensures
        0 <= w * step(size) + j < sums_of_windows(xs, size, n).len(),
        sums_of_windows(xs, size, n)[w * step(size) + j] == xs[w] + xs[w + 1 + j],
    decreases n,
{
    let before = sums_of_windows(xs, size, (n - 1) as nat);
    let row = window_sums(xs, size, n - 1);
    lemma_sums_of_windows_len(xs, size, (n - 1) as nat);
    lemma_sums_of_windows_len(xs, size, n);
    assert(0 <= w * step(size)) by (nonlinear_arith)
        requires
            0 <= w,
    ;
    if w == n - 1 {
        assert((before + row)[before.len() + j] == row[j]);
    } else {
        lemma_sums_of_windows_index(xs, size, (n - 1) as nat, w, j);
        assert((before + row)[w * step(size) + j] == before[w * step(size) + j]);
    }
}

/// The table holds the sum of the numbers at `p` and `q` at
/// `pair_index(size, p, q)`, for every `p` that starts a window and every
/// later `q` of that window.
pub proof fn lemma_pair_sum_at(xs: Seq<u128>, size: int, p: int, q: int)
    requires
        0 <= p < q < p + size,
        p + size <= xs.len(),
    ensures
        0 <= pair_index(size, p, q) < pair_sums(xs, size).len(),
        pair_sums(xs, size)[pair_index(size, p, q)] == xs[p] + xs[q],
{
    lemma_sums_of_windows_index(xs, size, window_count(xs.len() as int, size), p, q - p - 1);
}

/// The list for `rows` first positions holds one index for each pair: the
/// first position pairs with every other position of the window, the next
/// with one fewer, and so on.
pub proof fn lemma_indexes_of_rows_len(size: int, n: int, rows: nat)
    requires
        rows <= step(size),
    ensures
        2 * indexes_of_rows(size, n, rows).len() == rows * (2 * step(size) - rows + 1),
    decreases rows,
{
    if rows > 0 {
        lemma_indexes_of_rows_len(size, n, (rows - 1) as nat);
        assert((rows - 1) * (2 * step(size) - (rows - 1) + 1) + 2 * (step(size) - (rows - 1))
            == rows * (2 * step(size) - rows + 1)) by (nonlinear_arith);
    } else {
        assert(rows * (2 * step(size) - rows + 1) == 0) by (nonlinear_arith)
            requires
                rows == 0,
        ;
    }
}

/// Every index listed for the first `rows` first positions belongs to a
/// pair of the window; the pair is returned.
proof fn lemma_row_index_is_of_a_pair(size: int, n: int, rows: nat, k: int) -> (pair: (int, int))
    requires
        rows <= step(size),
        0 <= k < indexes_of_rows(size, n, rows).len(),
    ensures
        n <= pair.0 < n + rows,
        pair.0 < pair.1 < n + size,
        indexes_of_rows(size, n, rows)[k] == pair_index(size, pair.0, pair.1),
    decreases rows,
{
    let before = indexes_of_rows(size, n, (rows - 1) as nat);
    let row = row_indexes(size, n, n + rows - 1);
    if k < before.len() {
        lemma_row_index_is_of_a_pair(size, n, (rows - 1) as nat, k)
    } else {
        let j = k - before.len();
        assert((before + row)[k] == row[j]);
        (n + rows - 1, n + rows + j)
    }
}

/// Every pair whose first position is among the first `rows` positions of
/// the window has its index listed; the place in the list is returned.
proof fn lemma_row_pair_has_index(size: int, n: int, rows: nat, p: int, q: int) -> (k: int)
    requires
        rows <= step(size),
        n <= p < n + rows,
        p < q < n + size,
    ensures
        0 <= k < indexes_of_rows(size, n, rows).len(),
        indexes_of_rows(size, n, rows)[k] == pair_index(size, p, q),
    decreases rows,
{
    let before = indexes_of_rows(size, n, (rows - 1) as nat);
    let row = row_indexes(size, n, n + rows - 1);
    if p == n + rows - 1 {
        let j = q - p - 1;
        assert((before + row)[before.len() + j] == row[j]);
        before.len() + j
    } else {
        let k = lemma_row_pair_has_index(size, n, (rows - 1) as nat, p, q);
        assert((before + row)[k] == before[k]);
        k
    }
}

/// Every listed index is the table index of two positions of the window
/// that starts at `n`, the first before the second; the two are returned.
pub proof fn lemma_index_is_of_a_pair(size: int, n: int, k: int) -> (pair: (int, int))
    requires
        0 <= k < window_pair_indexes(size, n).len(),
    ensures
        n <= pair.0 < pair.1 < n + size,
        window_pair_indexes(size, n)[k] == pair_index(size, pair.0, pair.1),
{
    lemma_row_index_is_of_a_pair(size, n, step(size), k)
}

/// Every two positions of the window that starts at `n`, the first before
/// the second, have their table index listed; its place in the list is
/// returned.
pub proof fn lemma_pair_has_index(size: int, n: int, p: int, q: int) -> (k: int)
    requires
        n <= p < q < n + size,
    ensures
        0 <= k < window_pair_indexes(size, n).len(),
        window_pair_indexes(size, n)[k] == pair_index(size, p, q),
{
    lemma_row_pair_has_index(size, n, step(size), p, q)
}

/// The sequence followed by as many zeros as one window contributes sums,
/// so that every position of the sequence starts a window.
pub open spec fn padded(cave: Seq<u128>, size: int) -> Seq<u128> {
    cave + Seq::new(step(size), |k: int| 0u128)
}

/// One of the listed places of the table holds `value`.
pub open spec fn found_in_table(table: Seq<int>, indexes: Seq<int>, value: u128) -> bool {
    exists|k: int| 0 <= k < indexes.len() && table[#[trigger] indexes[k]] == value
}

/// Looking a number up in the table decides whether it is safe: the number
/// right after the window that starts at `n` is safe exactly when the table
/// of the padded sequence holds it at one of the indexes of that window.
/// All of these indexes lie inside the table.
pub proof fn lemma_lookup_decides_safety(cave: Seq<u128>, size: int, n: int)
    requires
        size >= 1,
        0 <= n,
        n + size < cave.len(),
    ensures
        forall|k: int|
            0 <= k < window_pair_indexes(size, n).len() ==> 0 <= #[trigger] window_pair_indexes(
                size,
                n,
            )[k] < pair_sums(padded(cave, size), size).len(),
        is_safe(cave, size, n + size) <==> found_in_table(
            pair_sums(padded(cave, size), size),
            window_pair_indexes(size, n),
            cave[n + size],
        ),
{
    let data = padded(cave, size);
    let table = pair_sums(data, size);
    let indexes = window_pair_indexes(size, n);
    let i = n + size;
    assert forall|k: int| 0 <= k < indexes.len() implies 0 <= #[trigger] indexes[k]
        < table.len() by {
        let (p, q) = lemma_index_is_of_a_pair(size, n, k);
        lemma_pair_sum_at(data, size, p, q);
    }
    if is_safe(cave, size, i) {
        let (a, b) = choose|a: int, b: int| is_pair_for(cave, size, i, a, b);
        let (p, q) = if a < b {
            (a, b)
        } else {
            (b, a)
        };
        let k = lemma_pair_has_index(size, n, p, q);
        lemma_pair_sum_at(data, size, p, q);
        assert(table[indexes[k]] == cave[i]);
    }
    if found_in_table(table, indexes, cave[i]) {
        let k = choose|k: int| 0 <= k < indexes.len() && table[#[trigger] indexes[k]] == cave[i];
        let (p, q) = lemma_index_is_of_a_pair(size, n, k);
        lemma_pair_sum_at(data, size, p, q);
        assert(is_pair_for(cave, size, i, p, q));
    }
}

} // verus!
