//! Plot file layouts. An unoptimized file holds whole plots one after the
//! other; an optimized file holds, for each 32-byte scoop position, that scoop
//! of every plot in nonce order. Both are sequences of 32-byte chunks, and
//! optimizing is a transposition of the chunk grid.

use vstd::prelude::*;
use vstd::arithmetic::div_mod::lemma_fundamental_div_mod_converse;
use crate::pochash::{poc_plot, poc_seed};

verus! {

/// Length of one scoop.
pub const SCOOP_SIZE: usize = 32;
/// Scoops in one plot (`pochash::PLOT_LENGTH / SCOOP_SIZE`).
pub const SCOOPS_PER_PLOT: usize = 16384;

/// For a grid of `rows` rows of `cols` chunks stored row by row, the chunk that
/// lands at position `c` when the grid is stored column by column.
pub open spec fn transpose_source(rows: nat, cols: nat, c: nat) -> nat {
    (c % rows) * cols + c / rows
}

/// The chunk grid of `data` (`rows` rows of `cols` 32-byte chunks) stored column by column.
pub open spec fn transposed(data: Seq<u8>, rows: nat, cols: nat) -> Seq<u8> {
    Seq::new(
        rows * cols * 32,
        |i: int| data[transpose_source(rows, cols, (i / 32) as nat) * 32 + i % 32],
    )
}

/// The optimized layout of `nonce_count` consecutive plots.
pub open spec fn optimized(unoptimized: Seq<u8>, nonce_count: nat) -> Seq<u8> {
    transposed(unoptimized, nonce_count, 16384)
}

/// Transposing moves bytes and changes none: transposing a grid of `rows` rows
/// of `cols` chunks, then the result as a grid of `cols` rows of `rows` chunks,
/// gives back the bytes it started from.
pub proof fn lemma_transpose_inverse(data: Seq<u8>, rows: nat, cols: nat)
    requires
        data.len() == rows * cols * 32,
    ensures
        transposed(transposed(data, rows, cols), cols, rows) == data,
{
    let once = transposed(data, rows, cols);
    let twice = transposed(once, cols, rows);
    assert(cols * rows * 32 == rows * cols * 32) by (nonlinear_arith);
    assert forall|i: int| 0 <= i < data.len() implies #[trigger] twice[i] == data[i] by {
        let r = rows as int;
        let c = cols as int;
        let x = i / 32;
        let k = i % 32;
        assert(0 <= x < r * c && 0 <= k < 32 && i == x * 32 + k) by (nonlinear_arith)
            requires
                0 <= i < r * c * 32,
                x == i / 32,
                k == i % 32,
        ;
        assert(r > 0 && c > 0) by (nonlinear_arith)
            requires
                0 <= x < r * c,
                r >= 0,
                c >= 0,
        ;
        let q = x / c;
        let m = x % c;
        assert(0 <= q < r && 0 <= m < c && x == q * c + m) by (nonlinear_arith)
            requires
                0 <= x < r * c,
                c > 0,
                q == x / c,
                m == x % c,
        ;
        let y = m * r + q;
        assert(transpose_source(cols, rows, x as nat) == y);
        assert(0 <= y < r * c) by (nonlinear_arith)
            requires
                0 <= m < c,
                0 <= q < r,
                y == m * r + q,
        ;
        let j = y * 32 + k;
        assert(0 <= j < r * c * 32) by (nonlinear_arith)
            requires
                0 <= y < r * c,
                0 <= k < 32,
                j == y * 32 + k,
        ;
        lemma_div_mod_of(j, 32, y, k);
        lemma_div_mod_of(y, r, m, q);
        assert(transpose_source(rows, cols, y as nat) == x);
        assert(once[j] == data[x * 32 + k]);
    }
    assert(twice =~= data);
}

/// Where chunk `n * cols + j` of a transposed grid lands: position `j * rows + n`.
pub proof fn lemma_transpose_position(rows: nat, cols: nat, n: nat, j: nat)
    requires
        n < rows,
        j < cols,
    ensures
        transpose_source(rows, cols, j * rows + n) == n * cols + j,
        j * rows + n < rows * cols,
        n * cols + j < rows * cols,
{
    lemma_fundamental_div_mod_converse((j * rows + n) as int, rows as int, j as int, n as int);
    assert(j * rows + n < rows * cols) by (nonlinear_arith)
        requires
            n < rows,
            j < cols,
    ;
    assert(n * cols + j < rows * cols) by (nonlinear_arith)
        requires
            n < rows,
            j < cols,
    ;
}

/// Stores the chunk grid of `raw` (`rows` rows of `cols` 32-byte chunks, row by
/// row) column by column.
pub fn transpose_block(raw: &[u8], rows: usize, cols: usize) -> (out: Vec<u8>)
    requires
        raw@.len() == rows * cols * 32,
    ensures
        out@ == transposed(raw@, rows as nat, cols as nat),
        out@.len() == raw@.len(),
        forall|i: int|
            0 <= i < out@.len() ==> #[trigger] out@[i] == raw@[((i / 32) % (rows as int)) * cols * 32 + (
            (i / 32) / (rows as int)) * 32 + i % 32],
{
    let mut out: Vec<u8> = Vec::new();
    let len = raw.len();
    let ghost expected = transposed(raw@, rows as nat, cols as nat);
    let mut j: usize = 0;
    while j < cols
        invariant
            raw@.len() == rows * cols * 32,
            raw@.len() <= usize::MAX,
            expected == transposed(raw@, rows as nat, cols as nat),
            j <= cols,
            out@.len() == j * rows * 32,
            forall|i: int| 0 <= i < out@.len() ==> out@[i] == #[trigger] expected[i],
        decreases cols - j,
    {
        let mut n: usize = 0;
        while n < rows
            invariant
                raw@.len() == rows * cols * 32,
                raw@.len() <= usize::MAX,
                expected == transposed(raw@, rows as nat, cols as nat),
                j < cols,
                n <= rows,
                out@.len() == (j * rows + n) * 32,
                forall|i: int| 0 <= i < out@.len() ==> out@[i] == #[trigger] expected[i],
            decreases rows - n,
        {
            proof {
                lemma_transpose_position(rows as nat, cols as nat, n as nat, j as nat);
                assert((n * cols + j) * 32 + 32 <= rows * cols * 32) by (nonlinear_arith)
                    requires
                        n * cols + j < rows * cols,
                ;
            }
            let start = (n * cols + j) * SCOOP_SIZE;
            let mut k: usize = 0;
            while k < SCOOP_SIZE
                invariant
                    raw@.len() == rows * cols * 32,
                    raw@.len() <= usize::MAX,
                    expected == transposed(raw@, rows as nat, cols as nat),
                    j < cols,
                    n < rows,
                    k <= 32,
                    start == (n * cols + j) * 32,
                    start + 32 <= raw@.len(),
                    transpose_source(rows as nat, cols as nat, (j * rows + n) as nat) == n * cols + j,
                    j * rows + n < rows * cols,
                    out@.len() == (j * rows + n) * 32 + k,
                    forall|i: int| 0 <= i < out@.len() ==> out@[i] == #[trigger] expected[i],
                decreases 32 - k,
            {
                let ghost i = (j * rows + n) * 32 + k;
                assert(i / 32 == j * rows + n && i % 32 == k) by (nonlinear_arith)
                    requires
                        i == (j * rows + n) * 32 + k,
                        k < 32,
                ;
                assert(i < rows * cols * 32) by (nonlinear_arith)
                    requires
                        i == (j * rows + n) * 32 + k,
                        k < 32,
                        j * rows + n < rows * cols,
                ;
                out.push(raw[start + k]);
                assert(out@[i] == expected[i]);
                k = k + 1;
            }
            n = n + 1;
        }
        assert((j * rows + rows) * 32 == (j + 1) * rows * 32) by (nonlinear_arith);
        j = j + 1;
    }
    assert(cols * rows * 32 == rows * cols * 32) by (nonlinear_arith);
    assert(out@ =~= expected);
    out
}

/// The bytes read for block `b` when an unoptimized file of `nonce_count` plots is
/// converted `cols` scoops at a time: scoops `b * cols .. (b + 1) * cols` of
/// each plot, plot after plot.
pub open spec fn block_reads(unoptimized: Seq<u8>, nonce_count: nat, cols: nat, b: nat) -> Seq<u8> {
    Seq::new(
        nonce_count * cols * 32,
        |i: int|
            unoptimized[((i / 32) / (cols as int) * 16384 + b * cols + (i / 32) % (cols as int)) * 32 + i % 32],
    )
}

/// Where plot `nonce`'s part of block `block` starts in the unoptimized file,
/// when blocks are `split` scoops wide.
pub fn block_read_offset(block: u64, split: u64, nonce: u64) -> (offset: u64)
    requires
        (block + 1) * split <= 16384,
        nonce < 0x1_0000_0000,
    ensures
        offset == nonce * 524288 + block * split * 32,
{
    assert(block * split <= 16384) by (nonlinear_arith)
        requires
            (block + 1) * split <= 16384,
    ;
    nonce * 524288 + block * split * 32
}

/// `x == q * d + r` with `0 <= r < d` fixes the quotient and remainder.
proof fn lemma_div_mod_of(x: int, d: int, q: int, r: int)
    requires
        0 < d,
        0 <= r < d,
        x == q * d + r,
    ensures
        x / d == q,
        x % d == r,
{
    lemma_fundamental_div_mod_converse(x, d, q, r);
}

/// Converting block by block gives the optimized file: the transposed reads of
/// block `b` are the bytes of the optimized layout at `b * nonce_count * cols * 32`.
pub proof fn lemma_blockwise_optimization(unoptimized: Seq<u8>, nonce_count: nat, cols: nat, b: nat)
    requires
        cols > 0,
        (b + 1) * cols <= 16384,
        unoptimized.len() == nonce_count * 16384 * 32,
    ensures
        forall|i: int|
            0 <= i < nonce_count * cols * 32 ==> #[trigger] transposed(
                block_reads(unoptimized, nonce_count, cols, b),
                nonce_count,
                cols,
            )[i] == optimized(unoptimized, nonce_count)[b * nonce_count * cols * 32 + i],
{
    let raw = block_reads(unoptimized, nonce_count, cols, b);
    assert forall|i: int| 0 <= i < nonce_count * cols * 32 implies #[trigger] transposed(
        raw,
        nonce_count,
        cols,
    )[i] == optimized(unoptimized, nonce_count)[b * nonce_count * cols * 32 + i] by {
        let n_count = nonce_count as int;
        let s = cols as int;
        let c = i / 32;
        let k = i % 32;
        assert(0 <= c < n_count * s && 0 <= k < 32 && i == c * 32 + k) by (nonlinear_arith)
            requires
                0 <= i < n_count * s * 32,
                c == i / 32,
                k == i % 32,
        ;
        assert(n_count > 0) by (nonlinear_arith)
            requires
                0 <= c < n_count * s,
                s > 0,
        ;
        let n = c % n_count;
        let q = c / n_count;
        assert(0 <= n < n_count && 0 <= q < s && c == q * n_count + n) by (nonlinear_arith)
            requires
                0 <= c < n_count * s,
                n_count > 0,
                n == c % n_count,
                q == c / n_count,
        ;
        // the left side: chunk `n * s + q` of the reads
        let rc = n * s + q;
        assert(transpose_source(nonce_count, cols, c as nat) == rc);
        assert(0 <= rc < n_count * s) by (nonlinear_arith)
            requires
                0 <= n < n_count,
                0 <= q < s,
                rc == n * s + q,
        ;
        let ri = rc * 32 + k;
        assert(0 <= ri < n_count * s * 32) by (nonlinear_arith)
            requires
                0 <= rc < n_count * s,
                0 <= k < 32,
                ri == rc * 32 + k,
        ;
        lemma_div_mod_of(ri, 32, rc, k);
        lemma_div_mod_of(rc, s, n, q);
        let src = (n * 16384 + b * s + q) * 32 + k;
        assert(raw[ri] == unoptimized[src]);
        // the right side: position `b * n_count * s * 32 + i` of the optimized layout
        let oi = b * n_count * s * 32 + i;
        let oc = b * n_count * s + c;
        assert(oi == oc * 32 + k) by (nonlinear_arith)
            requires
                oi == b * n_count * s * 32 + i,
                oc == b * n_count * s + c,
                i == c * 32 + k,
        ;
        assert(b * n_count * s + n_count * s == ((b + 1) * s) * n_count) by (nonlinear_arith);
        assert(((b + 1) * s) * n_count <= 16384 * n_count) by (nonlinear_arith)
            requires
                (b + 1) * s <= 16384,
                n_count > 0,
        ;
        assert(0 <= b * n_count * s) by (nonlinear_arith)
            requires
                b >= 0,
                n_count > 0,
                s > 0,
        ;
        assert(0 <= oi < n_count * 16384 * 32) by (nonlinear_arith)
            requires
                0 <= oc < n_count * 16384,
                oi == oc * 32 + k,
                0 <= k < 32,
        ;
        lemma_div_mod_of(oi, 32, oc, k);
        assert(oc == (b * s + q) * n_count + n) by (nonlinear_arith)
            requires
                oc == b * n_count * s + c,
                c == q * n_count + n,
        ;
        lemma_div_mod_of(oc, n_count, b * s + q, n);
        assert(transpose_source(nonce_count, 16384, oc as nat) == n * 16384 + b * s + q);
    }
}

/// The file joined from `parts`, optimized files of `length` plots each: for
/// each scoop position, that position's `length` scoops from each part in turn.
pub open spec fn joined(parts: Seq<Seq<u8>>, length: nat) -> Seq<u8> {
    Seq::new(
        parts.len() * length * 16384 * 32,
        |i: int|
            {
                let m = (parts.len() * length) as int;
                let c = i / 32;
                let r = c % m;
                parts[r / (length as int)][((c / m) * length + r % (length as int)) * 32 + i % 32]
            },
    )
}

/// Where the scoops of position `scope` start in an optimized file of `length` plots.
pub fn joined_read_offset(length: usize, scope: usize) -> (offset: u64)
    requires
        length * 32 <= usize::MAX,
        length * 32 * scope <= usize::MAX,
    ensures
        offset == length * 32 * scope,
{
    (length * 32 * scope) as u64
}

/// Step `step` of joining `file_count` optimized files of `length` plots: the
/// file to copy from (the files take turns) and where its `length * 32` bytes
/// start (the scope advances after each round of files).
pub fn join_copy_source(length: usize, file_count: usize, step: usize) -> (source: (usize, u64))
    requires
        file_count > 0,
        length * 32 <= usize::MAX,
        length * 32 * (step / file_count) <= usize::MAX,
    ensures
        source.0 == step % file_count,
        source.1 == length * 32 * (step / file_count),
{
    let scope = step / file_count;
    (step % file_count, joined_read_offset(length, scope))
}

/// Copying `length * 32` bytes at each step as `join_copy_source` says writes
/// the joined file: the bytes of step `t` are those of the joined file at
/// `t * length * 32`.
pub proof fn lemma_join_copy_steps(parts: Seq<Seq<u8>>, length: nat, t: int, k: int)
    requires
        length > 0,
        parts.len() > 0,
        0 <= t < 16384 * parts.len(),
        0 <= k < length * 32,
    ensures
        joined(parts, length)[t * length * 32 + k] == parts[t % (parts.len() as int)][(t / (
        parts.len() as int)) * length * 32 + k],
{
    let m = parts.len() as int;
    let l = length as int;
    let total = m * l;
    let i = t * l * 32 + k;
    let q = k / 32;
    let b = k % 32;
    assert(0 <= q < l && 0 <= b < 32 && k == q * 32 + b) by (nonlinear_arith)
        requires
            0 <= k < l * 32,
            q == k / 32,
            b == k % 32,
    ;
    let c = t * l + q;
    assert(i == c * 32 + b) by (nonlinear_arith)
        requires
            i == t * l * 32 + k,
            k == q * 32 + b,
            c == t * l + q,
    ;
    assert(0 <= c < total * 16384) by (nonlinear_arith)
        requires
            0 <= t < 16384 * m,
            0 <= q < l,
            c == t * l + q,
            total == m * l,
    ;
    assert(0 <= i < parts.len() * length * 16384 * 32) by (nonlinear_arith)
        requires
            0 <= c < total * 16384,
            i == c * 32 + b,
            0 <= b < 32,
            total == m * l,
            m == parts.len(),
            l == length,
    ;
    lemma_div_mod_of(i, 32, c, b);
    let s_ = t / m;
    let f = t % m;
    assert(0 <= f < m && t == s_ * m + f) by (nonlinear_arith)
        requires
            m > 0,
            0 <= t,
            s_ == t / m,
            f == t % m,
    ;
    assert(total > 0) by (nonlinear_arith)
        requires
            m > 0,
            l > 0,
            total == m * l,
    ;
    assert(c == s_ * total + (f * l + q)) by (nonlinear_arith)
        requires
            c == t * l + q,
            t == s_ * m + f,
            total == m * l,
    ;
    assert(0 <= f * l + q < total) by (nonlinear_arith)
        requires
            0 <= f < m,
            0 <= q < l,
            total == m * l,
    ;
    lemma_div_mod_of(c, total, s_, f * l + q);
    lemma_div_mod_of(f * l + q, l, f, q);
    assert((s_ * l + q) * 32 + b == s_ * l * 32 + k) by (nonlinear_arith)
        requires
            k == q * 32 + b,
    ;
}

/// Joining the optimized files of consecutive runs of `length` plots gives the
/// optimized file of all the plots.
pub proof fn lemma_join_optimized(unoptimized: Seq<u8>, parts: Seq<Seq<u8>>, length: nat)
    requires
        length > 0,
        unoptimized.len() == parts.len() * length * 524288,
        forall|f: int|
            0 <= f < parts.len() ==> #[trigger] parts[f] == optimized(
                unoptimized.subrange(f * length * 524288, (f + 1) * length * 524288),
                length,
            ),
    ensures
        joined(parts, length) == optimized(unoptimized, parts.len() * length),
{
    let whole = optimized(unoptimized, parts.len() * length);
    let m = parts.len() as int;
    let l = length as int;
    let total = m * l;
    assert(parts.len() * length * 16384 * 32 == total * 16384 * 32);
    assert forall|i: int| 0 <= i < total * 16384 * 32 implies #[trigger] joined(parts, length)[i]
        == whole[i] by {
        let c = i / 32;
        let k = i % 32;
        assert(0 <= c < total * 16384 && 0 <= k < 32 && i == c * 32 + k) by (nonlinear_arith)
            requires
                0 <= i < total * 16384 * 32,
                c == i / 32,
                k == i % 32,
        ;
        assert(total > 0) by (nonlinear_arith)
            requires
                0 <= c < total * 16384,
        ;
        let s = c / total;
        let r = c % total;
        assert(0 <= s < 16384 && 0 <= r < total && c == s * total + r) by (nonlinear_arith)
            requires
                0 <= c < total * 16384,
                total > 0,
                s == c / total,
                r == c % total,
        ;
        let f = r / l;
        let t = r % l;
        assert(0 <= f < m && 0 <= t < l && r == f * l + t) by (nonlinear_arith)
            requires
                0 <= r < total,
                total == m * l,
                l > 0,
                f == r / l,
                t == r % l,
        ;
        // the joined side
        let part = parts[f];
        let sub = unoptimized.subrange(f * l * 524288, (f + 1) * l * 524288);
        assert(0 <= f * l * 524288 && (f + 1) * l * 524288 <= unoptimized.len()) by (nonlinear_arith)
            requires
                0 <= f < m,
                l > 0,
                unoptimized.len() == m * l * 524288,
        ;
        assert((f + 1) * l * 524288 - f * l * 524288 == l * 16384 * 32) by (nonlinear_arith);
        assert(sub.len() == l * 16384 * 32);
        let pc = s * l + t;
        let pi = pc * 32 + k;
        assert(0 <= pc < l * 16384) by (nonlinear_arith)
            requires
                0 <= s < 16384,
                0 <= t < l,
                pc == s * l + t,
        ;
        assert(0 <= pi < l * 16384 * 32) by (nonlinear_arith)
            requires
                0 <= pc < l * 16384,
                0 <= k < 32,
                pi == pc * 32 + k,
        ;
        lemma_div_mod_of(pi, 32, pc, k);
        lemma_div_mod_of(pc, l, s, t);
        assert(transpose_source(length, 16384, pc as nat) == t * 16384 + s);
        let si = (t * 16384 + s) * 32 + k;
        assert(0 <= si < l * 16384 * 32) by (nonlinear_arith)
            requires
                0 <= t < l,
                0 <= s < 16384,
                0 <= k < 32,
                si == (t * 16384 + s) * 32 + k,
        ;
        assert(part[pi] == sub[si]);
        assert(sub[si] == unoptimized[f * l * 524288 + si]);
        assert(joined(parts, length)[i] == part[pi]);
        // the whole side
        lemma_div_mod_of(c, total, s, r);
        assert(transpose_source(total as nat, 16384, c as nat) == r * 16384 + s);
        assert((r * 16384 + s) * 32 + k == f * l * 524288 + si) by (nonlinear_arith)
            requires
                r == f * l + t,
                si == (t * 16384 + s) * 32 + k,
        ;
        assert(whole[i] == unoptimized[(r * 16384 + s) * 32 + k]);
    }
    assert(joined(parts, length) =~= whole);
}

/// The unoptimized file of the plots of `ver_identifier` for nonces
/// `start .. start + count`, one after the other.
pub open spec fn plot_run(ver_identifier: Seq<u8>, start: nat, count: nat) -> Seq<u8> {
    Seq::new(
        count * 524288,
        |i: int| poc_plot(poc_seed(ver_identifier, (start + i / 524288) as u32))[i % 524288],
    )
}

/// A run of plots split into consecutive runs of `length` plots.
pub proof fn lemma_plot_run_split(ver_identifier: Seq<u8>, start: nat, m: nat, length: nat, f: nat)
    requires
        f < m,
    ensures
        plot_run(ver_identifier, start, m * length).subrange(
            (f * length * 524288) as int,
            ((f + 1) * length * 524288) as int,
        ) == plot_run(ver_identifier, start + f * length, length),
{
    let whole = plot_run(ver_identifier, start, m * length);
    let lo = f * length * 524288;
    assert((f + 1) * length * 524288 <= m * length * 524288) by (nonlinear_arith)
        requires
            f < m,
    ;
    assert((f + 1) * length * 524288 - lo == length * 524288) by (nonlinear_arith)
        requires
            lo == f * length * 524288,
    ;
    let sub = whole.subrange(lo as int, ((f + 1) * length * 524288) as int);
    let part = plot_run(ver_identifier, start + f * length, length);
    assert forall|j: int| 0 <= j < length * 524288 implies #[trigger] sub[j] == part[j] by {
        let q = j / 524288;
        let r = j % 524288;
        assert(j == q * 524288 + r && 0 <= r < 524288) by (nonlinear_arith)
            requires
                0 <= j,
                q == j / 524288,
                r == j % 524288,
        ;
        assert(lo + j == (f * length + q) * 524288 + r) by (nonlinear_arith)
            requires
                lo == f * length * 524288,
                j == q * 524288 + r,
        ;
        lemma_div_mod_of(lo + j, 524288, f * length + q, r);
    }
    assert(sub =~= part);
}

/// Joining the optimized files of the plots of consecutive nonce runs
/// `start + f * length .. start + (f + 1) * length` gives the optimized file of
/// the plots of `start .. start + parts.len() * length`.
pub proof fn lemma_join_plot_runs(ver_identifier: Seq<u8>, start: nat, parts: Seq<Seq<u8>>, length: nat)
    requires
        length > 0,
        forall|f: int|
            0 <= f < parts.len() ==> #[trigger] parts[f] == optimized(
                plot_run(ver_identifier, (start + f * length) as nat, length),
                length,
            ),
    ensures
        joined(parts, length) == optimized(
            plot_run(ver_identifier, start, parts.len() * length),
            parts.len() * length,
        ),
{
    let m = parts.len();
    let whole = plot_run(ver_identifier, start, m * length);
    assert forall|f: int| 0 <= f < parts.len() implies #[trigger] parts[f] == optimized(
        whole.subrange(f * length * 524288, (f + 1) * length * 524288),
        length,
    ) by {
        lemma_plot_run_split(ver_identifier, start, m, length, f as nat);
    }
    assert(whole.len() == m * length * 524288);
    lemma_join_optimized(whole, parts, length);
}

/// Memory, in megabytes, that converting `count` plots `split` scoops at a time takes.
pub open spec fn split_memory(count: nat, split: nat) -> nat {
    count * 32 * split / 1_000_000
}

/// The first of `split, split / 2, split / 4, ...` whose conversion memory is
/// under 1500 megabytes (0 if none is).
pub open spec fn split_from(count: nat, split: nat) -> nat
    decreases split,
{
    if split == 0 || split_memory(count, split) < 1500 {
        split
    } else {
        split_from(count, split / 2)
    }
}

/// Memory budget, in megabytes, of one conversion block.
pub const MAX_MEMORY_SIZE: u64 = 1500;

/// Every value the halving can reach divides the number of scoops in a plot.
proof fn lemma_split_divides(count: nat, split: nat)
    requires
        split == 16384 || split == 8192 || split == 4096 || split == 2048 || split == 1024
            || split == 512 || split == 256 || split == 128 || split == 64 || split == 32
            || split == 16 || split == 8 || split == 4 || split == 2 || split == 1 || split == 0,
    ensures
        split_from(count, split) > 0 ==> 16384int % (split_from(count, split) as int) == 0,
        split_from(count, split) <= split,
    decreases split,
{
    if split > 0 && split_memory(count, split) >= 1500 {
        lemma_split_divides(count, split / 2);
    } else if split > 0 {
        assert(16384int % (split as int) == 0) by (nonlinear_arith)
            requires
                split == 16384 || split == 8192 || split == 4096 || split == 2048 || split == 1024
                    || split == 512 || split == 256 || split == 128 || split == 64 || split == 32
                    || split == 16 || split == 8 || split == 4 || split == 2 || split == 1,
        ;
    }
}

/// How many scoops of each plot the conversion of plots `start .. end` handles
/// per block: halved from 16384 until a block fits the memory budget.
pub fn split_number(start: u32, end: u32) -> (split: usize)
    requires
        start <= end,
    ensures
        split == split_from((end - start) as nat, 16384),
        split > 0 ==> 16384int % (split as int) == 0,
        split > 0 ==> split_memory((end - start) as nat, split as nat) < 1500,
        split <= 16384,
{
    let count: u64 = (end - start) as u64;
    let mut split: u64 = 16384;
    proof {
        lemma_split_divides(count as nat, 16384);
    }
    loop
        invariant
            count == end - start,
            count < 0x1_0000_0000,
            split <= 16384,
            split_from(count as nat, split as nat) == split_from(count as nat, 16384),
        decreases split,
    {
        assert(count * 32 * split <= 0x1_0000_0000 * 32 * 16384) by (nonlinear_arith)
            requires
                count < 0x1_0000_0000,
                split <= 16384,
        ;
        let memory_size = count * 32 * split / 1_000_000;
        if memory_size < MAX_MEMORY_SIZE || split == 0 {
            proof {
                lemma_split_divides(count as nat, 16384);
            }
            return split as usize;
        } else {
            split = split / 2;
        }
    }
}

/// Memory, in megabytes, that converting plots `start .. end` takes `split` scoops at a time.
pub fn split_memory_size(start: u32, end: u32, split: usize) -> (size: u64)
    requires
        start <= end,
        split <= 16384,
    ensures
        size == split_memory((end - start) as nat, split as nat),
{
    let count: u64 = (end - start) as u64;
    let s: u64 = split as u64;
    assert(count * 32 * s <= 0x1_0000_0000 * 32 * 16384) by (nonlinear_arith)
        requires
            count < 0x1_0000_0000,
            s <= 16384,
    ;
    count * 32 * s / 1_000_000
}

/// Number of conversion blocks when each takes `split` scoops of each plot.
pub fn block_count(split: usize) -> (count: usize)
    requires
        split > 0,
    ensures
        count == 16384int / (split as int),
        16384int % (split as int) == 0 ==> count * split == 16384,
{
    let section_size: usize = 524288;
    let count = section_size / split / SCOOP_SIZE;
    assert(524288int / (split as int) / 32 == 16384int / (split as int)) by (nonlinear_arith)
        requires
            split > 0,
    ;
    assert(16384int % (split as int) == 0 ==> (16384int / (split as int)) * split == 16384) by (nonlinear_arith)
        requires
            split > 0,
    ;
    count
}

/// Size of the plot files of nonces `start .. end`.
pub fn estimate_output_size(start: u32, end: u32) -> (size: u64)
    requires
        start <= end,
    ensures
        size == (end - start) * 524288,
{
    (end - start) as u64 * 524288
}

/// Where, in the unoptimized file of SHA-512 plots (32768 bytes, 1024 scoops
/// each), scoop `section` of the `nonce_index`-th plot starts. Writing these
/// scoops section by section, plot by plot, writes the chunk grid transposed:
/// the one written at position `section * nonce_count + nonce_index` is chunk
/// `transpose_source(nonce_count, 1024, ..)` of the unoptimized file.
pub fn sha_scoop_offset(nonce_count: u64, nonce_index: u64, section: u64) -> (offset: u64)
    requires
        nonce_index < nonce_count,
        nonce_count < 0x1_0000_0000,
        section < 1024,
    ensures
        offset == (nonce_index * 1024 + section) * 32,
        offset == transpose_source(nonce_count as nat, 1024, (section * nonce_count + nonce_index) as nat)
            * 32,
{
    proof {
        lemma_transpose_position(nonce_count as nat, 1024, nonce_index as nat, section as nat);
    }
    assert((nonce_index * 1024 + section) * 32 < 0x1_0000_0000 * 1024 * 32) by (nonlinear_arith)
        requires
            nonce_index < 0x1_0000_0000,
            section < 1024,
    ;
    (nonce_index * 1024 + section) * 32
}

/// What plotting does with one intermediate file.
#[derive(Debug, PartialEq, Eq, Structural)]
pub enum StageAction {
    /// The file is there at full size: use it.
    Keep,
    /// The file is missing: make it.
    Create,
    /// The file is there at another size: delete it and make it again.
    Replace,
}

/// What to do with an intermediate file that should be `expected` bytes long,
/// given the size of the file already there, if any.
pub open spec fn stage_action_of(existing_size: Option<u64>, expected: u64) -> StageAction {
    match existing_size {
        None => StageAction::Create,
        Some(size) => if size == expected {
            StageAction::Keep
        } else {
            StageAction::Replace
        },
    }
}

/// Only a file of exactly the expected size is kept; a missing file is made,
/// and a file of any other size, shorter or longer, is made again.
pub proof fn lemma_stage_keeps_exact_size(existing_size: Option<u64>, expected: u64)
    ensures
        stage_action_of(existing_size, expected) == StageAction::Keep <==> existing_size == Some(expected),
        stage_action_of(existing_size, expected) == StageAction::Create <==> existing_size is None,
        stage_action_of(existing_size, expected) == StageAction::Replace <==> (existing_size is Some
            && existing_size != Some(expected)),
{
}

/// Decides what to do with an intermediate file that should be `expected`
/// bytes long, given the size of the file already there, if any.
pub fn stage_action(existing_size: Option<u64>, expected: u64) -> (action: StageAction)
    ensures
        action == stage_action_of(existing_size, expected),
        action == StageAction::Keep <==> existing_size == Some(expected),
        action == StageAction::Create <==> existing_size is None,
        action == StageAction::Replace <==> (existing_size is Some && existing_size != Some(expected)),
{
    match existing_size {
        None => StageAction::Create,
        Some(size) => if size == expected {
            StageAction::Keep
        } else {
            StageAction::Replace
        },
    }
}

/// What plotting a nonce range does.
#[derive(Debug, PartialEq, Eq, Structural)]
pub enum PlotPlan {
    /// The output file is already there: nothing to do.
    Done,
    /// Make the output: first the unoptimized file, then the optimized one;
    /// the unoptimized file is deleted after a conversion.
    Run { generate: StageAction, convert: StageAction, remove_unoptimized: bool },
}

/// Plans plotting a range whose files should be `expected` bytes long, given
/// whether the output file exists and the sizes of the unoptimized and
/// optimized files already there, if any.
pub fn plan_plotting(
    output_exists: bool,
    unoptimized_size: Option<u64>,
    optimized_size: Option<u64>,
    expected: u64,
) -> (plan: PlotPlan)
    ensures
        output_exists ==> plan == PlotPlan::Done,
        !output_exists ==> plan == (PlotPlan::Run {
            generate: stage_action_of(unoptimized_size, expected),
            convert: stage_action_of(optimized_size, expected),
            remove_unoptimized: stage_action_of(optimized_size, expected) != StageAction::Keep,
        }),
{
    if output_exists {
        return PlotPlan::Done;
    }
    let generate = stage_action(unoptimized_size, expected);
    let convert = stage_action(optimized_size, expected);
    let remove_unoptimized = match convert {
        StageAction::Keep => false,
        _ => true,
    };
    PlotPlan::Run { generate, convert, remove_unoptimized }
}

} // verus!
