//! How a file of a given size decomposes into buffers, slices and clusters.
//!
//! A *buffer* is the unit fed to the cipher: it stores `b` bytes, of which
//! `t` are authentication-tag overhead, so it carries `b - t` plaintext
//! bytes.  A *slice* stores `s` bytes and is the unit addressed remotely.
//! A *cluster* groups `CLUSTER_CAP` slices into one remote message.  With
//! encryption disabled the tag size is zero and a buffer carries `b` raw
//! bytes.  Everything here is pure arithmetic; the tiling lemmas at the
//! bottom show that the buffer ranges cover a file exactly, with no gaps
//! and no overlaps.

use vstd::arithmetic::div_mod::{
    lemma_fundamental_div_mod, lemma_fundamental_div_mod_converse,
};
use vstd::prelude::*;

verus! {

/// Stored bytes per slice (the remote object size cap).
pub const SLICE_SIZE: u64 = 25 * 1024 * 1024;

/// Stored bytes per buffer.
pub const BUFFER_SIZE: u64 = 1024 * 1024;

/// AES-GCM authentication tag, appended to every encrypted buffer.
pub const AES_OVERHEAD: u64 = 16;

/// Slices per cluster (attachments per remote message).
pub const CLUSTER_CAP: u64 = 10;

/// Stored bytes per cluster.
pub const CLUSTER_SIZE: u64 = SLICE_SIZE * CLUSTER_CAP;

/// Buffers per full slice.
pub const BUFFERS_PER_SLICE: u64 = (SLICE_SIZE + BUFFER_SIZE - 1) / BUFFER_SIZE;

/// Plaintext bytes per full encrypted slice.
pub const BYTES_PER_SLICE: u64 = SLICE_SIZE - BUFFERS_PER_SLICE * AES_OVERHEAD;

/// Plaintext bytes per full encrypted buffer.
pub const RAW_BUFFER_SIZE: u64 = BUFFER_SIZE - AES_OVERHEAD;

/// Largest file size the arithmetic below is proved free of overflow for.
pub const MAX_FILE_SIZE: u64 = 0x8_0000_0000_0000;

/// The sizing parameters of one transfer: stored buffer size `b`, per-buffer
/// tag overhead `t` (zero when encryption is off), stored slice size `s`.
pub struct Geometry {
    pub b: int,
    pub t: int,
    pub s: int,
}

pub open spec fn ceil_div(a: int, d: int) -> int {
    (a + d - 1) / d
}

pub open spec fn min2(a: int, b: int) -> int {
    if a <= b {
        a
    } else {
        b
    }
}

impl Geometry {
    /// Parameters under which the decomposition is well defined: the tag
    /// fits in a buffer, a slice holds at least one buffer, and the last
    /// (possibly shorter) buffer of a slice still has room for a tag.
    pub open spec fn valid(self) -> bool {
        0 <= self.t < self.b <= self.s && (self.s % self.b == 0 || self.s % self.b
            > self.t)
    }

    /// Buffers per full slice.
    pub open spec fn bufs_per_slice(self) -> int {
        ceil_div(self.s, self.b)
    }

    /// Plaintext bytes per full buffer.
    pub open spec fn raw_buffer_len(self) -> int {
        self.b - self.t
    }

    /// Plaintext bytes per full slice.
    pub open spec fn bytes_per_slice(self) -> int {
        self.s - self.bufs_per_slice() * self.t
    }

    /// Plaintext capacity of the last buffer of a full slice.
    pub open spec fn last_raw_len(self) -> int {
        self.bytes_per_slice() - (self.bufs_per_slice() - 1) * self.raw_buffer_len()
    }
}

/// Number of slices a file of `n` plaintext bytes occupies.
pub open spec fn total_slices(g: Geometry, n: int) -> int {
    ceil_div(n, g.bytes_per_slice())
}

/// Number of clusters, `c` slices each, a file of `n` bytes occupies.
pub open spec fn total_clusters(g: Geometry, c: int, n: int) -> int {
    ceil_div(total_slices(g, n), c)
}

/// First plaintext offset of slice `si`.
pub open spec fn slice_plain_start(g: Geometry, si: int) -> int {
    si * g.bytes_per_slice()
}

/// Plaintext bytes of slice `si` in a file of `n` bytes.
pub open spec fn slice_plain_len(g: Geometry, n: int, si: int) -> int {
    min2(g.bytes_per_slice(), n - slice_plain_start(g, si))
}

/// Number of buffers slice `si` emits for a file of `n` bytes.
pub open spec fn slice_buffer_count(g: Geometry, n: int, si: int) -> int {
    ceil_div(slice_plain_len(g, n, si), g.raw_buffer_len())
}

/// First plaintext offset of buffer `bi` of slice `si`.
pub open spec fn buffer_plain_start(g: Geometry, si: int, bi: int) -> int {
    slice_plain_start(g, si) + bi * g.raw_buffer_len()
}

/// Plaintext bytes of buffer `bi` of slice `si` in a file of `n` bytes.
pub open spec fn buffer_plain_len(g: Geometry, n: int, si: int, bi: int) -> int {
    min2(
        min2(g.raw_buffer_len(), g.bytes_per_slice() - bi * g.raw_buffer_len()),
        n - buffer_plain_start(g, si, bi),
    )
}

/// Index of a buffer counting from the start of the whole file; the nonce
/// source when encryption is on.
pub open spec fn global_buffer_index(g: Geometry, si: int, bi: int) -> int {
    si * g.bufs_per_slice() + bi
}

/// Stored (post-encryption) size of a file of `n` plaintext bytes: every
/// buffer actually emitted costs one tag.
pub open spec fn stored_size(g: Geometry, n: int) -> int {
    let full = n / g.bytes_per_slice();
    let trailing = n % g.bytes_per_slice();
    n + full * (g.bufs_per_slice() * g.t) + ceil_div(trailing, g.raw_buffer_len()) * g.t
}

/// Stored bytes of the trailing partial slice.
pub open spec fn trailing_stored(g: Geometry, n: int) -> int {
    let trailing = n % g.bytes_per_slice();
    trailing + ceil_div(trailing, g.raw_buffer_len()) * g.t
}

/// Stored bytes of slice `si`.
pub open spec fn slice_stored_len(g: Geometry, n: int, si: int) -> int {
    slice_plain_len(g, n, si) + slice_buffer_count(g, n, si) * g.t
}

/// Stored bytes of cluster `ci` (its `c` slices together, the last cluster
/// possibly shorter).
pub open spec fn cluster_stored_size(g: Geometry, c: int, n: int, ci: int) -> int {
    min2(c * g.s, stored_size(g, n) - ci * (c * g.s))
}

/// The geometry of a transfer with or without encryption.
pub open spec fn file_geometry(encrypted: bool) -> Geometry {
    Geometry {
        b: BUFFER_SIZE as int,
        t: if encrypted {
            AES_OVERHEAD as int
        } else {
            0
        },
        s: SLICE_SIZE as int,
    }
}

pub proof fn lemma_file_geometry_valid(encrypted: bool)
    ensures
        file_geometry(encrypted).valid(),
        file_geometry(encrypted).bufs_per_slice() == BUFFERS_PER_SLICE as int,
        file_geometry(encrypted).raw_buffer_len() == if encrypted {
            RAW_BUFFER_SIZE as int
        } else {
            BUFFER_SIZE as int
        },
        file_geometry(encrypted).bytes_per_slice() == if encrypted {
            BYTES_PER_SLICE as int
        } else {
            SLICE_SIZE as int
        },
{
    assert(ceil_div(SLICE_SIZE as int, BUFFER_SIZE as int) == 25) by {
        lemma_div_range(SLICE_SIZE as int + BUFFER_SIZE as int - 1, BUFFER_SIZE as int, 25);
    }
}

// ---------------------------------------------------------------------------
// Division helpers
// ---------------------------------------------------------------------------

/// If `q * d <= x < (q + 1) * d` then `q` is the quotient of `x` by `d`.
pub proof fn lemma_div_range(x: int, d: int, q: int)
    requires
        d > 0,
        q * d <= x < (q + 1) * d,
    ensures
        x / d == q,
        x % d == x - q * d,
{
    assert(x == q * d + (x - q * d)) by (nonlinear_arith)
        requires
            q * d <= x < (q + 1) * d,
    ;
    assert(0 <= x - q * d < d) by (nonlinear_arith)
        requires
            q * d <= x < (q + 1) * d,
    ;
    lemma_fundamental_div_mod_converse(x, d, q, x - q * d);
}

/// `ceil_div` is the least integer at or above the exact quotient.
pub proof fn lemma_ceil_div(a: int, d: int)
    requires
        d > 0,
        a >= 0,
    ensures
        ceil_div(a, d) * d >= a,
        a > 0 ==> (ceil_div(a, d) - 1) * d < a,
        ceil_div(a, d) >= 0,
        a > 0 ==> ceil_div(a, d) >= 1,
        a == 0 ==> ceil_div(a, d) == 0,
{
    lemma_fundamental_div_mod(a + d - 1, d);
    let q = (a + d - 1) / d;
    let r = (a + d - 1) % d;
    assert(a + d - 1 == d * q + r);
    assert(0 <= r < d);
    assert(d * q == q * d) by (nonlinear_arith);
    if a == 0 {
        lemma_div_range(d - 1, d, 0);
    } else {
        assert(q * d == a + d - 1 - r >= a);
        assert((q - 1) * d == q * d - d) by (nonlinear_arith);
        assert((q - 1) * d == a - 1 - r < a);
        if q < 1 {
            assert(q * d <= 0) by (nonlinear_arith)
                requires
                    q < 1,
                    d > 0,
            ;
            assert(false);
        }
    }
}

/// `ceil_div` is monotone in the numerator.
pub proof fn lemma_ceil_div_monotone(a1: int, a2: int, d: int)
    requires
        d > 0,
        0 <= a1 <= a2,
    ensures
        ceil_div(a1, d) <= ceil_div(a2, d),
{
    lemma_ceil_div(a1, d);
    lemma_ceil_div(a2, d);
    let q1 = ceil_div(a1, d);
    let q2 = ceil_div(a2, d);
    if a1 == 0 {
        assert(q1 == 0);
    } else {
        assert(q1 <= q2) by (nonlinear_arith)
            requires
                d > 0,
                (q1 - 1) * d < a1,
                a1 <= a2,
                q2 * d >= a2,
        ;
    }
}

// ---------------------------------------------------------------------------
// Structural facts about a valid geometry
// ---------------------------------------------------------------------------

/// In a valid geometry the derived quantities are positive and a full slice
/// splits into `bufs_per_slice` buffers: all of `raw_buffer_len` plaintext
/// bytes except the last, which carries `last_raw_len`.
pub proof fn lemma_geometry_structure(g: Geometry)
    requires
        g.valid(),
    ensures
        g.raw_buffer_len() > 0,
        g.bufs_per_slice() >= 1,
        0 < g.last_raw_len() <= g.raw_buffer_len(),
        g.bytes_per_slice() == (g.bufs_per_slice() - 1) * g.raw_buffer_len()
            + g.last_raw_len(),
        0 < g.bytes_per_slice() <= g.bufs_per_slice() * g.raw_buffer_len(),
        g.bytes_per_slice() + g.bufs_per_slice() * g.t == g.s,
{
    let k = g.bufs_per_slice();
    let q = g.s / g.b;
    let r = g.s % g.b;
    lemma_fundamental_div_mod(g.s, g.b);
    assert(g.s == g.b * q + r);
    assert(g.b * q == q * g.b) by (nonlinear_arith);
    assert(q >= 1) by (nonlinear_arith)
        requires
            g.s == q * g.b + r,
            0 < g.b <= g.s,
            0 <= r < g.b,
    ;
    if r == 0 {
        // s == q * b, and the ceiling equals the exact quotient.
        assert((q + 1) * g.b == q * g.b + g.b) by (nonlinear_arith);
        lemma_div_range(g.s + g.b - 1, g.b, q);
        assert(k == q);
        assert(g.bytes_per_slice() == q * g.b - q * g.t);
        assert(q * g.b - q * g.t == (q - 1) * (g.b - g.t) + (g.b - g.t))
            by (nonlinear_arith);
        assert(g.last_raw_len() == g.b - g.t) by {
            assert(g.bytes_per_slice() - (q - 1) * (g.b - g.t) == g.b - g.t);
        }
        assert((q - 1) * (g.b - g.t) >= 0) by (nonlinear_arith)
            requires
                q >= 1,
                g.b > g.t,
        ;
    } else {
        // s == q * b + r with t < r < b; the ceiling adds one.
        assert((q + 1) * g.b == q * g.b + g.b) by (nonlinear_arith);
        assert((q + 2) * g.b == q * g.b + g.b + g.b) by (nonlinear_arith);
        lemma_div_range(g.s + g.b - 1, g.b, q + 1);
        assert(k == q + 1);
        assert(g.bytes_per_slice() == q * g.b + r - (q + 1) * g.t);
        assert(q * g.b + r - (q + 1) * g.t == q * (g.b - g.t) + (r - g.t))
            by (nonlinear_arith);
        assert(g.last_raw_len() == r - g.t) by {
            assert((k - 1) * (g.b - g.t) == q * (g.b - g.t));
        }
        assert(0 < r - g.t <= g.b - g.t);
        assert(q * (g.b - g.t) >= 0) by (nonlinear_arith)
            requires
                q >= 1,
                g.b > g.t,
        ;
    }
    assert(g.bytes_per_slice() == (k - 1) * g.raw_buffer_len() + g.last_raw_len());
    assert(g.bytes_per_slice() <= k * g.raw_buffer_len()) by (nonlinear_arith)
        requires
            g.bytes_per_slice() == (k - 1) * g.raw_buffer_len() + g.last_raw_len(),
            g.last_raw_len() <= g.raw_buffer_len(),
    ;
    assert(g.bytes_per_slice() > 0) by (nonlinear_arith)
        requires
            g.bytes_per_slice() == (k - 1) * g.raw_buffer_len() + g.last_raw_len(),
            g.last_raw_len() > 0,
            k >= 1,
            g.raw_buffer_len() > 0,
    ;
    assert(g.bytes_per_slice() + k * g.t == g.s);
}

// ---------------------------------------------------------------------------
// Tiling: the buffer ranges cover [0, n) exactly
// ---------------------------------------------------------------------------

/// Every plaintext offset of the file falls inside the buffer that the
/// inverse mapping (division by slice and buffer capacity) names, and that
/// buffer is one the forward decomposition emits: no byte is left out.
pub proof fn lemma_offset_to_unit(g: Geometry, n: int, o: int)
    requires
        g.valid(),
        0 <= o < n,
    ensures
        ({
            let si = o / g.bytes_per_slice();
            let bi = (o % g.bytes_per_slice()) / g.raw_buffer_len();
            &&& 0 <= si < total_slices(g, n)
            &&& 0 <= bi < slice_buffer_count(g, n, si)
            &&& buffer_plain_start(g, si, bi) <= o
            &&& o < buffer_plain_start(g, si, bi) + buffer_plain_len(g, n, si, bi)
        }),
{
    lemma_geometry_structure(g);
    let bps = g.bytes_per_slice();
    let rbs = g.raw_buffer_len();
    let si = o / bps;
    let u = o % bps;
    lemma_fundamental_div_mod(o, bps);
    assert(bps * si == si * bps) by (nonlinear_arith);
    assert(0 <= u < bps);
    assert(si >= 0) by (nonlinear_arith)
        requires
            o == si * bps + u,
            0 <= o,
            0 <= u < bps,
            bps > 0,
    ;
    let ts = total_slices(g, n);
    lemma_ceil_div(n, bps);
    assert(si < ts) by (nonlinear_arith)
        requires
            bps > 0,
            si * bps <= o,
            o < n,
            n <= ts * bps,
    ;
    let bi = u / rbs;
    let v = u % rbs;
    lemma_fundamental_div_mod(u, rbs);
    assert(rbs * bi == bi * rbs) by (nonlinear_arith);
    assert(0 <= v < rbs);
    assert(bi >= 0) by (nonlinear_arith)
        requires
            u == bi * rbs + v,
            0 <= u,
            0 <= v < rbs,
            rbs > 0,
    ;
    let sl = slice_plain_len(g, n, si);
    assert(u < sl);
    let cnt = slice_buffer_count(g, n, si);
    lemma_ceil_div(sl, rbs);
    assert(bi < cnt) by (nonlinear_arith)
        requires
            rbs > 0,
            bi * rbs <= u,
            u < sl,
            sl <= cnt * rbs,
    ;
}

/// Every byte position inside an emitted buffer is a distinct file offset
/// below `n`, and maps back to exactly that buffer and that position: the
/// buffers do not overlap.
pub proof fn lemma_unit_to_offset(g: Geometry, n: int, si: int, bi: int, d: int)
    requires
        g.valid(),
        0 <= si < total_slices(g, n),
        0 <= bi < slice_buffer_count(g, n, si),
        0 <= d < buffer_plain_len(g, n, si, bi),
    ensures
        ({
            let o = buffer_plain_start(g, si, bi) + d;
            &&& 0 <= o < n
            &&& o / g.bytes_per_slice() == si
            &&& (o % g.bytes_per_slice()) / g.raw_buffer_len() == bi
            &&& (o % g.bytes_per_slice()) % g.raw_buffer_len() == d
        }),
{
    lemma_geometry_structure(g);
    let bps = g.bytes_per_slice();
    let rbs = g.raw_buffer_len();
    let u = bi * rbs + d;
    let o = si * bps + u;
    assert(si * bps >= 0) by (nonlinear_arith)
        requires
            si >= 0,
            bps > 0,
    ;
    assert(bi * rbs >= 0) by (nonlinear_arith)
        requires
            bi >= 0,
            rbs > 0,
    ;
    assert(d < bps - bi * rbs);
    assert(d < n - (si * bps + bi * rbs));
    assert((si + 1) * bps == si * bps + bps) by (nonlinear_arith);
    lemma_div_range(o, bps, si);
    assert((bi + 1) * rbs == bi * rbs + rbs) by (nonlinear_arith);
    lemma_div_range(u, rbs, bi);
}

/// A buffer the decomposition emits is never empty.
pub proof fn lemma_buffer_len_pos(g: Geometry, n: int, si: int, bi: int)
    requires
        g.valid(),
        n >= 0,
        0 <= si < total_slices(g, n),
        0 <= bi < slice_buffer_count(g, n, si),
    ensures
        0 < buffer_plain_len(g, n, si, bi) <= g.raw_buffer_len(),
        slice_plain_len(g, n, si) > 0,
        buffer_plain_len(g, n, si, bi) == min2(
            g.raw_buffer_len(),
            slice_plain_len(g, n, si) - bi * g.raw_buffer_len(),
        ),
{
    lemma_geometry_structure(g);
    let bps = g.bytes_per_slice();
    let rbs = g.raw_buffer_len();
    let sl = slice_plain_len(g, n, si);
    let cnt = slice_buffer_count(g, n, si);
    lemma_ceil_div(n, bps);
    let ts = total_slices(g, n);
    assert(n > 0);
    // The slice holds at least one plaintext byte.
    assert(si * bps < n) by (nonlinear_arith)
        requires
            bps > 0,
            0 <= si < ts,
            (ts - 1) * bps < n,
    ;
    assert(sl > 0);
    lemma_ceil_div(sl, rbs);
    assert(bi * rbs < sl) by (nonlinear_arith)
        requires
            rbs > 0,
            0 <= bi < cnt,
            (cnt - 1) * rbs < sl,
    ;
}

/// A slice index splits into its cluster index and its position there.
pub proof fn lemma_slice_cluster_index(c: int, si: int)
    requires
        c >= 1,
        si >= 0,
    ensures
        (si / c) * c + (si % c) == si,
        0 <= si % c < c,
        si / c >= 0,
{
    lemma_fundamental_div_mod(si, c);
    assert(c * (si / c) == (si / c) * c) by (nonlinear_arith);
    assert(si / c >= 0) by (nonlinear_arith)
        requires
            si == (si / c) * c + si % c,
            si >= 0,
            0 <= si % c < c,
            c >= 1,
    ;
}

// ---------------------------------------------------------------------------
// Stored sizes
// ---------------------------------------------------------------------------

/// The stored size decomposes into full slices of `s` stored bytes plus a
/// trailing partial slice.
pub proof fn lemma_stored_decomposition(g: Geometry, n: int)
    requires
        g.valid(),
        n >= 0,
    ensures
        stored_size(g, n) == (n / g.bytes_per_slice()) * g.s + trailing_stored(g, n),
        n % g.bytes_per_slice() == 0 ==> trailing_stored(g, n) == 0,
        n % g.bytes_per_slice() > 0 ==> 0 < trailing_stored(g, n) <= g.s,
        total_slices(g, n) == n / g.bytes_per_slice() + if n % g.bytes_per_slice() == 0 {
            0int
        } else {
            1int
        },
        stored_size(g, n) >= n,
        n / g.bytes_per_slice() >= 0,
{
    lemma_geometry_structure(g);
    let bps = g.bytes_per_slice();
    let rbs = g.raw_buffer_len();
    let k = g.bufs_per_slice();
    let full = n / bps;
    let tr = n % bps;
    lemma_fundamental_div_mod(n, bps);
    assert(bps * full == full * bps) by (nonlinear_arith);
    assert(full >= 0) by (nonlinear_arith)
        requires
            n == full * bps + tr,
            n >= 0,
            0 <= tr < bps,
            bps > 0,
    ;
    let tb = ceil_div(tr, rbs);
    lemma_ceil_div(tr, rbs);
    assert(full * g.s == full * bps + full * (k * g.t)) by (nonlinear_arith)
        requires
            g.s == bps + k * g.t,
    ;
    assert(tb * g.t >= 0) by (nonlinear_arith)
        requires
            tb >= 0,
            g.t >= 0,
    ;
    assert(full * (k * g.t) >= 0) by (nonlinear_arith)
        requires
            full >= 0,
            k >= 1,
            g.t >= 0,
    ;
    if tr == 0 {
        assert(ceil_div(tr, rbs) == 0);
        assert(tb * g.t == 0) by (nonlinear_arith)
            requires
                tb == 0,
        ;
        assert(trailing_stored(g, n) == 0);
        assert((full + 1) * bps == full * bps + bps) by (nonlinear_arith);
        lemma_div_range(n + bps - 1, bps, full);
    } else {
        // tb <= k, so the trailing stored bytes fit in one slice.
        lemma_ceil_div_monotone(tr, bps, rbs);
        let cb = ceil_div(bps, rbs);
        lemma_ceil_div(bps, rbs);
        assert(cb <= k) by (nonlinear_arith)
            requires
                rbs > 0,
                (cb - 1) * rbs < bps,
                bps <= k * rbs,
        ;
        assert(tb * g.t <= k * g.t) by (nonlinear_arith)
            requires
                tb <= k,
                g.t >= 0,
        ;
        assert((full + 1) * bps == full * bps + bps) by (nonlinear_arith);
        assert((full + 2) * bps == full * bps + bps + bps) by (nonlinear_arith);
        lemma_div_range(n + bps - 1, bps, full + 1);
    }
}

/// With encryption off there is no per-buffer overhead: the stored size is
/// the plaintext size.
pub proof fn lemma_plain_stored_size(g: Geometry, n: int)
    requires
        g.valid(),
        g.t == 0,
        n >= 0,
    ensures
        stored_size(g, n) == n,
{
    let full = n / g.bytes_per_slice();
    let k = g.bufs_per_slice();
    let tb = ceil_div(n % g.bytes_per_slice(), g.raw_buffer_len());
    assert(full * (k * 0) == 0) by (nonlinear_arith);
    assert(tb * 0 == 0) by (nonlinear_arith);
}

/// The stored bytes of one slice, as the remote store sees them: every
/// slice stores exactly `s` bytes except the last, which stores the rest.
pub proof fn lemma_slice_stored_len(g: Geometry, n: int, si: int)
    requires
        g.valid(),
        n >= 0,
        0 <= si < total_slices(g, n),
    ensures
        slice_stored_len(g, n, si) == min2(g.s, stored_size(g, n) - si * g.s),
        0 < slice_stored_len(g, n, si) <= g.s,
{
    lemma_geometry_structure(g);
    lemma_stored_decomposition(g, n);
    let bps = g.bytes_per_slice();
    let rbs = g.raw_buffer_len();
    let k = g.bufs_per_slice();
    let full = n / bps;
    let tr = n % bps;
    lemma_fundamental_div_mod(n, bps);
    assert(bps * full == full * bps) by (nonlinear_arith);
    let stored = stored_size(g, n);
    if si < full {
        // A full slice: bps plaintext bytes in k buffers.
        assert(n - si * bps >= bps) by (nonlinear_arith)
            requires
                n == full * bps + tr,
                tr >= 0,
                si <= full - 1,
                bps > 0,
        ;
        assert(slice_plain_len(g, n, si) == bps);
        lemma_ceil_div(bps, rbs);
        assert(slice_buffer_count(g, n, si) == k) by {
            let cb = ceil_div(bps, rbs);
            assert(cb <= k) by (nonlinear_arith)
                requires
                    rbs > 0,
                    (cb - 1) * rbs < bps,
                    bps <= k * rbs,
            ;
            assert(cb >= k) by (nonlinear_arith)
                requires
                    rbs > 0,
                    cb * rbs >= bps,
                    bps > (k - 1) * rbs,
            ;
        }
        assert(slice_stored_len(g, n, si) == g.s);
        assert(stored - si * g.s >= g.s) by (nonlinear_arith)
            requires
                stored == full * g.s + trailing_stored(g, n),
                trailing_stored(g, n) >= 0,
                si <= full - 1,
                g.s > 0,
        ;
    } else {
        // The trailing partial slice.
        assert(si == full && tr > 0);
        assert(slice_plain_len(g, n, si) == tr);
        assert(slice_stored_len(g, n, si) == trailing_stored(g, n));
        assert(si * g.s == full * g.s);
        assert(stored - full * g.s == trailing_stored(g, n));
    }
}

/// A cluster that the decomposition emits stores at least one byte and at
/// most a full cluster's worth.
pub proof fn lemma_cluster_stored_size(g: Geometry, c: int, n: int, ci: int)
    requires
        g.valid(),
        c >= 1,
        n > 0,
        0 <= ci < total_clusters(g, c, n),
    ensures
        0 < cluster_stored_size(g, c, n, ci) <= c * g.s,
        stored_size(g, n) > ci * (c * g.s),
{
    lemma_geometry_structure(g);
    lemma_stored_decomposition(g, n);
    let ts = total_slices(g, n);
    let tc = total_clusters(g, c, n);
    let stored = stored_size(g, n);
    let full = n / g.bytes_per_slice();
    lemma_ceil_div(n, g.bytes_per_slice());
    assert(ts >= 1);
    lemma_ceil_div(ts, c);
    assert(ci * c <= ts - 1) by (nonlinear_arith)
        requires
            c >= 1,
            0 <= ci < tc,
            (tc - 1) * c < ts,
    ;
    // stored > (ts - 1) * s
    if n % g.bytes_per_slice() == 0 {
        assert(stored == full * g.s && ts == full);
        assert((ts - 1) * g.s == full * g.s - g.s) by (nonlinear_arith)
            requires
                ts == full,
        ;
    } else {
        assert(ts == full + 1);
        assert((ts - 1) * g.s == full * g.s) by (nonlinear_arith)
            requires
                ts == full + 1,
        ;
    }
    assert(stored > (ts - 1) * g.s);
    assert(ci * (c * g.s) <= (ts - 1) * g.s) by (nonlinear_arith)
        requires
            ci * c <= ts - 1,
            g.s > 0,
    ;
    assert(c * g.s > 0) by (nonlinear_arith)
        requires
            c >= 1,
            g.s > 0,
    ;
}

/// Total plaintext of the first `k` buffers of slice `si`.
pub open spec fn sum_buffer_plain(g: Geometry, n: int, si: int, k: int) -> int
    decreases k,
{
    if k <= 0 {
        0
    } else {
        sum_buffer_plain(g, n, si, k - 1) + buffer_plain_len(g, n, si, k - 1)
    }
}

/// The buffers of a slice carry exactly its plaintext, with no byte lost
/// and none counted twice; adding one tag per buffer gives exactly the
/// slice's stored size — the size its upload slot is reserved with.
pub proof fn lemma_slice_buffers_cover(g: Geometry, n: int, si: int)
    requires
        g.valid(),
        n >= 0,
        0 <= si < total_slices(g, n),
    ensures
        sum_buffer_plain(g, n, si, slice_buffer_count(g, n, si)) == slice_plain_len(
            g,
            n,
            si,
        ),
        sum_buffer_plain(g, n, si, slice_buffer_count(g, n, si)) + slice_buffer_count(
            g,
            n,
            si,
        ) * g.t == slice_stored_len(g, n, si),
{
    lemma_geometry_structure(g);
    let bps = g.bytes_per_slice();
    let rbs = g.raw_buffer_len();
    let sl = slice_plain_len(g, n, si);
    let cnt = slice_buffer_count(g, n, si);
    lemma_ceil_div(n, bps);
    assert(si * bps < n) by (nonlinear_arith)
        requires
            bps > 0,
            0 <= si <= total_slices(g, n) - 1,
            (total_slices(g, n) - 1) * bps < n,
    ;
    assert(sl > 0);
    lemma_ceil_div(sl, rbs);
    lemma_sum_buffer_prefix(g, n, si, cnt);
    assert(min2(sl, cnt * rbs) == sl);
}

/// The first `k` buffers of a slice carry `min(slice length, k) * rbs`
/// plaintext bytes.
proof fn lemma_sum_buffer_prefix(g: Geometry, n: int, si: int, k: int)
    requires
        g.valid(),
        n >= 0,
        0 <= si < total_slices(g, n),
        0 <= k <= slice_buffer_count(g, n, si),
    ensures
        sum_buffer_plain(g, n, si, k) == min2(slice_plain_len(g, n, si), k
            * g.raw_buffer_len()),
    decreases k,
{
    lemma_geometry_structure(g);
    let bps = g.bytes_per_slice();
    let rbs = g.raw_buffer_len();
    let sl = slice_plain_len(g, n, si);
    let cnt = slice_buffer_count(g, n, si);
    lemma_ceil_div(n, bps);
    assert(si * bps < n) by (nonlinear_arith)
        requires
            bps > 0,
            0 <= si <= total_slices(g, n) - 1,
            (total_slices(g, n) - 1) * bps < n,
    ;
    assert(sl > 0);
    lemma_ceil_div(sl, rbs);
    if k == 0 {
        assert(0 * rbs == 0) by (nonlinear_arith);
    } else {
        lemma_sum_buffer_prefix(g, n, si, k - 1);
        lemma_buffer_len_pos(g, n, si, k - 1);
        assert(buffer_plain_len(g, n, si, k - 1) == min2(rbs, sl - (k - 1) * rbs));
        assert(k * rbs == (k - 1) * rbs + rbs) by (nonlinear_arith);
        assert((k - 1) * rbs < sl) by (nonlinear_arith)
            requires
                rbs > 0,
                0 <= k - 1 <= cnt - 1,
                (cnt - 1) * rbs < sl,
        ;
    }
}

/// The file's stored bytes never exceed one full slice per slice.
pub proof fn lemma_stored_size_upper(g: Geometry, n: int)
    requires
        g.valid(),
        n >= 0,
    ensures
        stored_size(g, n) <= total_slices(g, n) * g.s,
{
    lemma_geometry_structure(g);
    lemma_stored_decomposition(g, n);
    let full = n / g.bytes_per_slice();
    let ts = total_slices(g, n);
    if n % g.bytes_per_slice() == 0 {
        assert(ts * g.s == full * g.s) by (nonlinear_arith)
            requires
                ts == full,
        ;
    } else {
        assert(ts * g.s == full * g.s + g.s) by (nonlinear_arith)
            requires
                ts == full + 1,
        ;
    }
}

/// Splitting a cluster's declared stored size into slice-capacity pieces
/// reproduces exactly the stored sizes of its slices: the reservation made
/// before any byte is read matches what the pipeline will produce, slice
/// for slice.
pub proof fn lemma_reservation_matches_slices(g: Geometry, c: int, n: int, ci: int)
    requires
        g.valid(),
        c >= 1,
        n > 0,
        0 <= ci < total_clusters(g, c, n),
    ensures
        ceil_div(cluster_stored_size(g, c, n, ci), g.s) == cluster_slice_count(
            g,
            c,
            n,
            ci,
        ),
        forall|j: int|
            0 <= j < cluster_slice_count(g, c, n, ci) ==> min2(
                g.s,
                cluster_stored_size(g, c, n, ci) - j * g.s,
            ) == #[trigger] slice_stored_len(g, n, ci * c + j),
{
    lemma_geometry_structure(g);
    lemma_stored_decomposition(g, n);
    lemma_stored_size_upper(g, n);
    lemma_cluster_stored_size(g, c, n, ci);
    let stored = stored_size(g, n);
    let ts = total_slices(g, n);
    let cnt = cluster_slice_count(g, c, n, ci);
    let gsize = cluster_stored_size(g, c, n, ci);
    lemma_ceil_div(n, g.bytes_per_slice());
    lemma_ceil_div(ts, c);
    assert(ci * c <= ts - 1) by (nonlinear_arith)
        requires
            c >= 1,
            0 <= ci < total_clusters(g, c, n),
            (total_clusters(g, c, n) - 1) * c < ts,
    ;
    // Each slice of the cluster stores min(s, stored - si * s).
    assert forall|j: int| 0 <= j < cnt implies #[trigger] slice_stored_len(g, n, ci * c
        + j) == min2(g.s, stored - (ci * c + j) * g.s) by {
        assert(ci * c + j < ts);
        lemma_slice_stored_len(g, n, ci * c + j);
    }
    if stored - ci * (c * g.s) >= c * g.s {
        // A full cluster: every piece and every slice stores s.
        assert(gsize == c * g.s);
        assert(ts >= ci * c + c) by (nonlinear_arith)
            requires
                g.s > 0,
                stored - ci * (c * g.s) >= c * g.s,
                stored <= ts * g.s,
        ;
        assert(cnt == c);
        assert((c + 1) * g.s == c * g.s + g.s) by (nonlinear_arith);
        lemma_div_range(c * g.s + g.s - 1, g.s, c);
        assert(ceil_div(gsize, g.s) == c);
        assert forall|j: int| 0 <= j < cnt implies min2(g.s, gsize - j * g.s)
            == #[trigger] slice_stored_len(g, n, ci * c + j) by {
            assert(gsize - j * g.s >= g.s) by (nonlinear_arith)
                requires
                    gsize == c * g.s,
                    0 <= j <= c - 1,
                    g.s > 0,
            ;
            assert(stored - (ci * c + j) * g.s >= g.s) by (nonlinear_arith)
                requires
                    stored - ci * (c * g.s) >= c * g.s,
                    0 <= j <= c - 1,
                    g.s > 0,
            ;
        }
    } else {
        // The trailing cluster: the pieces are offsets into its exact size.
        assert(gsize == stored - ci * (c * g.s));
        // stored exceeds (ts - 1) full slices: the last slice is not empty.
        let full = n / g.bytes_per_slice();
        if n % g.bytes_per_slice() == 0 {
            assert(stored > (ts - 1) * g.s) by (nonlinear_arith)
                requires
                    ts == full,
                    stored == full * g.s,
                    g.s > 0,
            ;
        } else {
            assert(stored > (ts - 1) * g.s) by (nonlinear_arith)
                requires
                    ts == full + 1,
                    stored == full * g.s + trailing_stored(g, n),
                    trailing_stored(g, n) > 0,
            ;
        }
        assert(cnt == ts - ci * c) by {
            if ts - ci * c > c {
                assert(stored - ci * (c * g.s) >= c * g.s) by (nonlinear_arith)
                    requires
                        g.s > 0,
                        ts - ci * c > c,
                        stored > (ts - 1) * g.s,
                ;
                assert(false);
            }
        }
        assert forall|j: int| 0 <= j < cnt implies min2(g.s, gsize - j * g.s)
            == #[trigger] slice_stored_len(g, n, ci * c + j) by {
            assert(gsize - j * g.s == stored - (ci * c + j) * g.s) by (nonlinear_arith)
                requires
                    gsize == stored - ci * (c * g.s),
            ;
        }
        // The last slice of the file leaves a positive remainder of at
        // most one slice, so the ceiling lands on the slice count.
        assert(ci * c + cnt == ts);
        let last = stored - (ci * c + cnt - 1) * g.s;
        lemma_slice_stored_len(g, n, ts - 1);
        assert(ci * c + cnt - 1 == ts - 1);
        assert(last == stored - (ts - 1) * g.s);
        assert(min2(g.s, last) == slice_stored_len(g, n, ts - 1));
        assert(0 < slice_stored_len(g, n, ts - 1) <= g.s);
        assert(last > 0);
        assert(last <= g.s) by (nonlinear_arith)
            requires
                stored <= ts * g.s,
                ci * c + cnt == ts,
                last == stored - (ts - 1) * g.s,
        ;
        assert(gsize == (cnt - 1) * g.s + last) by (nonlinear_arith)
            requires
                gsize == stored - ci * (c * g.s),
                last == stored - (ci * c + cnt - 1) * g.s,
        ;
        assert(cnt * g.s == (cnt - 1) * g.s + g.s) by (nonlinear_arith);
        assert((cnt + 1) * g.s == cnt * g.s + g.s) by (nonlinear_arith);
        assert((cnt - 1) * g.s >= 0) by (nonlinear_arith)
            requires
                cnt >= 1,
                g.s > 0,
        ;
        lemma_div_range(gsize + g.s - 1, g.s, cnt);
        assert(ceil_div(gsize, g.s) == cnt);
    }
}

// ---------------------------------------------------------------------------
// Executable geometry for the fixed transfer constants
// ---------------------------------------------------------------------------

/// Bounds that keep every product and sum below computed here inside `u64`.
pub proof fn lemma_counts_bound(encrypted: bool, n: int)
    requires
        0 <= n <= MAX_FILE_SIZE,
    ensures
        total_slices(file_geometry(encrypted), n) < 0x1000_0000,
        total_clusters(file_geometry(encrypted), CLUSTER_CAP as int, n) < 0x1000_0000,
        stored_size(file_geometry(encrypted), n) < 0x9_0000_0000_0000,
{
    let g = file_geometry(encrypted);
    lemma_file_geometry_valid(encrypted);
    lemma_geometry_structure(g);
    lemma_stored_decomposition(g, n);
    let bps = g.bytes_per_slice();
    let ts = total_slices(g, n);
    let tc = total_clusters(g, CLUSTER_CAP as int, n);
    lemma_ceil_div(n, bps);
    assert(bps >= 26214000);
    if n == 0 {
        lemma_ceil_div(ts, CLUSTER_CAP as int);
    } else {
        assert(ts < 0x1000_0000) by (nonlinear_arith)
            requires
                (ts - 1) * bps < n,
                n <= MAX_FILE_SIZE,
                bps >= 26214000,
        ;
        lemma_ceil_div(ts, CLUSTER_CAP as int);
        assert(tc <= ts) by (nonlinear_arith)
            requires
                (tc - 1) * (CLUSTER_CAP as int) < ts,
                tc * (CLUSTER_CAP as int) >= ts,
                ts >= 1,
                tc >= 0,
        ;
    }
    // stored <= n + full * 400 + 400 and full <= ts
    let full = n / bps;
    let tr = n % bps;
    let k = g.bufs_per_slice();
    let tb = ceil_div(tr, g.raw_buffer_len());
    lemma_ceil_div(tr, g.raw_buffer_len());
    assert(k == 25);
    assert(full <= ts);
    assert(g.t <= 16);
    assert(full * (k * g.t) <= full * 400) by (nonlinear_arith)
        requires
            full >= 0,
            0 <= k * g.t <= 400,
    ;
    assert(full * 400 < 0x1000_0000 * 400) by (nonlinear_arith)
        requires
            0 <= full,
            full < 0x1000_0000,
    ;
    assert(tb <= 25) by {
        lemma_ceil_div_monotone(tr, bps, g.raw_buffer_len());
        let cb = ceil_div(bps, g.raw_buffer_len());
        lemma_ceil_div(bps, g.raw_buffer_len());
        assert(cb <= k) by (nonlinear_arith)
            requires
                g.raw_buffer_len() > 0,
                (cb - 1) * g.raw_buffer_len() < bps,
                bps <= k * g.raw_buffer_len(),
        ;
    }
    assert(tb * g.t <= 400) by (nonlinear_arith)
        requires
            0 <= tb <= 25,
            0 <= g.t <= 16,
    ;
}

/// Stored (post-encryption) size of a file of `n` plaintext bytes.
pub fn stored_file_size(n: u64, encrypted: bool) -> (r: u64)
    requires
        n <= MAX_FILE_SIZE,
    ensures
        r as int == stored_size(file_geometry(encrypted), n as int),
        r >= n,
{
    proof {
        lemma_file_geometry_valid(encrypted);
        lemma_stored_decomposition(file_geometry(encrypted), n as int);
        lemma_counts_bound(encrypted, n as int);
    }
    if !encrypted {
        proof {
            lemma_plain_stored_size(file_geometry(encrypted), n as int);
        }
        return n;
    }
    let full = n / BYTES_PER_SLICE;
    let trailing = n % BYTES_PER_SLICE;
    let tb = (trailing + RAW_BUFFER_SIZE - 1) / RAW_BUFFER_SIZE;
    proof {
        let g = file_geometry(true);
        assert(full as int == n as int / g.bytes_per_slice());
        assert(trailing as int == n as int % g.bytes_per_slice());
        assert(tb as int == ceil_div(trailing as int, g.raw_buffer_len()));
    }
    n + full * (BUFFERS_PER_SLICE * AES_OVERHEAD) + tb * AES_OVERHEAD
}

/// Number of slices a file of `n` bytes occupies.
pub fn file_total_slices(n: u64, encrypted: bool) -> (r: u64)
    requires
        n <= MAX_FILE_SIZE,
    ensures
        r as int == total_slices(file_geometry(encrypted), n as int),
        r < 0x1000_0000,
{
    proof {
        lemma_file_geometry_valid(encrypted);
        lemma_counts_bound(encrypted, n as int);
    }
    let bps = if encrypted {
        BYTES_PER_SLICE
    } else {
        SLICE_SIZE
    };
    (n + bps - 1) / bps
}

/// Number of clusters a file of `n` bytes occupies.
pub fn file_total_clusters(n: u64, encrypted: bool) -> (r: u64)
    requires
        n <= MAX_FILE_SIZE,
    ensures
        r as int == total_clusters(file_geometry(encrypted), CLUSTER_CAP as int, n as int),
        r < 0x1000_0000,
{
    proof {
        lemma_file_geometry_valid(encrypted);
        lemma_counts_bound(encrypted, n as int);
    }
    let ts = file_total_slices(n, encrypted);
    (ts + CLUSTER_CAP - 1) / CLUSTER_CAP
}

/// How many slices cluster `ci` holds.
pub open spec fn cluster_slice_count(g: Geometry, c: int, n: int, ci: int) -> int {
    min2(c, total_slices(g, n) - ci * c)
}

/// Slices of cluster `ci`: the cap, except for the trailing cluster.
pub fn file_cluster_slice_count(n: u64, encrypted: bool, ci: u64) -> (r: u64)
    requires
        n <= MAX_FILE_SIZE,
        (ci as int) < total_clusters(file_geometry(encrypted), CLUSTER_CAP as int, n as int),
    ensures
        r as int == cluster_slice_count(
            file_geometry(encrypted),
            CLUSTER_CAP as int,
            n as int,
            ci as int,
        ),
        1 <= r <= CLUSTER_CAP,
{
    proof {
        lemma_file_geometry_valid(encrypted);
        lemma_counts_bound(encrypted, n as int);
        let g = file_geometry(encrypted);
        let ts = total_slices(g, n as int);
        let tc = total_clusters(g, CLUSTER_CAP as int, n as int);
        lemma_ceil_div(ts, CLUSTER_CAP as int);
        assert(ci as int * (CLUSTER_CAP as int) <= (tc - 1) * (CLUSTER_CAP as int)
            < ts) by (nonlinear_arith)
            requires
                0 <= ci as int <= tc - 1,
                (tc - 1) * (CLUSTER_CAP as int) < ts,
                CLUSTER_CAP as int >= 1,
        ;
    }
    let ts = file_total_slices(n, encrypted);
    let used = ci * CLUSTER_CAP;
    if ts - used >= CLUSTER_CAP {
        CLUSTER_CAP
    } else {
        ts - used
    }
}

/// Stored size of cluster `ci`, as declared to the remote store before any
/// byte is sent.
pub fn file_cluster_stored_size(n: u64, encrypted: bool, ci: u64) -> (r: u64)
    requires
        0 < n <= MAX_FILE_SIZE,
        (ci as int) < total_clusters(file_geometry(encrypted), CLUSTER_CAP as int, n as int),
    ensures
        r as int == cluster_stored_size(
            file_geometry(encrypted),
            CLUSTER_CAP as int,
            n as int,
            ci as int,
        ),
        0 < r <= CLUSTER_SIZE,
{
    proof {
        lemma_file_geometry_valid(encrypted);
        lemma_counts_bound(encrypted, n as int);
        lemma_cluster_stored_size(
            file_geometry(encrypted),
            CLUSTER_CAP as int,
            n as int,
            ci as int,
        );
        assert(ci as int * (CLUSTER_SIZE as int) < 0x9_0000_0000_0000) by (nonlinear_arith)
            requires
                0 <= ci as int,
                ci as int * ((CLUSTER_CAP as int) * (SLICE_SIZE as int)) < stored_size(
                    file_geometry(encrypted),
                    n as int,
                ),
                stored_size(file_geometry(encrypted), n as int) < 0x9_0000_0000_0000,
        ;
    }
    let stored = stored_file_size(n, encrypted);
    let start = ci * CLUSTER_SIZE;
    if stored - start >= CLUSTER_SIZE {
        CLUSTER_SIZE
    } else {
        stored - start
    }
}

} // verus!
