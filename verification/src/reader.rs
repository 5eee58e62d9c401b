//! The read pipeline: a file is walked cluster by cluster, slice by slice,
//! buffer by buffer, producing the stored bytes to upload.
//!
//! The pipeline itself never touches the disk.  For each buffer it hands
//! out a [`BufferPlan`] — the file offset and length of one positioned
//! read — and is then fed the bytes that were read.  It checksums the
//! plaintext, encrypts it when a key is set, and returns the stored bytes.
//! The shell around the crate performs the reads and sends the results.

use crate::checksum::{crc_new, crc_update, hasher_bytes};
use crate::cipher::{aead_seal, nonce_seq, Cipher};
use crate::geometry::{
    buffer_plain_len, buffer_plain_start, cluster_slice_count, cluster_stored_size,
    file_cluster_slice_count, file_cluster_stored_size, file_geometry, file_total_clusters,
    file_total_slices, global_buffer_index, lemma_buffer_len_pos, lemma_ceil_div,
    lemma_ceil_div_monotone, lemma_counts_bound, lemma_file_geometry_valid,
    lemma_geometry_structure, min2, slice_buffer_count, stored_file_size, stored_size,
    total_clusters, total_slices, BUFFERS_PER_SLICE, BUFFER_SIZE, BYTES_PER_SLICE,
    CLUSTER_CAP, MAX_FILE_SIZE, RAW_BUFFER_SIZE, SLICE_SIZE,
};
use crc32fast::Hasher;
use vstd::prelude::*;

verus! {

/// One positioned read: `len` bytes at file offset `offset`, forming the
/// buffer with the given global index.
pub struct BufferPlan {
    pub offset: u64,
    pub len: u64,
    pub global_index: u64,
}

/// Walks a file's clusters in order.  A finite, non-restartable sequence:
/// after the last cluster every further call yields `None`.
pub struct Reader {
    key: Option<Vec<u8>>,
    slices: u64,
    clusters: u64,
    cluster: u64,
    file_size: u64,
    final_size: u64,
}

impl Reader {
    /// Whether this transfer encrypts.
    pub closed spec fn encrypted(&self) -> bool {
        self.key is Some
    }

    /// The plaintext file size.
    pub closed spec fn size(&self) -> int {
        self.file_size as int
    }

    /// The key bytes, when encryption is on; empty otherwise.
    pub closed spec fn key_view(&self) -> Seq<u8> {
        match self.key {
            Some(k) => k@,
            None => Seq::empty(),
        }
    }

    /// Index of the next cluster to hand out.
    pub closed spec fn at(&self) -> int {
        self.cluster as int
    }

    pub closed spec fn wf(&self) -> bool {
        &&& self.file_size <= MAX_FILE_SIZE
        &&& (self.key matches Some(k) ==> k@.len() == 32)
        &&& self.slices as int == total_slices(file_geometry(self.encrypted()), self.size())
        &&& self.clusters as int == total_clusters(
            file_geometry(self.encrypted()),
            CLUSTER_CAP as int,
            self.size(),
        )
        &&& self.final_size as int == stored_size(
            file_geometry(self.encrypted()),
            self.size(),
        )
        &&& self.cluster <= self.clusters
    }

    /// A pipeline over a file of `file_size` bytes; encrypts when `key`
    /// carries the file's 256-bit key.
    pub fn new(file_size: u64, key: Option<Vec<u8>>) -> (r: Reader)
        requires
            file_size <= MAX_FILE_SIZE,
            key matches Some(k) ==> k@.len() == 32,
        ensures
            r.wf(),
            r.encrypted() == (key is Some),
            r.size() == file_size,
            r.at() == 0,
            key matches Some(k) ==> r.key_view() == k@,
    {
        let encrypted = key.is_some();
        let slices = file_total_slices(file_size, encrypted);
        let clusters = file_total_clusters(file_size, encrypted);
        let final_size = stored_file_size(file_size, encrypted);
        Reader { key, slices, clusters, cluster: 0, file_size, final_size }
    }

    /// Total clusters of this file.
    pub fn cluster_count(&self) -> (r: u64)
        requires
            self.wf(),
        ensures
            r as int == total_clusters(
                file_geometry(self.encrypted()),
                CLUSTER_CAP as int,
                self.size(),
            ),
    {
        self.clusters
    }

    /// The plaintext file size.
    pub fn file_size(&self) -> (r: u64)
        requires
            self.wf(),
        ensures
            r as int == self.size(),
    {
        self.file_size
    }

    /// The next cluster, or `None` when the file is exhausted.
    pub fn next_cluster(&mut self) -> (r: Option<Cluster>)
        requires
            old(self).wf(),
        ensures
            final(self).wf(),
            final(self).encrypted() == old(self).encrypted(),
            final(self).size() == old(self).size(),
            final(self).key_view() == old(self).key_view(),
            old(self).at() == total_clusters(
                file_geometry(old(self).encrypted()),
                CLUSTER_CAP as int,
                old(self).size(),
            ) ==> r is None && final(self).at() == old(self).at(),
            old(self).at() < total_clusters(
                file_geometry(old(self).encrypted()),
                CLUSTER_CAP as int,
                old(self).size(),
            ) ==> (r matches Some(c) && {
                &&& final(self).at() == old(self).at() + 1
                &&& c.wf()
                &&& c.cluster_index() == old(self).at()
                &&& c.encrypted() == old(self).encrypted()
                &&& c.size() == old(self).size()
                &&& c.key_view() == old(self).key_view()
                &&& c.at() == 0
            }),
    {
        if self.cluster == self.clusters {
            return None;
        }
        let index = self.cluster;
        self.cluster = self.cluster + 1;
        let slices = file_cluster_slice_count(self.file_size, self.key.is_some(), index);
        let key = match &self.key {
            Some(k) => Some(clone_key(k)),
            None => None,
        };
        Some(
            Cluster {
                key,
                file_size: self.file_size,
                slices,
                slice: 0,
                index,
                final_size: self.final_size,
            },
        )
    }
}

/// Copies a key so that every cluster and slice owns its own.
fn clone_key(key: &Vec<u8>) -> (r: Vec<u8>)
    ensures
        r@ == key@,
{
    let mut k: Vec<u8> = Vec::new();
    let mut i: usize = 0;
    while i < key.len()
        invariant
            0 <= i <= key@.len(),
            k@ =~= key@.take(i as int),
        decreases key@.len() - i,
    {
        k.push(key[i]);
        i = i + 1;
    }
    proof {
        assert(key@.take(key@.len() as int) =~= key@);
    }
    k
}

/// One cluster of the read pipeline: up to `CLUSTER_CAP` slices, walked in
/// order.
pub struct Cluster {
    key: Option<Vec<u8>>,
    file_size: u64,
    slices: u64,
    slice: u64,
    /// Index of this cluster within the file.
    pub index: u64,
    final_size: u64,
}

impl Cluster {
    pub closed spec fn encrypted(&self) -> bool {
        self.key is Some
    }

    pub closed spec fn size(&self) -> int {
        self.file_size as int
    }

    pub closed spec fn key_view(&self) -> Seq<u8> {
        match self.key {
            Some(k) => k@,
            None => Seq::empty(),
        }
    }

    pub closed spec fn cluster_index(&self) -> int {
        self.index as int
    }

    /// Index of the next local slice to hand out.
    pub closed spec fn at(&self) -> int {
        self.slice as int
    }

    pub closed spec fn wf(&self) -> bool {
        &&& self.file_size <= MAX_FILE_SIZE
        &&& (self.key matches Some(k) ==> k@.len() == 32)
        &&& (self.index as int) < total_clusters(
            file_geometry(self.encrypted()),
            CLUSTER_CAP as int,
            self.size(),
        )
        &&& self.slices as int == cluster_slice_count(
            file_geometry(self.encrypted()),
            CLUSTER_CAP as int,
            self.size(),
            self.cluster_index(),
        )
        &&& self.final_size as int == stored_size(
            file_geometry(self.encrypted()),
            self.size(),
        )
        &&& self.slice <= self.slices
    }

    /// The stored byte size of this cluster, declared to the remote store
    /// when reserving upload slots, before any byte is read.
    pub fn get_size(&self) -> (r: u64)
        requires
            self.wf(),
        ensures
            r as int == cluster_stored_size(
                file_geometry(self.encrypted()),
                CLUSTER_CAP as int,
                self.size(),
                self.cluster_index(),
            ),
            r > 0,
    {
        proof {
            lemma_file_geometry_valid(self.encrypted());
            let g = file_geometry(self.encrypted());
            lemma_geometry_structure(g);
            lemma_ceil_div(total_slices(g, self.size()), CLUSTER_CAP as int);
            lemma_ceil_div(self.size(), g.bytes_per_slice());
            if self.file_size == 0 {
                assert(total_slices(g, 0) == 0);
                assert(total_clusters(g, CLUSTER_CAP as int, 0) == 0);
                assert(false);
            }
        }
        file_cluster_stored_size(self.file_size, self.key.is_some(), self.index)
    }

    /// The next slice of this cluster, or `None` when the cluster is
    /// exhausted.
    pub fn next_slice(&mut self) -> (r: Option<Slice>)
        requires
            old(self).wf(),
        ensures
            final(self).wf(),
            final(self).encrypted() == old(self).encrypted(),
            final(self).size() == old(self).size(),
            final(self).key_view() == old(self).key_view(),
            final(self).cluster_index() == old(self).cluster_index(),
            old(self).at() == cluster_slice_count(
                file_geometry(old(self).encrypted()),
                CLUSTER_CAP as int,
                old(self).size(),
                old(self).cluster_index(),
            ) ==> r is None && final(self).at() == old(self).at(),
            old(self).at() < cluster_slice_count(
                file_geometry(old(self).encrypted()),
                CLUSTER_CAP as int,
                old(self).size(),
                old(self).cluster_index(),
            ) ==> (r matches Some(s) && {
                &&& final(self).at() == old(self).at() + 1
                &&& s.wf()
                &&& s.slice_index() == old(self).cluster_index() * (CLUSTER_CAP as int)
                    + old(self).at()
                &&& s.encrypted() == old(self).encrypted()
                &&& s.size() == old(self).size()
                &&& s.key_view() == old(self).key_view()
                &&& s.at() == 0
                &&& s.processed() == Seq::<u8>::empty()
            }),
    {
        if self.slice == self.slices {
            return None;
        }
        proof {
            lemma_file_geometry_valid(self.encrypted());
            let g = file_geometry(self.encrypted());
            lemma_geometry_structure(g);
            lemma_counts_bound(self.encrypted(), self.size());
            lemma_ceil_div(total_slices(g, self.size()), CLUSTER_CAP as int);
            assert(self.index as int * (CLUSTER_CAP as int) + self.slices as int
                <= total_slices(g, self.size())) by (nonlinear_arith)
                requires
                    self.slices as int == min2(
                        CLUSTER_CAP as int,
                        total_slices(g, self.size()) - self.index as int * (
                        CLUSTER_CAP as int),
                    ),
            ;
            assert(self.index as int * (CLUSTER_CAP as int) >= 0) by (nonlinear_arith)
                requires
                    self.index >= 0,
            ;
            assert(self.index as int * (CLUSTER_CAP as int) < 0x1000_0000 * 10)
                by (nonlinear_arith)
                requires
                    0 <= (self.index as int) < 0x1000_0000,
            ;
            // The new slice exists, so it holds at least one byte and at
            // least one buffer.
            let si = self.index as int * (CLUSTER_CAP as int) + self.slice as int;
            let ts = total_slices(g, self.size());
            lemma_ceil_div(self.size(), g.bytes_per_slice());
            assert(si < ts);
            assert(si * g.bytes_per_slice() < self.size()) by (nonlinear_arith)
                requires
                    g.bytes_per_slice() > 0,
                    0 <= si <= ts - 1,
                    (ts - 1) * g.bytes_per_slice() < self.size(),
            ;
            lemma_ceil_div(
                min2(g.bytes_per_slice(), self.size() - si * g.bytes_per_slice()),
                g.raw_buffer_len(),
            );
            assert(slice_buffer_count(g, self.size(), si) >= 0);
        }
        let this_slice = self.index * CLUSTER_CAP + self.slice;
        self.slice = self.slice + 1;
        let cipher = match &self.key {
            Some(k) => Some(Cipher::new(k)),
            None => None,
        };
        Some(
            Slice {
                cipher,
                file_size: self.file_size,
                slice: this_slice,
                index: 0,
                crc: crc_new(),
                processed: Ghost(Seq::empty()),
            },
        )
    }
}

/// One slice of the read pipeline: a finite sequence of buffers.  For each
/// buffer, `plan_next` names the positioned read and `fill` consumes the
/// bytes read, updating the slice checksum and encrypting when a key is
/// set.
pub struct Slice {
    cipher: Option<Cipher>,
    file_size: u64,
    slice: u64,
    index: u64,
    crc: Hasher,
    processed: Ghost<Seq<u8>>,
}

impl Slice {
    pub closed spec fn encrypted(&self) -> bool {
        self.cipher is Some
    }

    pub closed spec fn size(&self) -> int {
        self.file_size as int
    }

    pub closed spec fn key_view(&self) -> Seq<u8> {
        match self.cipher {
            Some(c) => c@,
            None => Seq::empty(),
        }
    }

    /// Index of this slice within the file.
    pub closed spec fn slice_index(&self) -> int {
        self.slice as int
    }

    /// Index of the next buffer within this slice.
    pub closed spec fn at(&self) -> int {
        self.index as int
    }

    /// The plaintext bytes fed to this slice so far; exactly what its
    /// checksum covers.
    pub closed spec fn processed(&self) -> Seq<u8> {
        self.processed@
    }

    pub closed spec fn wf(&self) -> bool {
        &&& self.file_size <= MAX_FILE_SIZE
        &&& (self.cipher matches Some(c) ==> c.wf())
        &&& self.slice_index() < total_slices(
            file_geometry(self.encrypted()),
            self.size(),
        )
        &&& self.at() <= slice_buffer_count(
            file_geometry(self.encrypted()),
            self.size(),
            self.slice_index(),
        )
        &&& hasher_bytes(self.crc) == self.processed@
    }

    /// The positioned read for the next buffer, or `None` when the slice
    /// is exhausted.
    pub fn plan_next(&self) -> (r: Option<BufferPlan>)
        requires
            self.wf(),
        ensures
            self.at() == slice_buffer_count(
                file_geometry(self.encrypted()),
                self.size(),
                self.slice_index(),
            ) ==> r is None,
            self.at() < slice_buffer_count(
                file_geometry(self.encrypted()),
                self.size(),
                self.slice_index(),
            ) ==> (r matches Some(p) && {
                let g = file_geometry(self.encrypted());
                &&& p.offset as int == buffer_plain_start(g, self.slice_index(), self.at())
                &&& p.len as int == buffer_plain_len(
                    g,
                    self.size(),
                    self.slice_index(),
                    self.at(),
                )
                &&& p.len > 0
                &&& p.global_index as int == global_buffer_index(
                    g,
                    self.slice_index(),
                    self.at(),
                )
            }),
    {
        proof {
            lemma_file_geometry_valid(self.encrypted());
            lemma_counts_bound(self.encrypted(), self.size());
            let g = file_geometry(self.encrypted());
            lemma_geometry_structure(g);
            assert(self.slice as int * (g.bytes_per_slice()) >= 0) by (nonlinear_arith)
                requires
                    self.slice as int >= 0,
                    g.bytes_per_slice() > 0,
            ;
            assert(self.slice as int * (g.bytes_per_slice()) < 0x1000_0000 * 0x2000000)
                by (nonlinear_arith)
                requires
                    0 <= (self.slice as int) < 0x1000_0000,
                    0 < g.bytes_per_slice() <= 0x2000000,
            ;
        }
        let g_bps = if self.cipher.is_some() {
            BYTES_PER_SLICE
        } else {
            SLICE_SIZE
        };
        let g_rbs = if self.cipher.is_some() {
            RAW_BUFFER_SIZE
        } else {
            BUFFER_SIZE
        };
        let count = self.buffer_count();
        if self.index == count {
            return None;
        }
        proof {
            lemma_buffer_len_pos(
                file_geometry(self.encrypted()),
                self.size(),
                self.slice_index(),
                self.at(),
            );
        }
        let offset = self.slice * g_bps + self.index * g_rbs;
        let in_slice = g_bps - self.index * g_rbs;
        let len1 = if g_rbs <= in_slice {
            g_rbs
        } else {
            in_slice
        };
        let remaining = self.file_size - offset;
        let len = if len1 <= remaining {
            len1
        } else {
            remaining
        };
        let global_index = self.slice * BUFFERS_PER_SLICE + self.index;
        Some(BufferPlan { offset, len, global_index })
    }

    /// How many buffers this slice emits.
    fn buffer_count(&self) -> (r: u64)
        requires
            self.wf(),
        ensures
            r as int == slice_buffer_count(
                file_geometry(self.encrypted()),
                self.size(),
                self.slice_index(),
            ),
            r <= BUFFERS_PER_SLICE,
    {
        proof {
            lemma_file_geometry_valid(self.encrypted());
            let g = file_geometry(self.encrypted());
            lemma_geometry_structure(g);
            lemma_counts_bound(self.encrypted(), self.size());
            let ts = total_slices(g, self.size());
            lemma_ceil_div(self.size(), g.bytes_per_slice());
            assert(self.size() > 0);
            assert(self.slice_index() * g.bytes_per_slice() < self.size())
                by (nonlinear_arith)
                requires
                    g.bytes_per_slice() > 0,
                    0 <= self.slice_index() <= ts - 1,
                    (ts - 1) * g.bytes_per_slice() < self.size(),
            ;
            assert(self.slice as int * g.bytes_per_slice() >= 0) by (nonlinear_arith)
                requires
                    self.slice as int >= 0,
                    g.bytes_per_slice() > 0,
            ;
        }
        let g_bps = if self.cipher.is_some() {
            BYTES_PER_SLICE
        } else {
            SLICE_SIZE
        };
        let g_rbs = if self.cipher.is_some() {
            RAW_BUFFER_SIZE
        } else {
            BUFFER_SIZE
        };
        let start = self.slice * g_bps;
        let plain = if g_bps <= self.file_size - start {
            g_bps
        } else {
            self.file_size - start
        };
        proof {
            let g = file_geometry(self.encrypted());
            lemma_geometry_structure(g);
            let sl = min2(g.bytes_per_slice(), self.size() - self.slice_index()
                * g.bytes_per_slice());
            let cnt = slice_buffer_count(file_geometry(self.encrypted()), self.size(),
                self.slice_index());
            assert(cnt <= g.bufs_per_slice()) by {
                lemma_ceil_div_monotone(sl, g.bytes_per_slice(), g.raw_buffer_len());
                let cb = crate::geometry::ceil_div(g.bytes_per_slice(), g.raw_buffer_len());
                lemma_ceil_div(g.bytes_per_slice(), g.raw_buffer_len());
                assert(cb <= g.bufs_per_slice()) by (nonlinear_arith)
                    requires
                        g.raw_buffer_len() > 0,
                        (cb - 1) * g.raw_buffer_len() < g.bytes_per_slice(),
                        g.bytes_per_slice() <= g.bufs_per_slice() * g.raw_buffer_len(),
                ;
            }
        }
        (plain + g_rbs - 1) / g_rbs
    }

    /// Consumes the bytes of one positioned read: checksums the plaintext,
    /// encrypts it when a key is set, and returns the stored bytes to
    /// upload.
    pub fn fill(&mut self, data: Vec<u8>) -> (r: Vec<u8>)
        requires
            old(self).wf(),
            old(self).at() < slice_buffer_count(
                file_geometry(old(self).encrypted()),
                old(self).size(),
                old(self).slice_index(),
            ),
            data@.len() == buffer_plain_len(
                file_geometry(old(self).encrypted()),
                old(self).size(),
                old(self).slice_index(),
                old(self).at(),
            ),
        ensures
            final(self).wf(),
            final(self).encrypted() == old(self).encrypted(),
            final(self).size() == old(self).size(),
            final(self).key_view() == old(self).key_view(),
            final(self).slice_index() == old(self).slice_index(),
            final(self).at() == old(self).at() + 1,
            final(self).processed() == old(self).processed() + data@,
            old(self).encrypted() ==> r@ == aead_seal(
                old(self).key_view(),
                nonce_seq(
                    global_buffer_index(
                        file_geometry(old(self).encrypted()),
                        old(self).slice_index(),
                        old(self).at(),
                    ) as u64,
                ),
                data@,
            ) && r@.len() == data@.len() + 16,
            !old(self).encrypted() ==> r@ == data@,
    {
        proof {
            lemma_file_geometry_valid(self.encrypted());
            lemma_counts_bound(self.encrypted(), self.size());
            lemma_buffer_len_pos(
                file_geometry(self.encrypted()),
                self.size(),
                self.slice_index(),
                self.at(),
            );
            let g = file_geometry(self.encrypted());
            assert(self.slice as int * (BUFFERS_PER_SLICE as int) >= 0)
                by (nonlinear_arith)
                requires
                    self.slice as int >= 0,
            ;
            assert(self.slice as int * (BUFFERS_PER_SLICE as int) < 0x1000_0000 * 25)
                by (nonlinear_arith)
                requires
                    0 <= (self.slice as int) < 0x1000_0000,
            ;
        }
        crc_update(&mut self.crc, data.as_slice());
        proof {
            self.processed@ = self.processed@ + data@;
        }
        let global_index = self.slice * BUFFERS_PER_SLICE + self.index;
        self.index = self.index + 1;
        match &self.cipher {
            Some(c) => c.encrypt(data, global_index),
            None => data,
        }
    }

    /// Closes an exhausted slice, delivering its index and checksum state
    /// for the aggregator.  The state covers exactly the plaintext fed.
    pub fn finish(self) -> (r: (u64, Hasher))
        requires
            self.wf(),
            self.at() == slice_buffer_count(
                file_geometry(self.encrypted()),
                self.size(),
                self.slice_index(),
            ),
        ensures
            r.0 as int == self.slice_index(),
            hasher_bytes(r.1) == self.processed(),
    {
        (self.slice, self.crc)
    }
}

} // verus!
