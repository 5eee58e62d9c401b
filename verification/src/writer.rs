//! The write pipeline: downloaded stored bytes are cut back into buffers,
//! decrypted when a key is set, checksummed, and turned into positioned
//! writes at the offsets the geometry assigns.
//!
//! The pipeline itself performs no network or file I/O.  A [`SliceSink`]
//! is fed the byte chunks of one remote slice as they arrive; it
//! accumulates them into full stored buffers, decrypts each under the
//! nonce of its global buffer index, and hands back [`WriteCmd`]s — the
//! positioned writes the shell must perform.  Slices and clusters finish
//! in any order; correctness lives in the offsets, not in timing.

use crate::checksum::{crc_new, crc_update, hasher_bytes};
use crate::cipher::{aead_seal, nonce_seq, Cipher, MAX_PLAINTEXT};
use crate::errors::CryptoError;
use crate::geometry::{
    file_geometry, lemma_div_range, lemma_file_geometry_valid, BUFFERS_PER_SLICE,
    BUFFER_SIZE, BYTES_PER_SLICE, CLUSTER_CAP, RAW_BUFFER_SIZE, SLICE_SIZE,
};
use crc32fast::Hasher;
use vstd::prelude::*;
use vstd::slice::{slice_index_get, slice_subrange};

verus! {

/// One positioned write: `data` goes to file offset `offset`.
pub struct WriteCmd {
    pub offset: u64,
    pub data: Vec<u8>,
}

/// Stored-byte segment `j` of a slice's byte stream: the bytes of its
/// `j`-th stored buffer.
pub open spec fn stored_seg(stored: Seq<u8>, j: int) -> Seq<u8> {
    stored.subrange(j * (BUFFER_SIZE as int), (j + 1) * (BUFFER_SIZE as int))
}

/// What buffer `gbi` looks like in storage: its plaintext, sealed when a
/// key is set.
pub open spec fn enc_of(key: Option<Seq<u8>>, gbi: u64, plain: Seq<u8>) -> Seq<u8> {
    match key {
        Some(k) => aead_seal(k, nonce_seq(gbi), plain),
        None => plain,
    }
}

/// The file offset buffer `j` of slice `si` is written at.
pub open spec fn write_offset(encrypted: bool, si: int, j: int) -> int {
    si * file_geometry(encrypted).bytes_per_slice() + j * file_geometry(
        encrypted,
    ).raw_buffer_len()
}

/// A write command carries buffer `j` of slice `si` correctly: its target
/// is that buffer's offset, and the stored segment it came from is its
/// data, sealed when a key is set.
pub open spec fn cmd_matches(
    key: Option<Seq<u8>>,
    si: int,
    j: int,
    seg: Seq<u8>,
    cmd: WriteCmd,
) -> bool {
    &&& cmd.offset as int == write_offset(key is Some, si, j)
    &&& seg == enc_of(key, (si * (BUFFERS_PER_SLICE as int) + j) as u64, cmd.data@)
}

/// The plaintext a run of write commands carries, in order.
pub open spec fn concat_cmds(cmds: Seq<WriteCmd>) -> Seq<u8>
    decreases cmds.len(),
{
    if cmds.len() == 0 {
        Seq::empty()
    } else {
        concat_cmds(cmds.drop_last()) + cmds.last().data@
    }
}

/// Every full stored buffer of the stream, from buffer index `from` on,
/// authenticates: it is the sealing of some plaintext under the slice's
/// key and that buffer's nonce.  A stream a well-behaved store serves is
/// authentic from its first buffer; one corrupted in transit is not.
pub open spec fn segs_authentic(
    key: Option<Seq<u8>>,
    si: int,
    stored: Seq<u8>,
    from: int,
) -> bool {
    forall|j: int|
        from <= j < stored.len() as int / (BUFFER_SIZE as int) ==> exists|p: Seq<u8>|
            p.len() <= MAX_PLAINTEXT && #[trigger] stored_seg(stored, j) == enc_of(
                key,
                (si * (BUFFERS_PER_SLICE as int) + j) as u64,
                p,
            )
}

/// Builds download clusters for one file being written.
pub struct Writer {
    key: Option<Vec<u8>>,
    do_checksum: bool,
}

impl Writer {
    pub closed spec fn encrypted(&self) -> bool {
        self.key is Some
    }

    pub closed spec fn key_view(&self) -> Seq<u8> {
        match self.key {
            Some(k) => k@,
            None => Seq::empty(),
        }
    }

    pub closed spec fn checksummed(&self) -> bool {
        self.do_checksum
    }

    pub closed spec fn wf(&self) -> bool {
        self.key matches Some(k) ==> k@.len() == 32
    }

    /// A write pipeline; decrypts when `key` carries the file's 256-bit
    /// key, and accumulates per-slice checksums when `do_checksum` is set.
    pub fn new(key: Option<Vec<u8>>, do_checksum: bool) -> (r: Writer)
        requires
            key matches Some(k) ==> k@.len() == 32,
        ensures
            r.wf(),
            r.encrypted() == (key is Some),
            r.checksummed() == do_checksum,
            key matches Some(k) ==> r.key_view() == k@,
    {
        Writer { key, do_checksum }
    }

    /// One downloadable cluster, bound to the remote object locations of
    /// its slices, in slice order.
    pub fn cluster(&self, index: u64, download_urls: Vec<String>) -> (r: Cluster)
        requires
            self.wf(),
            index < 0x800_0000,
        ensures
            r.wf(),
            r.cluster_index() == index,
            r.urls_view() == download_urls@,
            r.encrypted() == self.encrypted(),
            r.encrypted() ==> r.key_view() == self.key_view(),
            r.checksummed() == self.checksummed(),
    {
        let key = match &self.key {
            Some(k) => Some(copy_bytes(k)),
            None => None,
        };
        Cluster { key, do_checksum: self.do_checksum, index, urls: download_urls }
    }
}

/// Copies a key so that every cluster and sink owns its own.
fn copy_bytes(key: &Vec<u8>) -> (r: Vec<u8>)
    ensures
        r@ == key@,
{
    let mut k: Vec<u8> = Vec::new();
    let mut i: usize = 0;
    while i < key.len()
        invariant
            0 <= i <= key@.len(),
            k@ =~= key@.take(i as int),
        decreases key@.len() - i,
    {
        k.push(key[i]);
        i = i + 1;
    }
    proof {
        assert(key@.take(key@.len() as int) =~= key@);
    }
    k
}

/// One downloadable cluster: remote object locations for its slices, in
/// slice order within the cluster.
pub struct Cluster {
    key: Option<Vec<u8>>,
    do_checksum: bool,
    /// Index of this cluster within the file.
    pub index: u64,
    /// One remote location per slice, in slice order.
    pub urls: Vec<String>,
}

impl Cluster {
    pub closed spec fn encrypted(&self) -> bool {
        self.key is Some
    }

    pub closed spec fn key_view(&self) -> Seq<u8> {
        match self.key {
            Some(k) => k@,
            None => Seq::empty(),
        }
    }

    pub closed spec fn checksummed(&self) -> bool {
        self.do_checksum
    }

    pub closed spec fn cluster_index(&self) -> int {
        self.index as int
    }

    /// The remote locations this cluster downloads, in slice order.
    pub closed spec fn urls_view(&self) -> Seq<String> {
        self.urls@
    }

    pub closed spec fn wf(&self) -> bool {
        &&& (self.key matches Some(k) ==> k@.len() == 32)
        &&& self.index < 0x800_0000
    }

    /// The sink for local slice `local` of this cluster.  Its slices are
    /// downloaded concurrently; each sink is independent.
    pub fn slice_sink(&self, local: u64) -> (r: SliceSink)
        requires
            self.wf(),
            local < CLUSTER_CAP,
        ensures
            r.wf(),
            r.slice_index() == self.cluster_index() * (CLUSTER_CAP as int) + local,
            r.encrypted() == self.encrypted(),
            r.encrypted() ==> r.key_view() == self.key_view(),
            r.checksummed() == self.checksummed(),
            r.received() == Seq::<u8>::empty(),
            r.written() == Seq::<u8>::empty(),
            r.done() == 0,
    {
        proof {
            assert(self.index as int * (CLUSTER_CAP as int) < 0x800_0000 * 10)
                by (nonlinear_arith)
                requires
                    0 <= (self.index as int) < 0x800_0000,
            ;
            assert(self.index as int * (CLUSTER_CAP as int) >= 0) by (nonlinear_arith)
                requires
                    self.index as int >= 0,
            ;
        }
        let slice = self.index * CLUSTER_CAP + local;
        let cipher = match &self.key {
            Some(k) => Some(Cipher::new(k)),
            None => None,
        };
        let crc = if self.do_checksum {
            Some(crc_new())
        } else {
            None
        };
        proof {
            assert(Seq::<u8>::empty().skip(0) =~= Seq::<u8>::empty());
        }
        SliceSink {
            cipher,
            slice,
            buffers_done: 0,
            buffer: Vec::new(),
            crc,
            received: Ghost(Seq::empty()),
            written: Ghost(Seq::empty()),
        }
    }
}

/// Consumes the downloaded byte stream of one slice and produces the
/// positioned writes of its buffers.
pub struct SliceSink {
    cipher: Option<Cipher>,
    slice: u64,
    buffers_done: u64,
    buffer: Vec<u8>,
    crc: Option<Hasher>,
    received: Ghost<Seq<u8>>,
    written: Ghost<Seq<u8>>,
}

impl SliceSink {
    pub closed spec fn encrypted(&self) -> bool {
        self.cipher is Some
    }

    pub closed spec fn key_view(&self) -> Seq<u8> {
        match self.cipher {
            Some(c) => c@,
            None => Seq::empty(),
        }
    }

    /// The key as the segment relation sees it.
    pub closed spec fn key_opt(&self) -> Option<Seq<u8>> {
        match self.cipher {
            Some(c) => Some(c@),
            None => None,
        }
    }

    pub closed spec fn checksummed(&self) -> bool {
        self.crc is Some
    }

    /// Index of this slice within the file.
    pub closed spec fn slice_index(&self) -> int {
        self.slice as int
    }

    /// The stored bytes fed so far.
    pub closed spec fn received(&self) -> Seq<u8> {
        self.received@
    }

    /// The plaintext bytes handed back as write commands so far, trailing
    /// partial buffer excluded.
    pub closed spec fn written(&self) -> Seq<u8> {
        self.written@
    }

    /// Full stored buffers processed so far.
    pub closed spec fn done(&self) -> int {
        self.buffers_done as int
    }

    pub closed spec fn wf(&self) -> bool {
        let b = BUFFER_SIZE as int;
        let rbs = file_geometry(self.encrypted()).raw_buffer_len();
        &&& (self.cipher matches Some(c) ==> c.wf())
        &&& self.slice < 0xA000_0000
        &&& self.buffer@.len() < BUFFER_SIZE
        &&& self.buffers_done <= BUFFERS_PER_SLICE
        &&& self.received@.len() == self.done() * b + self.buffer@.len()
        &&& self.buffer@ == self.received@.skip(self.done() * b)
        &&& self.written@.len() == self.done() * rbs
        &&& (forall|j: int|
            0 <= j < self.done() ==> stored_seg(self.received@, j) == enc_of(
                self.key_opt(),
                (self.slice_index() * (BUFFERS_PER_SLICE as int) + j) as u64,
                #[trigger] self.written@.subrange(j * rbs, (j + 1) * rbs),
            ))
        &&& (self.crc matches Some(h) ==> hasher_bytes(h) == self.written@)
    }

    /// Feeds one downloaded chunk.  Every stored buffer completed by it is
    /// decrypted (when a key is set), checksummed, and returned as the
    /// positioned write of that buffer.
    pub fn push_chunk(&mut self, chunk: &[u8]) -> (r: Result<Vec<WriteCmd>, CryptoError>)
        requires
            old(self).wf(),
            old(self).received().len() + chunk@.len() <= SLICE_SIZE,
        ensures
            final(self).encrypted() == old(self).encrypted(),
            final(self).key_opt() == old(self).key_opt(),
            final(self).checksummed() == old(self).checksummed(),
            final(self).slice_index() == old(self).slice_index(),
            r matches Ok(cmds) ==> {
                &&& final(self).wf()
                &&& final(self).received() == old(self).received() + chunk@
                &&& final(self).done() >= old(self).done()
                &&& final(self).done() == final(self).received().len() as int / (
                BUFFER_SIZE as int)
                &&& cmds@.len() == final(self).done() - old(self).done()
                &&& final(self).written() == old(self).written() + concat_cmds(cmds@)
                &&& (forall|i: int|
                    0 <= i < cmds@.len() ==> cmd_matches(
                        old(self).key_opt(),
                        old(self).slice_index(),
                        old(self).done() + i,
                        stored_seg(final(self).received(), old(self).done() + i),
                        #[trigger] cmds@[i],
                    ))
            },
            r is Err ==> old(self).encrypted(),
            segs_authentic(
                old(self).key_opt(),
                old(self).slice_index(),
                old(self).received() + chunk@,
                old(self).done(),
            ) ==> r is Ok,
    {
        let ghost g = file_geometry(old(self).encrypted());
        let ghost rbs = g.raw_buffer_len();
        let ghost b = BUFFER_SIZE as int;
        proof {
            lemma_file_geometry_valid(old(self).encrypted());
        }
        let mut cmds: Vec<WriteCmd> = Vec::new();
        let mut cursor: usize = 0;
        while cursor < chunk.len()
            invariant
                self.wf(),
                self.encrypted() == old(self).encrypted(),
                self.key_opt() == old(self).key_opt(),
                self.checksummed() == old(self).checksummed(),
                self.slice_index() == old(self).slice_index(),
                g == file_geometry(old(self).encrypted()),
                rbs == g.raw_buffer_len(),
                b == BUFFER_SIZE as int,
                0 <= cursor <= chunk@.len(),
                old(self).received().len() + chunk@.len() <= SLICE_SIZE,
                self.received@ == old(self).received() + chunk@.take(cursor as int),
                self.written@ == old(self).written() + concat_cmds(cmds@),
                self.done() >= old(self).done(),
                cmds@.len() == self.done() - old(self).done(),
                forall|i: int|
                    0 <= i < cmds@.len() ==> cmd_matches(
                        old(self).key_opt(),
                        old(self).slice_index(),
                        old(self).done() + i,
                        stored_seg(self.received@, old(self).done() + i),
                        #[trigger] cmds@[i],
                    ),
            decreases chunk@.len() - cursor,
        {
            let ghost received_at_top = self.received@;
            let space = BUFFER_SIZE as usize - self.buffer.len();
            let left = chunk.len() - cursor;
            let available = if space <= left {
                space
            } else {
                left
            };
            let part = slice_subrange(chunk, cursor, cursor + available);
            append_bytes(&mut self.buffer, part);
            proof {
                self.received@ = self.received@ + part@;
                assert(chunk@.take(cursor as int) + part@ =~= chunk@.take(
                    cursor + available,
                ));
                assert(self.received@ =~= old(self).received() + chunk@.take(
                    (cursor + available) as int,
                ));
                assert(self.buffer@ =~= self.received@.skip(self.done() * b));
                // Segments already processed are below the old length and
                // unchanged by the append.
                assert forall|j: int| 0 <= j < self.done() implies #[trigger] stored_seg(
                    self.received@,
                    j,
                ) == stored_seg(received_at_top, j) by {
                    assert((j + 1) * b <= self.done() * b && 0 <= j * b <= (j + 1) * b)
                        by (nonlinear_arith)
                        requires
                            0 <= j,
                            j + 1 <= self.done(),
                            b > 0,
                    ;
                    assert(self.done() * b <= received_at_top.len());
                    assert(stored_seg(self.received@, j) =~= stored_seg(
                        received_at_top,
                        j,
                    ));
                }
            }
            cursor = cursor + available;
            if self.buffer.len() == BUFFER_SIZE as usize {
                let ghost done_pre = self.done();
                let ghost written_pre = self.written@;
                let ghost cmds_pre = cmds@;
                proof {
                    assert(self.done() * b + b <= 25 * b) by {
                        assert(self.received@.len() <= SLICE_SIZE);
                    }
                    assert(self.done() < 25) by (nonlinear_arith)
                        requires
                            self.done() * b + b <= 25 * b,
                            b > 0,
                            self.done() >= 0,
                    ;
                    assert(self.slice as int * (BUFFERS_PER_SLICE as int) + self.done()
                        < 0xA000_0000 * 25 + 25) by (nonlinear_arith)
                        requires
                            0 <= (self.slice as int) < 0xA000_0000,
                            0 <= self.done() <= 25,
                    ;
                    assert(self.slice as int * (BUFFERS_PER_SLICE as int) >= 0)
                        by (nonlinear_arith)
                        requires
                            self.slice as int >= 0,
                    ;
                }
                let gbi = self.slice * BUFFERS_PER_SLICE + self.buffers_done;
                let mut data: Vec<u8> = Vec::new();
                core::mem::swap(&mut data, &mut self.buffer);
                proof {
                    assert(data@ =~= stored_seg(self.received@, done_pre));
                }
                let plain: Vec<u8> = match &self.cipher {
                    Some(c) => {
                        match c.decrypt(data, gbi) {
                            Ok(p) => p,
                            Err(e) => {
                                proof {
                                    // This buffer authenticates under no
                                    // plaintext, so the stream is not
                                    // authentic: the success-owed clause
                                    // asks nothing here.
                                    let full = old(self).received() + chunk@;
                                    let si = old(self).slice_index();
                                    let key0 = old(self).key_opt();
                                    assert(self.received@.len() <= full.len()) by {
                                        assert(chunk@.take(cursor as int).len()
                                            <= chunk@.len());
                                    }
                                    assert((done_pre + 1) * b == done_pre * b + b)
                                        by (nonlinear_arith);
                                    assert(stored_seg(full, done_pre) =~= stored_seg(
                                        self.received@,
                                        done_pre,
                                    ));
                                    vstd::arithmetic::div_mod::lemma_fundamental_div_mod(
                                        full.len() as int,
                                        b,
                                    );
                                    assert(full.len() as int / b > done_pre)
                                        by (nonlinear_arith)
                                        requires
                                            b > 0,
                                            (done_pre + 1) * b <= full.len(),
                                            full.len() as int == b * (full.len() as int
                                                / b) + full.len() as int % b,
                                            0 <= full.len() as int % b < b,
                                    ;
                                    assert(gbi as int == si * (
                                    BUFFERS_PER_SLICE as int) + done_pre);
                                    if segs_authentic(key0, si, full, old(self).done()) {
                                        assert(exists|p: Seq<u8>|
                                            p.len() <= MAX_PLAINTEXT && stored_seg(
                                                full,
                                                done_pre,
                                            ) == enc_of(
                                                key0,
                                                (si * (BUFFERS_PER_SLICE as int)
                                                    + done_pre) as u64,
                                                p,
                                            ));
                                        let p = choose|p: Seq<u8>|
                                            p.len() <= MAX_PLAINTEXT && stored_seg(
                                                full,
                                                done_pre,
                                            ) == enc_of(
                                                key0,
                                                (si * (BUFFERS_PER_SLICE as int)
                                                    + done_pre) as u64,
                                                p,
                                            );
                                        assert(data@ == aead_seal(
                                            c@,
                                            nonce_seq(gbi),
                                            p,
                                        ));
                                        assert(false);
                                    }
                                }
                                return Err(e);
                            },
                        }
                    },
                    None => data,
                };
                proof {
                    assert(plain@.len() == rbs);
                }
                match &mut self.crc {
                    Some(h) => crc_update(h, plain.as_slice()),
                    None => {},
                }
                let offset_base = if self.cipher.is_some() {
                    BYTES_PER_SLICE
                } else {
                    SLICE_SIZE
                };
                let offset_step = if self.cipher.is_some() {
                    RAW_BUFFER_SIZE
                } else {
                    BUFFER_SIZE
                };
                proof {
                    assert(self.slice as int * g.bytes_per_slice() < 0xA000_0000
                        * 0x2000000) by (nonlinear_arith)
                        requires
                            0 <= (self.slice as int) < 0xA000_0000,
                            0 < g.bytes_per_slice() <= 0x2000000,
                    ;
                    assert(self.slice as int * g.bytes_per_slice() >= 0)
                        by (nonlinear_arith)
                        requires
                            self.slice as int >= 0,
                            g.bytes_per_slice() > 0,
                    ;
                    assert(done_pre * rbs + rbs <= 25 * rbs && done_pre * rbs >= 0)
                        by (nonlinear_arith)
                        requires
                            0 <= done_pre < 25,
                            rbs > 0,
                    ;
                }
                let offset = self.slice * offset_base + self.buffers_done * offset_step;
                proof {
                    self.written@ = self.written@ + plain@;
                }
                self.buffers_done = self.buffers_done + 1;
                cmds.push(WriteCmd { offset, data: plain });
                proof {
                    let cmd = cmds@.last();
                    assert(concat_cmds(cmds@) == concat_cmds(cmds_pre) + cmd.data@) by {
                        assert(cmds@.drop_last() =~= cmds_pre);
                    }
                    assert(self.written@ =~= old(self).written() + concat_cmds(cmds@));
                    assert((done_pre + 1) * b == done_pre * b + b) by (nonlinear_arith);
                    assert((done_pre + 1) * rbs == done_pre * rbs + rbs)
                        by (nonlinear_arith);
                    assert(self.buffer@ =~= self.received@.skip(self.done() * b));
                    // Earlier written parts are unchanged by the append.
                    assert forall|j: int| 0 <= j < done_pre implies #[trigger] self
                        .written@.subrange(j * rbs, (j + 1) * rbs) == written_pre
                        .subrange(j * rbs, (j + 1) * rbs) by {
                        assert((j + 1) * rbs <= done_pre * rbs && 0 <= j * rbs <= (j + 1)
                            * rbs) by (nonlinear_arith)
                            requires
                                0 <= j,
                                j + 1 <= done_pre,
                                rbs > 0,
                        ;
                        assert(self.written@.subrange(j * rbs, (j + 1) * rbs)
                            =~= written_pre.subrange(j * rbs, (j + 1) * rbs));
                    }
                    // The new segment decodes to the new written part.
                    assert(self.written@.subrange(done_pre * rbs, (done_pre + 1) * rbs)
                        =~= plain@);
                    assert(stored_seg(self.received@, done_pre) == enc_of(
                        self.key_opt(),
                        (self.slice_index() * (BUFFERS_PER_SLICE as int)
                            + done_pre) as u64,
                        plain@,
                    ));
                    assert(cmd_matches(
                        old(self).key_opt(),
                        old(self).slice_index(),
                        done_pre,
                        stored_seg(self.received@, done_pre),
                        cmd,
                    ));
                }
            }
        }
        proof {
            assert(chunk@.take(chunk@.len() as int) =~= chunk@);
            assert((self.done() + 1) * b == self.done() * b + b) by (nonlinear_arith);
            lemma_div_range(self.received@.len() as int, b, self.done());
        }
        Ok(cmds)
    }

    /// Closes the slice: flushes (and, with a key, decrypts) the trailing
    /// partial buffer as one last write, and delivers the slice's checksum
    /// state when checksumming is on.
    pub fn finish(self) -> (r: Result<(Vec<WriteCmd>, Option<(u64, Hasher)>), CryptoError>)
        requires
            self.wf(),
        ensures
            r matches Ok(p) ==> {
                let cmds = p.0;
                let crcr = p.1;
                &&& (self.received().len() == self.done() * (BUFFER_SIZE as int)
                    ==> cmds@.len() == 0)
                &&& (self.received().len() > self.done() * (BUFFER_SIZE as int) ==> {
                    &&& cmds@.len() == 1
                    &&& cmd_matches(
                        self.key_opt(),
                        self.slice_index(),
                        self.done(),
                        self.received().skip(self.done() * (BUFFER_SIZE as int)),
                        cmds@[0],
                    )
                })
                &&& (self.checksummed() ==> (crcr matches Some(q) && q.0 as int
                    == self.slice_index() && hasher_bytes(q.1) == self.written()
                    + concat_cmds(cmds@)))
                &&& (!self.checksummed() ==> crcr is None)
            },
            r is Err ==> self.encrypted(),
            ({
                let trailing = self.received().skip(self.done() * (BUFFER_SIZE as int));
                trailing.len() == 0 || (exists|p: Seq<u8>|
                    p.len() <= MAX_PLAINTEXT && trailing == #[trigger] enc_of(
                        self.key_opt(),
                        (self.slice_index() * (BUFFERS_PER_SLICE as int)
                            + self.done()) as u64,
                        p,
                    ))
            }) ==> r is Ok,
    {
        let ghost b = BUFFER_SIZE as int;
        proof {
            lemma_file_geometry_valid(self.encrypted());
        }
        let SliceSink { cipher, slice, buffers_done, buffer, crc, received, written } =
            self;
        let ghost g = file_geometry(cipher is Some);
        let ghost rbs = g.raw_buffer_len();
        let mut cmds: Vec<WriteCmd> = Vec::new();
        let mut crc = crc;
        if buffer.len() > 0 {
            proof {
                assert(slice as int * (BUFFERS_PER_SLICE as int) + (buffers_done as int)
                    < 0xA000_0000 * 25 + 26) by (nonlinear_arith)
                    requires
                        0 <= (slice as int) < 0xA000_0000,
                        0 <= buffers_done as int <= 25,
                ;
                assert(slice as int * (BUFFERS_PER_SLICE as int) >= 0)
                    by (nonlinear_arith)
                    requires
                        slice as int >= 0,
                ;
                assert(slice as int * g.bytes_per_slice() < 0xA000_0000 * 0x2000000)
                    by (nonlinear_arith)
                    requires
                        0 <= (slice as int) < 0xA000_0000,
                        0 < g.bytes_per_slice() <= 0x2000000,
                ;
                assert(slice as int * g.bytes_per_slice() >= 0) by (nonlinear_arith)
                    requires
                        slice as int >= 0,
                        g.bytes_per_slice() > 0,
                ;
                assert(buffers_done as int * rbs + rbs <= 26 * rbs && buffers_done as int
                    * rbs >= 0) by (nonlinear_arith)
                    requires
                        0 <= buffers_done as int <= 25,
                        rbs > 0,
                ;
            }
            let gbi = slice * BUFFERS_PER_SLICE + buffers_done;
            let ghost trailing = buffer@;
            proof {
                assert(trailing == received@.skip(buffers_done as int * b));
                assert(gbi as int == self.slice_index() * (BUFFERS_PER_SLICE as int)
                    + self.done());
            }
            let plain: Vec<u8> = match &cipher {
                Some(c) => {
                    match c.decrypt(buffer, gbi) {
                        Ok(p) => p,
                        Err(e) => {
                            proof {
                                // The trailing buffer is non-empty and
                                // authenticates under no plaintext, so the
                                // success-owed clause asks nothing here.
                                if exists|p: Seq<u8>|
                                    p.len() <= MAX_PLAINTEXT && trailing == enc_of(
                                        self.key_opt(),
                                        gbi,
                                        p,
                                    ) {
                                    let p = choose|p: Seq<u8>|
                                        p.len() <= MAX_PLAINTEXT && trailing == enc_of(
                                            self.key_opt(),
                                            gbi,
                                            p,
                                        );
                                    assert(trailing == aead_seal(
                                        c@,
                                        nonce_seq(gbi),
                                        p,
                                    ));
                                    assert(false);
                                }
                            }
                            return Err(e);
                        },
                    }
                },
                None => buffer,
            };
            match &mut crc {
                Some(h) => crc_update(h, plain.as_slice()),
                None => {},
            }
            let offset_base = if cipher.is_some() {
                BYTES_PER_SLICE
            } else {
                SLICE_SIZE
            };
            let offset_step = if cipher.is_some() {
                RAW_BUFFER_SIZE
            } else {
                BUFFER_SIZE
            };
            let offset = slice * offset_base + buffers_done * offset_step;
            cmds.push(WriteCmd { offset, data: plain });
            proof {
                assert(cmds@.drop_last() =~= Seq::<WriteCmd>::empty());
                assert(trailing == received@.skip(buffers_done as int * b));
            }
        }
        let crcr = match crc {
            Some(h) => Some((slice, h)),
            None => None,
        };
        proof {
            assert(concat_cmds(Seq::<WriteCmd>::empty()) == Seq::<u8>::empty());
        }
        Ok((cmds, crcr))
    }
}

/// Appends the bytes of `part` to `buf`.
fn append_bytes(buf: &mut Vec<u8>, part: &[u8])
    requires
        old(buf)@.len() + part@.len() <= u64::MAX,
    ensures
        final(buf)@ == old(buf)@ + part@,
{
    let mut i: usize = 0;
    while i < part.len()
        invariant
            0 <= i <= part@.len(),
            buf@ =~= old(buf)@ + part@.take(i as int),
        decreases part@.len() - i,
    {
        let byte = *slice_index_get(part, i);
        buf.push(byte);
        proof {
            assert(old(buf)@ + part@.take(i as int) + seq![part@[i as int]] =~= old(buf)@
                + part@.take(i + 1));
        }
        i = i + 1;
    }
    proof {
        assert(part@.take(part@.len() as int) =~= part@);
    }
}

} // verus!
