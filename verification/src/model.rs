//! The job state machine and the persistent model: settings, stored file
//! records, the two FIFO queues, and the one-job-at-a-time rule.
//!
//! At most one job runs.  An active upload still accepts more upload
//! requests (queued FIFO) but rejects downloads, and symmetrically; only
//! an idle state accepts either.  A record of a stored file is created
//! only when its upload completed in full; any failure or cancellation
//! clears the queue, creates nothing, and returns to idle.  The shell
//! around the crate performs disk persistence, event delivery and the
//! network work between these transitions.

use vstd::prelude::*;

verus! {

/// What the orchestrator is doing.
#[derive(PartialEq, Eq, Structural, Clone, Copy, Debug)]
pub enum Job {
    Idle,
    Upload,
    Download,
}

impl Default for Job {
    fn default() -> (r: Self)
        ensures
            r == Job::Idle,
    {
        Job::Idle
    }
}

impl Job {
    /// Whether new upload work may be queued: yes while idle or already
    /// uploading, no while a download runs.
    pub fn is_upload_extendable(&self) -> (r: bool)
        ensures
            r == (*self == Job::Idle || *self == Job::Upload),
    {
        match self {
            Job::Idle => true,
            Job::Upload => true,
            Job::Download => false,
        }
    }

    /// Whether new download work may be queued: yes while idle or already
    /// downloading, no while an upload runs.
    pub fn is_download_extendable(&self) -> (r: bool)
        ensures
            r == (*self == Job::Idle || *self == Job::Download),
    {
        match self {
            Job::Idle => true,
            Job::Upload => false,
            Job::Download => true,
        }
    }

    /// Takes the current job, leaving idle.
    pub fn take(&mut self) -> (r: Job)
        ensures
            *final(self) == Job::Idle,
            r == *old(self),
    {
        let j = *self;
        *self = Job::Idle;
        j
    }
}

/// The in-memory (never persisted) orchestration state: the two queues
/// and the active job.
pub struct RtState {
    pub upload_queue: Vec<String>,
    pub download_queue: Vec<u32>,
    pub job: Job,
}

impl Default for RtState {
    fn default() -> (r: Self)
        ensures
            r.upload_queue@.len() == 0,
            r.download_queue@.len() == 0,
            r.job == Job::Idle,
    {
        RtState { upload_queue: Vec::new(), download_queue: Vec::new(), job: Job::Idle }
    }
}

/// One stored file: where it came from, how to get it back, and how to
/// check it.
pub struct File {
    pub id: u32,
    pub path: String,
    pub size: u64,
    /// One remote message handle per cluster, in cluster order.
    pub download_ids: Vec<u64>,
    pub created_at: u64,
    pub updated_at: u64,
    pub crc32: u32,
    /// The per-file key; absent when the file was stored unencrypted.
    pub encryption_key: Option<Vec<u8>>,
}

impl File {
    pub open spec fn wf(&self) -> bool {
        self.encryption_key matches Some(k) ==> k@.len() == 32
    }
}

/// The settings the shell displays.
pub struct Settings {
    pub token: String,
    pub channel: String,
    pub guild: String,
    pub do_encrypt: bool,
    pub do_checksum: bool,
    pub download_location: String,
}

/// A partial settings update: only the present fields change.
pub struct PartialSettings {
    pub token: Option<String>,
    pub channel: Option<String>,
    pub guild: Option<String>,
    pub do_encrypt: Option<bool>,
    pub do_checksum: Option<bool>,
    pub download_location: Option<String>,
}

/// The first index whose record carries `id`.
pub open spec fn find_file_idx(files: Seq<File>, id: u32) -> Option<int>
    decreases files.len(),
{
    if files.len() == 0 {
        None
    } else if files[0].id == id {
        Some(0)
    } else {
        match find_file_idx(files.drop_first(), id) {
            Some(i) => Some(i + 1),
            None => None,
        }
    }
}

/// Shifts an optional index by `n`.
pub open spec fn shift_idx(o: Option<int>, n: int) -> Option<int> {
    match o {
        Some(i) => Some(i + n),
        None => None,
    }
}

/// What queueing new work produced.
#[derive(PartialEq, Eq, Structural, Clone, Copy, Debug)]
pub enum QueueOutcome {
    /// An incompatible job is active; nothing was queued.
    Rejected,
    /// Nothing usable was offered; nothing was queued.
    Empty,
    /// `count` entries were appended; `start` says the orchestrator was
    /// idle and must start the next job now.
    Queued { count: usize, start: bool },
}

/// How a cancel request ended.
#[derive(PartialEq, Eq, Structural, Clone, Copy, Debug)]
pub enum CancelOutcome {
    /// Nothing was running.
    NoJob,
    /// The upload job was canceled; its queue is cleared.
    CanceledUpload,
    /// The download job was canceled; its queue is cleared.  The partially
    /// written target file must be removed.
    CanceledDownload,
}

/// An upload candidate as the filesystem reported it: path, byte size,
/// and whether it is a regular file.
pub struct UploadCandidate {
    pub path: String,
    pub size: u64,
    pub is_file: bool,
}

/// A candidate is queued when it is a non-empty regular file.
pub open spec fn accepted_candidate(c: UploadCandidate) -> bool {
    c.size > 0 && c.is_file
}

/// The candidates that are queued, in offer order.
pub open spec fn accepted_uploads(files: Seq<UploadCandidate>) -> Seq<UploadCandidate> {
    files.filter(|c: UploadCandidate| accepted_candidate(c))
}

/// The paths of the queued candidates, in offer order.
pub open spec fn accepted_upload_paths(files: Seq<UploadCandidate>) -> Seq<String> {
    accepted_uploads(files).map_values(|c: UploadCandidate| c.path)
}

/// The requested ids that name a stored record, in offer order.
pub open spec fn known_ids(ids: Seq<u32>, files: Seq<File>) -> Seq<u32> {
    ids.filter(|id: u32| find_file_idx(files, id) is Some)
}

/// The records that survive a deletion, in order.
pub open spec fn kept_files(files: Seq<File>, ids: Seq<u32>) -> Seq<File> {
    files.filter(|f: File| !ids.contains(f.id))
}

/// The application model: credentials and flags, the stored records, and
/// the orchestration state.
pub struct State {
    pub next_id: u32,
    pub channel_id: String,
    pub guild_id: String,
    pub token: String,
    pub do_encrypt: bool,
    pub do_checksum: bool,
    pub download_location: String,
    pub files: Vec<File>,
    pub rt: RtState,
}

impl Default for State {
    /// A fresh model: encryption and checksumming on, no credentials, no
    /// records, nothing queued.
    fn default() -> (r: Self)
        ensures
            r.next_id == 1,
            r.channel_id@.len() == 0,
            r.guild_id@.len() == 0,
            r.token@.len() == 0,
            r.do_encrypt,
            r.do_checksum,
            r.download_location@.len() == 0,
            r.files@.len() == 0,
            r.rt.upload_queue@.len() == 0,
            r.rt.download_queue@.len() == 0,
            r.rt.job == Job::Idle,
    {
        State {
            next_id: 1,
            channel_id: String::new(),
            guild_id: String::new(),
            token: String::new(),
            do_encrypt: true,
            do_checksum: true,
            download_location: String::new(),
            files: Vec::new(),
            rt: RtState::default(),
        }
    }
}

impl State {
    /// The settings fields never touched by queue and job transitions.
    pub open spec fn same_settings(self, other: State) -> bool {
        &&& self.next_id == other.next_id
        &&& self.channel_id == other.channel_id
        &&& self.guild_id == other.guild_id
        &&& self.token == other.token
        &&& self.do_encrypt == other.do_encrypt
        &&& self.do_checksum == other.do_checksum
        &&& self.download_location == other.download_location
    }

    pub open spec fn wf(&self) -> bool {
        forall|i: int| 0 <= i < self.files@.len() ==> (#[trigger] self.files@[i]).wf()
    }

    /// Looks a stored file up by id: the first record carrying it.
    pub fn find_file(&self, id: u32) -> (r: Option<usize>)
        ensures
            match r {
                Some(i) => find_file_idx(self.files@, id) == Some(i as int) && i
                    < self.files@.len(),
                None => find_file_idx(self.files@, id) is None,
            },
    {
        let mut i: usize = 0;
        let len = self.files.len();
        proof {
            assert(self.files@.skip(0) =~= self.files@);
        }
        while i < len
            invariant
                0 <= i <= len,
                len == self.files@.len(),
                find_file_idx(self.files@, id) == shift_idx(
                    find_file_idx(self.files@.skip(i as int), id),
                    i as int,
                ),
            decreases len - i,
        {
            proof {
                assert(self.files@.skip(i as int)[0] == self.files@[i as int]);
                assert(self.files@.skip(i as int).drop_first() =~= self.files@.skip(
                    i + 1,
                ));
            }
            if self.files[i].id == id {
                return Some(i);
            }
            i = i + 1;
        }
        proof {
            assert(self.files@.skip(len as int).len() == 0);
        }
        None
    }

    /// Hands out the next local file id.
    pub fn next_id(&mut self) -> (r: u32)
        requires
            old(self).next_id < u32::MAX,
        ensures
            r == old(self).next_id,
            final(self).next_id == old(self).next_id + 1,
            final(self).files == old(self).files,
            final(self).rt == old(self).rt,
            final(self).channel_id == old(self).channel_id,
            final(self).guild_id == old(self).guild_id,
            final(self).token == old(self).token,
            final(self).do_encrypt == old(self).do_encrypt,
            final(self).do_checksum == old(self).do_checksum,
            final(self).download_location == old(self).download_location,
    {
        let id = self.next_id;
        self.next_id = self.next_id + 1;
        id
    }

    /// Relies on `rand::thread_rng` and `rand::Rng::fill`: 32 bytes from
    /// the thread-local CSPRNG.  Nothing can be promised of their values.
    #[verifier::external_body]
    pub fn aes_key(&self) -> (r: Vec<u8>)
        ensures
            r@.len() == 32,
    {
        let mut key = vec![0u8; 32];
        rand::Rng::fill(&mut rand::thread_rng(), &mut key[..]);
        key
    }

    /// The settings view the shell displays.
    pub fn settings(&self) -> (r: Settings)
        ensures
            r.token@ == self.token@,
            r.channel@ == self.channel_id@,
            r.guild@ == self.guild_id@,
            r.do_encrypt == self.do_encrypt,
            r.do_checksum == self.do_checksum,
            r.download_location@ == self.download_location@,
    {
        Settings {
            token: self.token.clone(),
            channel: self.channel_id.clone(),
            guild: self.guild_id.clone(),
            do_encrypt: self.do_encrypt,
            do_checksum: self.do_checksum,
            download_location: self.download_location.clone(),
        }
    }

    /// Queues upload candidates.  Rejected outright while a download is
    /// active; otherwise the non-empty regular files are appended to the
    /// upload queue in offer order, and `start` reports whether the
    /// orchestrator was idle and must now begin.
    pub fn extend_upload_queue(&mut self, files: Vec<UploadCandidate>) -> (r:
        QueueOutcome)
        ensures
            final(self).files == old(self).files,
            final(self).same_settings(*old(self)),
            final(self).rt.download_queue == old(self).rt.download_queue,
            final(self).rt.job == old(self).rt.job,
            !(old(self).rt.job == Job::Idle || old(self).rt.job == Job::Upload) ==> r
                == QueueOutcome::Rejected && final(self).rt.upload_queue == old(self).rt.upload_queue,
            (old(self).rt.job == Job::Idle || old(self).rt.job == Job::Upload) ==> {
                &&& final(self).rt.upload_queue@ == old(self).rt.upload_queue@
                    + accepted_upload_paths(files@)
                &&& (accepted_uploads(files@).len() == 0 ==> r == QueueOutcome::Empty)
                &&& (accepted_uploads(files@).len() > 0 ==> r == (QueueOutcome::Queued {
                    count: accepted_uploads(files@).len() as usize,
                    start: old(self).rt.job == Job::Idle,
                }))
            },
    {
        if !self.rt.job.is_upload_extendable() {
            return QueueOutcome::Rejected;
        }
        let start = self.rt.job == Job::Idle;
        let ghost q0 = self.rt.upload_queue@;
        let ghost orig = files@;
        let mut rest = files;
        let n_total = rest.len();
        let mut count: usize = 0;
        let mut i: usize = 0;
        proof {
            reveal(Seq::filter);
            assert(orig.take(0) =~= Seq::<UploadCandidate>::empty());
            assert(accepted_upload_paths(orig.take(0)) =~= Seq::<String>::empty());
            assert(q0 + accepted_upload_paths(orig.take(0)) =~= q0);
            assert(rest@ =~= orig.skip(0));
        }
        while rest.len() > 0
            invariant
                0 <= i <= orig.len(),
                orig.len() == n_total,
                rest@ == orig.skip(i as int),
                self.files == old(self).files,
                self.same_settings(*old(self)),
                self.rt.download_queue == old(self).rt.download_queue,
                self.rt.job == old(self).rt.job,
                q0 == old(self).rt.upload_queue@,
                count <= i,
                count == accepted_uploads(orig.take(i as int)).len(),
                self.rt.upload_queue@ == q0 + accepted_upload_paths(orig.take(i as int)),
            decreases rest@.len(),
        {
            let c = rest.remove(0);
            proof {
                assert(orig.skip(i as int)[0] == orig[i as int]);
                assert(orig.skip(i as int).remove(0) =~= orig.skip(i + 1));
            }
            let UploadCandidate { path, size, is_file } = c;
            let keep = size > 0 && is_file;
            if keep {
                self.rt.upload_queue.push(path);
                count = count + 1;
            }
            proof {
                reveal(Seq::filter);
                let t0 = orig.take(i as int);
                let t1 = orig.take(i + 1);
                assert(t1.drop_last() =~= t0);
                assert(t1.last() == orig[i as int]);
                if accepted_candidate(orig[i as int]) {
                    assert(accepted_uploads(t1) == accepted_uploads(t0).push(
                        orig[i as int],
                    ));
                    assert(accepted_upload_paths(t1) =~= accepted_upload_paths(t0).push(
                        orig[i as int].path,
                    ));
                    assert(self.rt.upload_queue@ =~= q0 + accepted_upload_paths(t1));
                } else {
                    assert(accepted_uploads(t1) == accepted_uploads(t0));
                }
            }
            i = i + 1;
        }
        proof {
            assert(orig.skip(i as int).len() == 0);
            assert(orig.take(i as int) =~= orig);
        }
        if count == 0 {
            QueueOutcome::Empty
        } else {
            QueueOutcome::Queued { count, start }
        }
    }

    /// Queues download requests by stored file id.  Rejected outright
    /// while an upload is active; otherwise the ids that name a stored
    /// record are appended to the download queue in offer order.
    pub fn extend_download_queue(&mut self, ids: Vec<u32>) -> (r: QueueOutcome)
        ensures
            final(self).files == old(self).files,
            final(self).same_settings(*old(self)),
            final(self).rt.upload_queue == old(self).rt.upload_queue,
            final(self).rt.job == old(self).rt.job,
            !(old(self).rt.job == Job::Idle || old(self).rt.job == Job::Download) ==> r
                == QueueOutcome::Rejected && final(self).rt.download_queue == old(self).rt.download_queue,
            (old(self).rt.job == Job::Idle || old(self).rt.job == Job::Download) ==> {
                let known = known_ids(ids@, old(self).files@);
                &&& final(self).rt.download_queue@ == old(self).rt.download_queue@
                    + known
                &&& (known.len() == 0 ==> r == QueueOutcome::Empty)
                &&& (known.len() > 0 ==> r == (QueueOutcome::Queued {
                    count: known.len() as usize,
                    start: old(self).rt.job == Job::Idle,
                }))
            },
    {
        if !self.rt.job.is_download_extendable() {
            return QueueOutcome::Rejected;
        }
        let start = self.rt.job == Job::Idle;
        let ghost q0 = self.rt.download_queue@;
        let mut count: usize = 0;
        let mut i: usize = 0;
        let n = ids.len();
        proof {
            reveal(Seq::filter);
            assert(ids@.take(0) =~= Seq::<u32>::empty());
            assert(known_ids(ids@.take(0), old(self).files@) =~= Seq::<u32>::empty());
            assert(q0 + known_ids(ids@.take(0), old(self).files@) =~= q0);
        }
        while i < n
            invariant
                0 <= i <= n,
                n == ids@.len(),
                self.files == old(self).files,
                self.same_settings(*old(self)),
                self.rt.upload_queue == old(self).rt.upload_queue,
                self.rt.job == old(self).rt.job,
                q0 == old(self).rt.download_queue@,
                count <= i,
                count == known_ids(ids@.take(i as int), old(self).files@).len(),
                self.rt.download_queue@ == q0 + known_ids(
                    ids@.take(i as int),
                    old(self).files@,
                ),
            decreases n - i,
        {
            let id = ids[i];
            let keep = self.find_file(id).is_some();
            if keep {
                self.rt.download_queue.push(id);
                count = count + 1;
            }
            proof {
                reveal(Seq::filter);
                let t0 = ids@.take(i as int);
                let t1 = ids@.take(i + 1);
                assert(t1.drop_last() =~= t0);
                assert(t1.last() == ids@[i as int]);
                if find_file_idx(old(self).files@, ids@[i as int]) is Some {
                    assert(known_ids(t1, old(self).files@) == known_ids(
                        t0,
                        old(self).files@,
                    ).push(ids@[i as int]));
                    assert(self.rt.download_queue@ =~= q0 + known_ids(
                        t1,
                        old(self).files@,
                    ));
                } else {
                    assert(known_ids(t1, old(self).files@) == known_ids(
                        t0,
                        old(self).files@,
                    ));
                }
            }
            i = i + 1;
        }
        proof {
            assert(ids@.take(n as int) =~= ids@);
        }
        if count == 0 {
            QueueOutcome::Empty
        } else {
            QueueOutcome::Queued { count, start }
        }
    }

    /// Dequeues the next upload, FIFO.  With work left the job becomes
    /// `Upload`; with the queue empty the orchestrator falls back to idle.
    pub fn start_next_upload(&mut self) -> (r: Option<String>)
        ensures
            final(self).files == old(self).files,
            final(self).same_settings(*old(self)),
            final(self).rt.download_queue == old(self).rt.download_queue,
            old(self).rt.upload_queue@.len() == 0 ==> r is None && final(self).rt.job
                == Job::Idle && final(self).rt.upload_queue == old(self).rt.upload_queue,
            old(self).rt.upload_queue@.len() > 0 ==> (r matches Some(p) && {
                &&& p == old(self).rt.upload_queue@[0]
                &&& final(self).rt.upload_queue@ == old(self).rt.upload_queue@
                    .drop_first()
                &&& final(self).rt.job == Job::Upload
            }),
    {
        if self.rt.upload_queue.len() == 0 {
            self.rt.job = Job::Idle;
            return None;
        }
        let p = self.rt.upload_queue.remove(0);
        self.rt.job = Job::Upload;
        proof {
            assert(old(self).rt.upload_queue@.remove(0) =~= old(self).rt.upload_queue@.drop_first());
        }
        Some(p)
    }

    /// Dequeues the next download, FIFO.  With work left the job becomes
    /// `Download`; with the queue empty the orchestrator falls back to
    /// idle.
    pub fn start_next_download(&mut self) -> (r: Option<u32>)
        ensures
            final(self).files == old(self).files,
            final(self).same_settings(*old(self)),
            final(self).rt.upload_queue == old(self).rt.upload_queue,
            old(self).rt.download_queue@.len() == 0 ==> r is None && final(self).rt.job
                == Job::Idle && final(self).rt.download_queue == old(self).rt.download_queue,
            old(self).rt.download_queue@.len() > 0 ==> (r matches Some(id) && {
                &&& id == old(self).rt.download_queue@[0]
                &&& final(self).rt.download_queue@ == old(self).rt.download_queue@
                    .drop_first()
                &&& final(self).rt.job == Job::Download
            }),
    {
        if self.rt.download_queue.len() == 0 {
            self.rt.job = Job::Idle;
            return None;
        }
        let id = self.rt.download_queue.remove(0);
        self.rt.job = Job::Download;
        proof {
            assert(old(self).rt.download_queue@.remove(0) =~= old(self).rt.download_queue@.drop_first());
        }
        Some(id)
    }

    /// Records one fully uploaded file: every cluster finalized (handles
    /// in cluster order) and the checksum aggregated.  This is the only
    /// transition that creates a record, and it exists only while the
    /// upload job is still active — a canceled or failed upload creates
    /// nothing.  Returns the record's id.
    pub fn upload_finished(
        &mut self,
        path: String,
        size: u64,
        download_ids: Vec<u64>,
        crc32: u32,
        encryption_key: Option<Vec<u8>>,
        timestamp: u64,
    ) -> (r: u32)
        requires
            old(self).rt.job == Job::Upload,
            old(self).next_id < u32::MAX,
        ensures
            r == old(self).next_id,
            final(self).files@ == old(self).files@.push(
                File {
                    id: old(self).next_id,
                    path,
                    size,
                    download_ids,
                    created_at: timestamp,
                    updated_at: timestamp,
                    crc32,
                    encryption_key,
                },
            ),
            final(self).next_id == old(self).next_id + 1,
            final(self).rt == old(self).rt,
            final(self).channel_id == old(self).channel_id,
            final(self).guild_id == old(self).guild_id,
            final(self).token == old(self).token,
            final(self).do_encrypt == old(self).do_encrypt,
            final(self).do_checksum == old(self).do_checksum,
            final(self).download_location == old(self).download_location,
    {
        let id = self.next_id;
        self.next_id = self.next_id + 1;
        self.files.push(
            File {
                id,
                path,
                size,
                download_ids,
                created_at: timestamp,
                updated_at: timestamp,
                crc32,
                encryption_key,
            },
        );
        id
    }

    /// An upload stage failed: the whole job is abandoned, the queue is
    /// cleared, and the orchestrator returns to idle.  No record is
    /// created.
    pub fn upload_failed(&mut self)
        ensures
            final(self).files == old(self).files,
            final(self).same_settings(*old(self)),
            final(self).rt.download_queue == old(self).rt.download_queue,
            final(self).rt.upload_queue@.len() == 0,
            final(self).rt.job == Job::Idle,
    {
        self.rt.upload_queue.clear();
        self.rt.job = Job::Idle;
    }

    /// A download stage failed: the whole job is abandoned, the queue is
    /// cleared, and the orchestrator returns to idle.
    pub fn download_failed(&mut self)
        ensures
            final(self).files == old(self).files,
            final(self).same_settings(*old(self)),
            final(self).rt.upload_queue == old(self).rt.upload_queue,
            final(self).rt.download_queue@.len() == 0,
            final(self).rt.job == Job::Idle,
    {
        self.rt.download_queue.clear();
        self.rt.job = Job::Idle;
    }

    /// Judges a finished download against the stored record.  A computed
    /// checksum that differs from the recorded one is a job-fatal
    /// mismatch: the queue is cleared, the orchestrator returns to idle,
    /// and the caller must delete the partially written target file.  No
    /// checksum was requested — `crc` is `None` — means nothing is
    /// compared; a missing checksum is never treated as a value.
    pub fn finish_download(&mut self, id: u32, crc: Option<u32>) -> (r: Result<
        (),
        crate::errors::DownloadError,
    >)
        ensures
            final(self).files == old(self).files,
            final(self).same_settings(*old(self)),
            final(self).rt.upload_queue == old(self).rt.upload_queue,
            ({
                let found = find_file_idx(old(self).files@, id);
                let mismatch = found is Some && crc is Some && crc->0 != old(self).files@[found->0].crc32;
                &&& (!mismatch ==> r is Ok && final(self).rt == old(self).rt)
                &&& (mismatch ==> {
                    &&& r == Result::<(), crate::errors::DownloadError>::Err(
                        crate::errors::DownloadError::ChecksumMismatch(
                            old(self).files@[found->0].crc32,
                            crc->0,
                        ),
                    )
                    &&& final(self).rt.download_queue@.len() == 0
                    &&& final(self).rt.job == Job::Idle
                })
            }),
    {
        let found = self.find_file(id);
        match (found, crc) {
            (Some(fi), Some(c)) => {
                if c != self.files[fi].crc32 {
                    let stored = self.files[fi].crc32;
                    self.rt.download_queue.clear();
                    self.rt.job = Job::Idle;
                    return Err(crate::errors::DownloadError::ChecksumMismatch(stored, c));
                }
                Ok(())
            },
            _ => Ok(()),
        }
    }

    /// Cancels the active job, if any: its queue is cleared, in-flight
    /// work is abandoned by the shell, and the orchestrator returns to
    /// idle.  The stored records are untouched — a canceled upload leaves
    /// no record behind — and cancellation is an outcome of its own, not
    /// an error.
    pub fn cancel(&mut self) -> (r: CancelOutcome)
        ensures
            final(self).files == old(self).files,
            final(self).same_settings(*old(self)),
            final(self).rt.job == Job::Idle,
            old(self).rt.job == Job::Idle ==> r == CancelOutcome::NoJob && final(self).rt.upload_queue == old(self).rt.upload_queue && final(self).rt.download_queue == old(self).rt.download_queue,
            old(self).rt.job == Job::Upload ==> r == CancelOutcome::CanceledUpload
                && final(self).rt.upload_queue@.len() == 0 && final(self).rt.download_queue == old(self).rt.download_queue,
            old(self).rt.job == Job::Download ==> r == CancelOutcome::CanceledDownload
                && final(self).rt.download_queue@.len() == 0 && final(self).rt.upload_queue == old(self).rt.upload_queue,
    {
        match self.rt.job.take() {
            Job::Idle => CancelOutcome::NoJob,
            Job::Upload => {
                self.rt.upload_queue.clear();
                CancelOutcome::CanceledUpload
            },
            Job::Download => {
                self.rt.download_queue.clear();
                CancelOutcome::CanceledDownload
            },
        }
    }

    /// Applies a partial settings update: only the present fields change.
    /// Changing the destination (channel or guild) makes the stored
    /// records meaningless, so they are erased; the result reports
    /// whether that happened.
    pub fn apply_settings(&mut self, s: PartialSettings) -> (r: bool)
        ensures
            r == (s.channel is Some || s.guild is Some),
            final(self).token == if s.token is Some {
                s.token->0
            } else {
                old(self).token
            },
            final(self).channel_id == if s.channel is Some {
                s.channel->0
            } else {
                old(self).channel_id
            },
            final(self).guild_id == if s.guild is Some {
                s.guild->0
            } else {
                old(self).guild_id
            },
            final(self).do_encrypt == if s.do_encrypt is Some {
                s.do_encrypt->0
            } else {
                old(self).do_encrypt
            },
            final(self).do_checksum == if s.do_checksum is Some {
                s.do_checksum->0
            } else {
                old(self).do_checksum
            },
            final(self).download_location == if s.download_location is Some {
                s.download_location->0
            } else {
                old(self).download_location
            },
            r ==> final(self).files@.len() == 0,
            !r ==> final(self).files == old(self).files,
            final(self).next_id == old(self).next_id,
            final(self).rt == old(self).rt,
    {
        let mut erase = false;
        match s.token {
            Some(t) => {
                self.token = t;
            },
            None => {},
        }
        match s.channel {
            Some(c) => {
                self.channel_id = c;
                erase = true;
            },
            None => {},
        }
        match s.guild {
            Some(g) => {
                self.guild_id = g;
                erase = true;
            },
            None => {},
        }
        if erase {
            self.files.clear();
        }
        match s.do_encrypt {
            Some(e) => {
                self.do_encrypt = e;
            },
            None => {},
        }
        match s.do_checksum {
            Some(c) => {
                self.do_checksum = c;
            },
            None => {},
        }
        match s.download_location {
            Some(d) => {
                self.download_location = d;
            },
            None => {},
        }
        erase
    }

    /// Deletes the records with the given ids, keeping the rest in order.
    pub fn delete_files(&mut self, ids: &Vec<u32>)
        ensures
            final(self).files@ == kept_files(old(self).files@, ids@),
            final(self).same_settings(*old(self)),
            final(self).rt == old(self).rt,
    {
        let ghost orig = self.files@;
        let ghost mut k: int = 0;
        let mut i: usize = 0;
        proof {
            reveal(Seq::filter);
            assert(orig.take(0) =~= Seq::<File>::empty());
            assert(kept_files(orig.take(0), ids@) =~= Seq::<File>::empty());
            assert(kept_files(orig.take(0), ids@) + orig.skip(0) =~= orig);
        }
        while i < self.files.len()
            invariant
                0 <= k <= orig.len(),
                i as int == kept_files(orig.take(k), ids@).len(),
                self.files@ == kept_files(orig.take(k), ids@) + orig.skip(k),
                self.same_settings(*old(self)),
                self.rt == old(self).rt,
                orig == old(self).files@,
            decreases orig.len() - k,
        {
            proof {
                assert(self.files@[i as int] == orig.skip(k)[0]);
                assert(orig.skip(k)[0] == orig[k]);
            }
            let mut contained = false;
            let mut j: usize = 0;
            let m = ids.len();
            while j < m
                invariant
                    0 <= j <= m,
                    m == ids@.len(),
                    i < self.files@.len(),
                    contained == (exists|t: int|
                        0 <= t < j && ids@[t] == self.files@[i as int].id),
                decreases m - j,
            {
                if ids[j] == self.files[i].id {
                    contained = true;
                }
                j = j + 1;
            }
            proof {
                reveal(Seq::filter);
                assert(contained == ids@.contains(orig[k].id));
                let t1 = orig.take(k + 1);
                assert(t1.drop_last() =~= orig.take(k));
                assert(t1.last() == orig[k]);
                assert(kept_files(t1, ids@) == if !ids@.contains(orig[k].id) {
                    kept_files(orig.take(k), ids@).push(orig[k])
                } else {
                    kept_files(orig.take(k), ids@)
                });
            }
            if contained {
                let _removed = self.files.remove(i);
                proof {
                    assert(self.files@ =~= kept_files(orig.take(k + 1), ids@)
                        + orig.skip(k + 1));
                }
            } else {
                proof {
                    assert(kept_files(orig.take(k + 1), ids@) =~= kept_files(
                        orig.take(k),
                        ids@,
                    ).push(orig[k]));
                    assert(self.files@ =~= kept_files(orig.take(k + 1), ids@)
                        + orig.skip(k + 1));
                }
                i = i + 1;
            }
            proof {
                k = k + 1;
            }
        }
        proof {
            assert(orig.skip(k).len() == 0);
            assert(orig.take(k) =~= orig);
        }
    }
}

} // verus!
