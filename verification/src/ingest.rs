//! Watch-folder ingest: each new `*.gcode` file is content-addressed into the store and enqueued as
//! a verify job. Idempotent (a file already seen is not resubmitted), so scans can run on a timer.
//!
//! Listing and reading the directory is the caller's part: it hands [`Ingester::select`] the entry
//! paths of one scan in sorted order, reads each selected file, and hands its bytes to
//! [`Ingester::submit`]. A file that cannot be read is skipped and stays unseen.
use vstd::prelude::*;

use crate::queue::{JobId, Queue};
use crate::store::{blob_key, JobSpec, JobStatus, MemStore};

verus! {

/// `c` with ASCII upper case folded to lower case.
pub open spec fn ascii_lower(c: u8) -> u8 {
    if 0x41 <= c <= 0x5A {
        (c + 32) as u8
    } else {
        c
    }
}

/// Where the last path component of `b` starts: just past its last `/`, or 0.
pub open spec fn name_start(b: Seq<u8>) -> int
    decreases b.len(),
{
    if b.len() == 0 {
        0
    } else if b.last() == 0x2F {
        b.len() as int
    } else {
        name_start(b.drop_last())
    }
}

/// The index of the last `.` of `b` at or after `from`, or -1 when there is none.
pub open spec fn last_dot(b: Seq<u8>, from: int) -> int
    decreases b.len(),
{
    if b.len() == 0 || b.len() <= from {
        -1
    } else if b.last() == 0x2E {
        b.len() - 1
    } else {
        last_dot(b.drop_last(), from)
    }
}

/// `e` is `gcode`, ignoring ASCII case.
pub open spec fn is_gcode_ext(e: Seq<u8>) -> bool {
    &&& e.len() == 5
    &&& ascii_lower(e[0]) == 0x67
    &&& ascii_lower(e[1]) == 0x63
    &&& ascii_lower(e[2]) == 0x6F
    &&& ascii_lower(e[3]) == 0x64
    &&& ascii_lower(e[4]) == 0x65
}

/// The directory entry path `b` (UTF-8) names a G-code file: its file name has an extension (the
/// part after the last `.`, where that `.` is not the name's first byte) equal to `gcode` in any
/// ASCII case.
pub open spec fn gcode_path(b: Seq<u8>) -> bool {
    let s = name_start(b);
    let d = last_dot(b, s);
    d > s && is_gcode_ext(b.subrange(d + 1, b.len() as int))
}

fn lower(c: u8) -> (r: u8)
    ensures
        r == ascii_lower(c),
{
    if 0x41 <= c && c <= 0x5A {
        c + 32
    } else {
        c
    }
}

/// Whether a directory entry path names a G-code file (extension `gcode`, any ASCII case).
pub fn is_gcode(path: &str) -> (r: bool)
    ensures
        r == gcode_path(vstd::utf8::encode_utf8(path@)),
{
    let b = path.as_bytes();
    let ghost bs = b@;
    let n = b.len();
    let mut i = n;
    assert(bs.take(n as int) =~= bs);
    while i > 0 && b[i - 1] != 0x2F
        invariant
            i <= n,
            n == bs.len(),
            b@ == bs,
            name_start(bs) == name_start(bs.take(i as int)),
        decreases i,
    {
        assert(bs.take(i as int).drop_last() =~= bs.take(i - 1));
        i -= 1;
    }
    assert(bs.take(0) =~= Seq::<u8>::empty());
    let s = i;
    assert(name_start(bs) == s as int);
    let mut j = n;
    while j > s && b[j - 1] != 0x2E
        invariant
            s <= j <= n,
            n == bs.len(),
            b@ == bs,
            last_dot(bs, s as int) == last_dot(bs.take(j as int), s as int),
        decreases j,
    {
        assert(bs.take(j as int).drop_last() =~= bs.take(j - 1));
        j -= 1;
    }
    if j <= s || j - 1 == s {
        // no `.` in the name, or only as its first byte
        return false;
    }
    let d = j - 1;
    assert(last_dot(bs, s as int) == d as int);
    if n - (d + 1) != 5 {
        return false;
    }
    let ghost e = bs.subrange(d + 1, n as int);
    assert(e[0] == b@[d + 1] && e[1] == b@[d + 2] && e[2] == b@[d + 3] && e[3] == b@[d + 4] && e[4] == b@[d + 5]);
    lower(b[d + 1]) == 0x67 && lower(b[d + 2]) == 0x63 && lower(b[d + 3]) == 0x6F && lower(b[d + 4]) == 0x64
        && lower(b[d + 5]) == 0x65
}

/// The entries of `entries` that name G-code files and are not in `seen`, in order.
pub open spec fn selected(entries: Seq<Seq<char>>, seen: Seq<Seq<char>>) -> Seq<Seq<char>>
    decreases entries.len(),
{
    if entries.len() == 0 {
        Seq::empty()
    } else {
        let prev = selected(entries.drop_last(), seen);
        let p = entries.last();
        if gcode_path(vstd::utf8::encode_utf8(p)) && !seen.contains(p) {
            prev.push(p)
        } else {
            prev
        }
    }
}

/// Scans a directory for new G-code files and submits them.
pub struct Ingester {
    dir: String,
    tenant: String,
    resolution_um: i64,
    seen: Vec<String>,
}

/// The plain state of an ingester: directory, tenant, resolution, and the paths submitted so far,
/// oldest first.
pub struct IngesterView {
    pub dir: Seq<char>,
    pub tenant: Seq<char>,
    pub resolution_um: i64,
    pub seen: Seq<Seq<char>>,
}

impl View for Ingester {
    type V = IngesterView;

    closed spec fn view(&self) -> IngesterView {
        IngesterView {
            dir: self.dir@,
            tenant: self.tenant@,
            resolution_um: self.resolution_um,
            seen: self.seen@.map_values(|p: String| p@),
        }
    }
}

impl Ingester {
    /// An ingester of `dir` for `tenant`, submitting verify jobs at `resolution_um`; nothing is
    /// seen yet.
    pub fn new(dir: String, tenant: String, resolution_um: i64) -> (r: Ingester)
        ensures
            r@.dir == dir@,
            r@.tenant == tenant@,
            r@.resolution_um == resolution_um,
            r@.seen == Seq::<Seq<char>>::empty(),
    {
        let r = Ingester { dir, tenant, resolution_um, seen: Vec::new() };
        assert(r@.seen =~= Seq::<Seq<char>>::empty());
        r
    }

    /// The watched directory.
    pub fn dir(&self) -> (d: &String)
        ensures
            d@ == self@.dir,
    {
        &self.dir
    }

    /// Whether `path` was submitted by an earlier scan.
    pub fn has_seen(&self, path: &String) -> (r: bool)
        ensures
            r == self@.seen.contains(path@),
    {
        let mut k: usize = 0;
        while k < self.seen.len()
            invariant
                k <= self.seen.len(),
                forall|t: int| 0 <= t < k ==> self.seen@[t]@ != path@,
            decreases self.seen.len() - k,
        {
            if self.seen[k] == *path {
                assert(self@.seen[k as int] == path@);
                return true;
            }
            k += 1;
        }
        proof {
            if self@.seen.contains(path@) {
                let t = choose|t: int| 0 <= t < self@.seen.len() && self@.seen[t] == path@;
                assert(self.seen@[t]@ == path@);
            }
        }
        false
    }

    /// Of one scan's directory entries (sorted by the caller), the G-code files not seen before,
    /// in the same order.
    pub fn select(&self, entries: &Vec<String>) -> (v: Vec<String>)
        ensures
            v@.map_values(|p: String| p@) == selected(entries@.map_values(|p: String| p@), self@.seen),
    {
        let ghost es = entries@.map_values(|p: String| p@);
        let mut v: Vec<String> = Vec::new();
        let mut k: usize = 0;
        while k < entries.len()
            invariant
                k <= entries.len(),
                es == entries@.map_values(|p: String| p@),
                v@.map_values(|p: String| p@) == selected(es.take(k as int), self@.seen),
            decreases entries.len() - k,
        {
            let p = &entries[k];
            proof {
                assert(es.take(k + 1).drop_last() =~= es.take(k as int));
                assert(es.take(k + 1).last() == p@);
            }
            let ghost before = v@.map_values(|p: String| p@);
            if is_gcode(p.as_str()) && !self.has_seen(p) {
                v.push(p.clone());
                assert(v@.map_values(|p: String| p@) =~= before.push(p@));
            }
            k += 1;
        }
        assert(es.take(k as int) =~= es);
        v
    }

    /// Submit the file at `path` with contents `bytes`: content-address the bytes into the store,
    /// create a verify job for this ingester's tenant and resolution, enqueue it, and mark the
    /// path seen. Returns the job.
    pub fn submit<E, Q: Queue>(&mut self, path: String, bytes: &[u8], store: &mut MemStore<E>, queue: &mut Q) -> (job: JobId)
        requires
            old(store).wf(),
            old(store).jobs_view().len() < u64::MAX,
        ensures
            final(store).wf(),
            job == old(store).jobs_view().len(),
            final(store).jobs_view() == old(store).jobs_view().push(
                (job, old(self)@.tenant, (true, blob_key(bytes@), Seq::<char>::empty()), old(self)@.resolution_um, JobStatus::Queued, None),
            ),
            (exists|k: int| 0 <= k < old(store).blobs_view().len() && (#[trigger] old(store).blobs_view()[k]).0 == blob_key(bytes@))
                ==> final(store).blobs_view() == old(store).blobs_view(),
            !(exists|k: int| 0 <= k < old(store).blobs_view().len() && (#[trigger] old(store).blobs_view()[k]).0 == blob_key(bytes@))
                ==> final(store).blobs_view() == old(store).blobs_view().push((blob_key(bytes@), bytes@)),
            final(store).results_view() == old(store).results_view(),
            final(queue).queue_view().queued == old(queue).queue_view().queued.push(job),
            final(queue).queue_view().inflight == old(queue).queue_view().inflight,
            final(queue).queue_view().dead == old(queue).queue_view().dead,
            final(self)@.seen == old(self)@.seen.push(path@),
            final(self)@.dir == old(self)@.dir,
            final(self)@.tenant == old(self)@.tenant,
            final(self)@.resolution_um == old(self)@.resolution_um,
    {
        let blob = store.put_blob(bytes);
        let job = store.create_job(self.tenant.as_str(), JobSpec::Verify { input: blob }, self.resolution_um);
        queue.enqueue(job);
        let ghost before = self@.seen;
        self.seen.push(path);
        assert(self@.seen =~= before.push(path@));
        job
    }
}

} // verus!
