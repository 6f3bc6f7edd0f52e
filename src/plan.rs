//! Planning a run of the downloader: which manifest entries become work,
//! which directories they need, what the size probes gave, and the exit
//! status of the run.
use vstd::prelude::*;
use vstd::string::{StrSliceExecFns, StringExecFns};
use vstd::utf8::{encode_utf8, valid_utf8};
use crate::git_index::IndexView;

verus! {

/// The run succeeded.
pub const EXIT_OK: i32 = 0;

/// The content delivery network's address could not be resolved.
pub const EXIT_DNS_FAILED: i32 = 1;

/// The installer's settings name no index.
pub const EXIT_BAD_INDEX_FIELD: i32 = 2;

/// An index entry's name is not UTF-8.
pub const EXIT_BAD_NAMES: i32 = 3;

/// No output directory was given or found.
pub const EXIT_NO_OUTPUT_DIR: i32 = 4;

/// An object's size probe gave no `Content-Length`.
pub const EXIT_NO_CONTENT_LENGTH: i32 = 5;

/// A file could not be downloaded or decoded.
pub const EXIT_FILE_FAILED: i32 = 6;

/// A file that the run must produce: the hash of its object, its path
/// relative to the output directory, and its final size.
pub struct FinalFile {
    pub hash: Vec<u8>,
    pub name: String,
    pub size: u64,
}

/// Relies on String::from_utf8: it accepts exactly the valid UTF-8 byte
/// strings and keeps their bytes.
#[verifier::external_body]
fn utf8_string(b: &[u8]) -> (r: Option<String>)
    ensures
        r is Some <==> valid_utf8(b@),
        r matches Some(s) ==> encode_utf8(s@) == b@,
{
    String::from_utf8(b.to_vec()).ok()
}

/// How many of the first `k` entries have a name that is not UTF-8.
pub open spec fn invalid_names(entries: Seq<crate::git_index::ViewEntry>, k: int) -> nat
    decreases k,
{
    if k <= 0 {
        0
    } else {
        invalid_names(entries, k - 1) + if valid_utf8(entries[k - 1].name@) {
            0nat
        } else {
            1nat
        }
    }
}

/// The file an index entry describes.
pub open spec fn describes(f: FinalFile, e: crate::git_index::ViewEntry) -> bool {
    &&& f.hash@ == e.header.sha1@
    &&& encode_utf8(f.name@) == e.name@
    &&& f.size == e.header.size as u64
}

/// The files an index lists, in order; if some names are not UTF-8, how many.
pub fn final_files(index: &IndexView) -> (r: Result<Vec<FinalFile>, usize>)
    ensures
        r is Ok <==> invalid_names(index.entries@, index.entries@.len() as int) == 0,
        r matches Err(n) ==> n == invalid_names(index.entries@, index.entries@.len() as int),
        r matches Ok(files) ==> files@.len() == index.entries@.len() && forall|i: int|
            0 <= i < files@.len() ==> describes(#[trigger] files@[i], index.entries@[i]),
{
    let mut files: Vec<FinalFile> = Vec::new();
    let mut invalid: usize = 0;
    let mut k: usize = 0;
    while k < index.entries.len()
        invariant
            k <= index.entries@.len(),
            invalid == invalid_names(index.entries@, k as int),
            invalid <= k,
            invalid == 0 ==> files@.len() == k,
            invalid == 0 ==> forall|i: int|
                0 <= i < k ==> describes(#[trigger] files@[i], index.entries@[i]),
        decreases index.entries@.len() - k,
    {
        let entry = &index.entries[k];
        match utf8_string(entry.name) {
            Some(name) => {
                if invalid == 0 {
                    let mut hash: Vec<u8> = Vec::new();
                    let mut j: usize = 0;
                    while j < entry.header.sha1.len()
                        invariant
                            j <= entry.header.sha1@.len(),
                            hash@ == entry.header.sha1@.subrange(0, j as int),
                        decreases entry.header.sha1@.len() - j,
                    {
                        hash.push(entry.header.sha1[j]);
                        j = j + 1;
                        assert(hash@ =~= entry.header.sha1@.subrange(0, j as int));
                    }
                    assert(hash@ =~= entry.header.sha1@);
                    files.push(FinalFile { hash, name, size: entry.header.size as u64 });
                }
            },
            None => {
                invalid = invalid + 1;
            },
        }
        k = k + 1;
    }
    if invalid == 0 {
        Ok(files)
    } else {
        Err(invalid)
    }
}

/// The position of the last `/` among the first `k` characters of `s`.
pub open spec fn last_slash(s: Seq<char>, k: int) -> Option<int>
    decreases k,
{
    if k <= 0 {
        None
    } else if s[k - 1] == '/' {
        Some(k - 1)
    } else {
        last_slash(s, k - 1)
    }
}

/// The directory part of a relative path: what comes before its last `/`.
pub open spec fn dir_of(path: Seq<char>) -> Option<Seq<char>> {
    match last_slash(path, path.len() as int) {
        None => None,
        Some(p) => Some(path.subrange(0, p)),
    }
}

/// The directory part of a relative path, if it has one.
pub fn dir_name(path: &str) -> (r: Option<String>)
    ensures
        r is Some <==> dir_of(path@) is Some,
        r matches Some(d) ==> Some(d@) == dir_of(path@),
{
    let mut k: usize = path.unicode_len();
    while k > 0 && path.get_char(k - 1) != '/'
        invariant
            k <= path@.len(),
            last_slash(path@, k as int) == last_slash(path@, path@.len() as int),
        decreases k,
    {
        k = k - 1;
    }
    if k == 0 {
        None
    } else {
        Some(String::from_str(path.substring_char(0, k - 1)))
    }
}

/// Some file lies directly in the directory `d`.
pub open spec fn some_file_in(files: Seq<FinalFile>, d: Seq<char>) -> bool {
    exists|i: int| 0 <= i < files.len() && dir_of(files[i].name@) == Some(d)
}

/// Whether `dirs` holds the text `d`.
pub fn contains_text(dirs: &Vec<String>, d: &String) -> (r: bool)
    ensures
        r <==> exists|m: int| 0 <= m < dirs@.len() && dirs@[m]@ == d@,
{
    let mut j: usize = 0;
    while j < dirs.len()
        invariant
            j <= dirs@.len(),
            forall|m: int| 0 <= m < j ==> dirs@[m]@ != d@,
        decreases dirs@.len() - j,
    {
        if dirs[j] == *d {
            return true;
        }
        j = j + 1;
    }
    false
}

/// The directories that the files need, each once, in the order the files
/// first name them.
pub fn directories(files: &Vec<FinalFile>) -> (r: Vec<String>)
    ensures
        forall|j: int| 0 <= j < r@.len() ==> some_file_in(files@, #[trigger] r@[j]@),
        forall|i: int|
            0 <= i < files@.len() && (#[trigger] dir_of(files@[i].name@)) is Some ==> exists|j: int|
                0 <= j < r@.len() && Some(r@[j]@) == dir_of(files@[i].name@),
        forall|a: int, b: int| 0 <= a < b < r@.len() ==> r@[a]@ != r@[b]@,
{
    let mut dirs: Vec<String> = Vec::new();
    let ghost mut source: Seq<int> = Seq::empty();
    let mut k: usize = 0;
    while k < files.len()
        invariant
            k <= files@.len(),
            source.len() == dirs@.len(),
            forall|j: int|
                0 <= j < dirs@.len() ==> 0 <= #[trigger] source[j] < k && dir_of(
                    files@[source[j]].name@,
                ) == Some(dirs@[j]@),
            forall|i: int|
                0 <= i < k && (#[trigger] dir_of(files@[i].name@)) is Some ==> exists|j: int|
                    0 <= j < dirs@.len() && Some(dirs@[j]@) == dir_of(files@[i].name@),
            forall|a: int, b: int| 0 <= a < b < dirs@.len() ==> dirs@[a]@ != dirs@[b]@,
        decreases files@.len() - k,
    {
        let ghost dirs0 = dirs@;
        let found = dir_name(files[k].name.as_str());
        if let Some(d) = found {
            if !contains_text(&dirs, &d) {
                proof {
                    source = source.push(k as int);
                }
                dirs.push(d);
                proof {
                    let last = dirs@.len() - 1;
                    assert(dirs@[last]@ == d@);
                    assert(Some(dirs@[last]@) == dir_of(files@[k as int].name@));
                }
            } else {
                proof {
                    let m = choose|m: int| 0 <= m < dirs@.len() && dirs@[m]@ == d@;
                    assert(Some(dirs@[m]@) == dir_of(files@[k as int].name@));
                }
            }
        }
        proof {
            assert forall|j: int| 0 <= j < dirs@.len() implies 0 <= #[trigger] source[j] < k + 1
                && dir_of(files@[source[j]].name@) == Some(dirs@[j]@) by {
                if j < dirs0.len() {
                    assert(dirs@[j] == dirs0[j]);
                }
            }
            assert forall|i: int|
                0 <= i < k + 1 && (#[trigger] dir_of(files@[i].name@)) is Some implies exists|j: int|
                    0 <= j < dirs@.len() && Some(dirs@[j]@) == dir_of(files@[i].name@) by {
                if i < k {
                    let j = choose|j: int|
                        0 <= j < dirs0.len() && Some(dirs0[j]@) == dir_of(files@[i].name@);
                    assert(dirs@[j] == dirs0[j]);
                }
            }
        }
        k = k + 1;
    }
    proof {
        assert forall|j: int| 0 <= j < dirs@.len() implies some_file_in(files@, #[trigger] dirs@[j]@) by {
            let i = source[j];
            assert(0 <= i < files@.len());
            assert(dir_of(files@[i].name@) == Some(dirs@[j]@));
        }
    }
    dirs
}

/// A file on disk of `existing` bytes (nothing if there is none) is complete
/// when its size is the final size; its content is not checked.
pub open spec fn is_complete(existing: Option<u64>, size: u64) -> bool {
    existing == Some(size)
}

/// Whether a file must be fetched, given what is on disk.
pub fn needs_download(existing: Option<u64>, size: u64) -> (r: bool)
    ensures
        r == !is_complete(existing, size),
{
    match existing {
        Some(len) => len != size,
        None => true,
    }
}

/// The positions, among the first `k` files, of those that are not complete.
pub open spec fn todo_spec(sizes: Seq<u64>, existing: Seq<Option<u64>>, k: int) -> Seq<int>
    decreases k,
{
    if k <= 0 {
        Seq::empty()
    } else {
        let before = todo_spec(sizes, existing, k - 1);
        if is_complete(existing[k - 1], sizes[k - 1]) {
            before
        } else {
            before.push(k - 1)
        }
    }
}

/// The final sizes of the files.
pub open spec fn sizes_of(files: Seq<FinalFile>) -> Seq<u64> {
    files.map_values(|f: FinalFile| f.size)
}

/// The positions of the files to fetch, in order, given the size of the file
/// already on disk at each one's path.
pub fn todo_files(files: &Vec<FinalFile>, existing: &Vec<Option<u64>>) -> (r: Vec<usize>)
    requires
        existing@.len() == files@.len(),
    ensures
        r@.len() == todo_spec(sizes_of(files@), existing@, files@.len() as int).len(),
        forall|j: int|
            0 <= j < r@.len() ==> r@[j] as int == #[trigger] todo_spec(
                sizes_of(files@),
                existing@,
                files@.len() as int,
            )[j],
{
    let ghost sizes = sizes_of(files@);
    let mut r: Vec<usize> = Vec::new();
    let mut k: usize = 0;
    while k < files.len()
        invariant
            k <= files@.len(),
            existing@.len() == files@.len(),
            sizes == sizes_of(files@),
            r@.len() == todo_spec(sizes, existing@, k as int).len(),
            forall|j: int|
                0 <= j < r@.len() ==> r@[j] as int == #[trigger] todo_spec(sizes, existing@, k as int)[j],
        decreases files@.len() - k,
    {
        if needs_download(existing[k], files[k].size) {
            r.push(k);
        }
        k = k + 1;
    }
    r
}

/// No file among the first `k` is left to fetch when every file on disk has
/// its final size.
proof fn lemma_nothing_left(sizes: Seq<u64>, existing: Seq<Option<u64>>, k: int)
    requires
        0 <= k <= sizes.len(),
        existing.len() == sizes.len(),
        forall|i: int| 0 <= i < sizes.len() ==> #[trigger] existing[i] == Some(sizes[i]),
    ensures
        todo_spec(sizes, existing, k).len() == 0,
    decreases k,
{
    if k > 0 {
        lemma_nothing_left(sizes, existing, k - 1);
    }
}

/// A second run over the same manifest, after a first run that completed
/// every file, has nothing to fetch: it sends no size probe and no ranged
/// request.
pub proof fn lemma_second_run_fetches_nothing(sizes: Seq<u64>, existing: Seq<Option<u64>>)
    requires
        existing.len() == sizes.len(),
        forall|i: int| 0 <= i < sizes.len() ==> #[trigger] existing[i] == Some(sizes[i]),
    ensures
        todo_spec(sizes, existing, sizes.len() as int).len() == 0,
{
    lemma_nothing_left(sizes, existing, sizes.len() as int);
}

/// The compressed sizes from the size probes, in order, or the position of
/// the first probe that gave no `Content-Length`; a run stops there, before
/// any ranged request.
pub fn content_lengths(probes: &Vec<Option<u64>>) -> (r: Result<Vec<u64>, usize>)
    ensures
        r is Ok <==> forall|i: int| 0 <= i < probes@.len() ==> probes@[i] is Some,
        r matches Ok(v) ==> v@.len() == probes@.len() && forall|i: int|
            0 <= i < v@.len() ==> probes@[i] == Some(#[trigger] v@[i]),
        r matches Err(i) ==> i < probes@.len() && probes@[i as int] is None && forall|j: int|
            0 <= j < i ==> probes@[j] is Some,
{
    let mut v: Vec<u64> = Vec::new();
    let mut k: usize = 0;
    while k < probes.len()
        invariant
            k <= probes@.len(),
            v@.len() == k,
            forall|i: int| 0 <= i < k ==> probes@[i] == Some(#[trigger] v@[i]),
        decreases probes@.len() - k,
    {
        match probes[k] {
            Some(len) => v.push(len),
            None => {
                assert forall|j: int| 0 <= j < k implies probes@[j] is Some by {
                    assert(probes@[j] == Some(v@[j]));
                }
                return Err(k);
            },
        }
        k = k + 1;
    }
    assert forall|i: int| 0 <= i < probes@.len() implies probes@[i] is Some by {
        assert(probes@[i] == Some(v@[i]));
    }
    Ok(v)
}

/// The sum of the first `k` sizes.
pub open spec fn sum_spec(sizes: Seq<u64>, k: int) -> int
    decreases k,
{
    if k <= 0 {
        0
    } else {
        sum_spec(sizes, k - 1) + sizes[k - 1]
    }
}

/// The total number of bytes to fetch.
pub fn total_size(sizes: &Vec<u64>) -> (r: u128)
    ensures
        r == sum_spec(sizes@, sizes@.len() as int),
{
    let n = sizes.len();
    let mut total: u128 = 0;
    let mut k: usize = 0;
    while k < n
        invariant
            k <= sizes@.len(),
            n == sizes@.len(),
            total == sum_spec(sizes@, k as int),
            total <= k * (u64::MAX as int),
        decreases sizes@.len() - k,
    {
        assert(k * (u64::MAX as int) + u64::MAX as int <= u128::MAX) by (nonlinear_arith)
            requires
                k < usize::MAX,
                usize::MAX <= u64::MAX,
        ;
        assert((k + 1) * (u64::MAX as int) == k * (u64::MAX as int) + u64::MAX as int) by (nonlinear_arith);
        total = total + sizes[k] as u128;
        k = k + 1;
    }
    total
}

/// What a file task does next.
#[derive(Clone, Copy, Debug, PartialEq, Eq, Structural)]
pub enum FileAction {
    /// Wait for the chunk with this index.
    AwaitChunk(usize),
    /// Every chunk is written: take a disk permit and decode.
    Decode,
    /// The chunk with this index failed: the file fails.
    Fail(usize),
}

/// The next step of a file task of `total` chunks, given whether each chunk
/// awaited so far, in index order, succeeded. Decoding starts only once
/// every chunk has succeeded; the first failure fails the file.
pub fn file_action(total: usize, awaited: &Vec<bool>) -> (r: FileAction)
    ensures
        r is Fail <==> exists|i: int| 0 <= i < awaited@.len() && !awaited@[i],
        r matches FileAction::Fail(i) ==> i < awaited@.len() && !awaited@[i as int] && forall|j: int|
            0 <= j < i ==> awaited@[j],
        !(r is Fail) ==> (r == if awaited@.len() < total {
            FileAction::AwaitChunk(awaited@.len() as usize)
        } else {
            FileAction::Decode
        }),
{
    match first_failed(awaited) {
        Some(i) => FileAction::Fail(i),
        None => {
            if awaited.len() < total {
                FileAction::AwaitChunk(awaited.len())
            } else {
                FileAction::Decode
            }
        },
    }
}

/// The position of the first file task that failed, awaiting them in
/// manifest order.
pub fn first_failed(succeeded: &Vec<bool>) -> (r: Option<usize>)
    ensures
        r is None <==> forall|i: int| 0 <= i < succeeded@.len() ==> succeeded@[i],
        r matches Some(i) ==> i < succeeded@.len() && !succeeded@[i as int] && forall|j: int|
            0 <= j < i ==> succeeded@[j],
{
    let mut k: usize = 0;
    while k < succeeded.len()
        invariant
            k <= succeeded@.len(),
            forall|j: int| 0 <= j < k ==> succeeded@[j],
        decreases succeeded@.len() - k,
    {
        if !succeeded[k] {
            return Some(k);
        }
        k = k + 1;
    }
    None
}

/// The exit status of a run whose file tasks all settled: success only if
/// every file task succeeded.
pub fn run_exit_code(succeeded: &Vec<bool>) -> (r: i32)
    ensures
        r == if forall|i: int| 0 <= i < succeeded@.len() ==> succeeded@[i] {
            EXIT_OK
        } else {
            EXIT_FILE_FAILED
        },
{
    match first_failed(succeeded) {
        None => EXIT_OK,
        Some(_) => EXIT_FILE_FAILED,
    }
}

/// Counts the permits of one pool that are held, to watch its cap: a
/// permit is granted only while fewer than the cap are held.
pub struct PermitGauge {
    cap: usize,
    held: usize,
}

impl PermitGauge {
    /// The most permits that may be held at once.
    pub closed spec fn cap_spec(&self) -> nat {
        self.cap as nat
    }

    /// The permits held now.
    pub closed spec fn held_spec(&self) -> nat {
        self.held as nat
    }

    /// No more permits are held than the cap allows.
    pub closed spec fn wf(&self) -> bool {
        self.held <= self.cap
    }

    /// At no point are more permits held than the cap.
    pub proof fn lemma_within_cap(&self)
        requires
            self.wf(),
        ensures
            self.held_spec() <= self.cap_spec(),
    {
    }

    /// A gauge with no permits held.
    pub fn new(cap: usize) -> (r: PermitGauge)
        ensures
            r.wf(),
            r.cap_spec() == cap,
            r.held_spec() == 0,
    {
        PermitGauge { cap, held: 0 }
    }

    /// Takes a permit if one is free.
    pub fn try_acquire(&mut self) -> (r: bool)
        requires
            old(self).wf(),
        ensures
            final(self).wf(),
            final(self).cap_spec() == old(self).cap_spec(),
            r == (old(self).held_spec() < old(self).cap_spec()),
            final(self).held_spec() == old(self).held_spec() + if r {
                1nat
            } else {
                0nat
            },
    {
        if self.held < self.cap {
            self.held = self.held + 1;
            true
        } else {
            false
        }
    }

    /// Gives a held permit back.
    pub fn release(&mut self)
        requires
            old(self).wf(),
            old(self).held_spec() > 0,
        ensures
            final(self).wf(),
            final(self).cap_spec() == old(self).cap_spec(),
            final(self).held_spec() == old(self).held_spec() - 1,
    {
        self.held = self.held - 1;
    }

    /// The permits held now.
    pub fn held(&self) -> (r: usize)
        ensures
            r == self.held_spec(),
    {
        self.held
    }

    /// The most permits that may be held at once.
    pub fn cap(&self) -> (r: usize)
        ensures
            r == self.cap_spec(),
    {
        self.cap
    }
}

/// The output directory that the installer recorded, as read from the
/// registry; empty where there is none.
pub fn get_fallback_output_dir(registry_location: Option<String>) -> (r: String)
    ensures
        r@ == match registry_location {
            Some(s) => s@,
            None => Seq::<char>::empty(),
        },
{
    match registry_location {
        Some(s) => s,
        None => String::new(),
    }
}

/// The directory to download to: the one given if any, else the fallback;
/// nothing if both are empty.
pub fn choose_output_dir(given: String, fallback: String) -> (r: Option<String>)
    ensures
        given@.len() > 0 ==> r == Some(given),
        given@.len() == 0 && fallback@.len() > 0 ==> r == Some(fallback),
        given@.len() == 0 && fallback@.len() == 0 ==> r is None,
{
    if !given.as_str().is_empty() {
        Some(given)
    } else if !fallback.as_str().is_empty() {
        Some(fallback)
    } else {
        None
    }
}

} // verus!
