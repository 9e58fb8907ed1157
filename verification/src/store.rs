//! The resource on disk: what is decided around it.
//!
//! The resource is never written in place. Content is staged in a temporary file and then renamed
//! over the target. The calls to the file system are made by whoever owns the file; their results
//! come in here as plain values, and what they mean for the harness is decided here.
//!
//! Splitting a write into staging, which has no effect on the resource, and one rename shrinks the
//! time between authorizing a write and applying it to a single call. Shrinking is not closing; what
//! closes the gap is that the version lives in the lock service.

use crate::text;
use std::collections::hash_map::DefaultHasher;
use std::hash::{Hash, Hasher};
use vstd::prelude::*;
use vstd::std_specs::hash::DefaultHasherAdditionalSpecFns;
use vstd::string::*;

verus! {

/// Where to abort. The point is chosen, so that a crash can be enumerated rather than raced for.
#[derive(Debug, Clone, Copy, PartialEq, Eq, Structural)]
pub enum CrashPoint {
    /// After the temporary file exists, before the rename.
    AfterTempWritten,
    /// Standing in for a rename that does not complete.
    DuringRename,
}

/// Why the resource could not be read.
#[derive(Debug, PartialEq, Eq)]
pub enum ReadFailure {
    /// There is no such file.
    NotFound,
    /// Anything else, with the reason as text.
    Other(String),
}

/// The protected file: where it is, and where an injected crash happens, if anywhere.
pub struct FileStore {
    path: String,
    fail_at: Option<CrashPoint>,
}

/// What a [`FileStore`] says.
#[verifier::ext_equal]
pub struct StoreView {
    pub path: Seq<char>,
    pub fail_at: Option<CrashPoint>,
}

impl View for FileStore {
    type V = StoreView;

    closed spec fn view(&self) -> StoreView {
        StoreView { path: self.path@, fail_at: self.fail_at }
    }
}

/// What a result with text in it says.
pub open spec fn text_result(out: Result<String, String>) -> Result<Seq<char>, Seq<char>> {
    match out {
        Ok(s) => Ok(s@),
        Err(e) => Err(e@),
    }
}

/// What a result with a reason in it says.
pub open spec fn unit_result(out: Result<(), String>) -> Result<(), Seq<char>> {
    match out {
        Ok(()) => Ok(()),
        Err(e) => Err(e@),
    }
}

/// The content that a read stands for. A file that does not exist yet is an empty one.
pub open spec fn content_read(raw: Result<String, ReadFailure>) -> Result<Seq<char>, Seq<char>> {
    match raw {
        Ok(s) => Ok(s@),
        Err(ReadFailure::NotFound) => Ok(Seq::empty()),
        Err(ReadFailure::Other(reason)) => Err(reason@),
    }
}

/// Whether staging counts as done: the file was written, and no crash is injected right after.
pub open spec fn staged(fail_at: Option<CrashPoint>, written: Result<(), Seq<char>>) -> Result<
    (),
    Seq<char>,
> {
    match written {
        Err(reason) => Err(reason),
        Ok(()) => if fail_at == Some(CrashPoint::AfterTempWritten) {
            Err("injected crash: after temp written"@)
        } else {
            Ok(())
        },
    }
}

/// Whether the rename may be made: no crash is injected in its place.
pub open spec fn may_rename(fail_at: Option<CrashPoint>) -> Result<(), Seq<char>> {
    if fail_at == Some(CrashPoint::DuringRename) {
        Err("injected crash: during rename"@)
    } else {
        Ok(())
    }
}

/// **A crash happens where it is injected, and nowhere else.** Without one, staging counts as done
/// exactly if the file was written, and the rename may be made. A crash after staging leaves the
/// rename free, a crash in place of the rename leaves staging free, and whatever the file system
/// itself said about staging is passed on.
pub proof fn crash_happens_where_injected(
    fail_at: Option<CrashPoint>,
    written: Result<(), Seq<char>>,
)
    ensures
        written is Err ==> staged(fail_at, written) == written,
        written is Ok ==> (staged(fail_at, written) is Err <==> fail_at == Some(
            CrashPoint::AfterTempWritten,
        )),
        may_rename(fail_at) is Err <==> fail_at == Some(CrashPoint::DuringRename),
        fail_at is None ==> staged(fail_at, written) is Ok == written is Ok,
{
}

/// **What is there is read, and what is not there is empty.** A read stands for exactly what the file
/// system gave; a file that is missing stands for no content at all, and any other failure is passed
/// on.
pub proof fn missing_file_is_empty(raw: Result<String, ReadFailure>)
    ensures
        raw matches Ok(s) ==> content_read(raw) == Ok::<Seq<char>, Seq<char>>(s@),
        content_read(raw) is Err <==> raw matches Err(ReadFailure::Other(_)),
        raw matches Err(ReadFailure::Other(reason)) ==> content_read(raw) == Err::<
            Seq<char>,
            Seq<char>,
        >(reason@),
        raw matches Err(ReadFailure::NotFound) ==> content_read(raw) is Ok && content_read(
            raw,
        )->Ok_0.len() == 0,
{
}

/// What is put behind the path of a file to stage an attempt to write it.
pub open spec fn staging_suffix(attempt: u64) -> Seq<char> {
    "."@ + text::decimal(attempt as nat) + ".tmp"@
}

/// Where an attempt to write the file at `path` is staged: beside the file, under a name of its own.
pub open spec fn staging_of(path: Seq<char>, attempt: u64) -> Seq<char> {
    path + staging_suffix(attempt)
}

/// The character parts the names in a path.
pub open spec fn is_separator(c: char) -> bool {
    c == '/' || c == '\\'
}

/// The directory part of a path: everything up to its last separator.
pub open spec fn directory(path: Seq<char>) -> Seq<char>
    decreases path.len(),
{
    if path.len() == 0 || is_separator(path.last()) {
        path
    } else {
        directory(path.drop_last())
    }
}

/// **Staging has no effect on the resource.** Whatever the file is called, content is staged under
/// another name.
pub proof fn staging_is_not_the_resource(path: Seq<char>, attempt: u64)
    ensures
        staging_of(path, attempt) != path,
{
    text::decimal_is_digits(attempt as nat);
    assert(staging_of(path, attempt).len() > path.len());
}

/// **Each attempt is staged on its own.** Two attempts never share a staging file, so discarding one
/// leaves the content of the other.
pub proof fn attempts_are_staged_apart(path: Seq<char>, a: u64, b: u64)
    requires
        a != b,
    ensures
        staging_of(path, a) != staging_of(path, b),
{
    if staging_of(path, a) == staging_of(path, b) {
        reveal_strlit(".");
        reveal_strlit(".tmp");
        let x = text::decimal(a as nat);
        let y = text::decimal(b as nat);
        let all = staging_of(path, a);
        assert(all.subrange(path.len() as int + 1, all.len() - 4) =~= x);
        assert(all.subrange(path.len() as int + 1, all.len() - 4) =~= y);
        text::decimal_tells_apart(a as nat, b as nat);
    }
}

/// **Content is staged in the directory of the file.** So the rename that publishes it stays within
/// one directory.
pub proof fn staging_stays_in_directory(path: Seq<char>, attempt: u64)
    ensures
        directory(staging_of(path, attempt)) == directory(path),
{
    let suffix = staging_suffix(attempt);
    reveal_strlit(".");
    reveal_strlit(".tmp");
    let digits = text::decimal(attempt as nat);
    text::decimal_is_digits(attempt as nat);
    assert forall|i: int| 0 <= i < suffix.len() implies !is_separator(#[trigger] suffix[i]) by {
        if 1 <= i < 1 + digits.len() {
            assert(suffix[i] == digits[i - 1]);
        }
    }
    lemma_directory(path, suffix);
}

proof fn lemma_directory(path: Seq<char>, suffix: Seq<char>)
    requires
        forall|i: int| 0 <= i < suffix.len() ==> !is_separator(#[trigger] suffix[i]),
    ensures
        directory(path + suffix) == directory(path),
    decreases suffix.len(),
{
    if suffix.len() == 0 {
        assert(path + suffix =~= path);
    } else {
        let first = suffix.drop_last();
        assert forall|i: int| 0 <= i < first.len() implies !is_separator(#[trigger] first[i]) by {
            assert(first[i] == suffix[i]);
        }
        lemma_directory(path, first);
        assert((path + suffix).drop_last() =~= path + first);
        assert(suffix[suffix.len() - 1] == suffix.last());
    }
}

/// What a hasher has been fed after `content` was fed to it as the standard library hashes a
/// string: `written` is what it had been fed before.
pub uninterp spec fn str_hashed(written: Seq<Seq<u8>>, content: Seq<char>) -> Seq<Seq<u8>>;

/// Calls the standard library's `Hash::hash` of `str`. What is claimed is only that what the hasher
/// is fed depends on nothing but what it was fed before and the characters of `content`.
#[verifier::external_body]
fn feed(content: &str, hasher: &mut DefaultHasher)
    ensures
        final(hasher)@ == str_hashed(old(hasher)@, content@),
{
    content.hash(hasher)
}

/// The hash of some content.
pub open spec fn hash_of(content: Seq<char>) -> u64 {
    DefaultHasher::spec_finish(str_hashed(Seq::empty(), content))
}

/// The content hash that the lock service keeps beside the version, so that a file which disagrees
/// with what the service believes can be detected.
///
/// It only has to detect change, not to resist forgery: agents never supply hashes.
pub fn content_hash(content: &str) -> (out: u64)
    ensures
        out == hash_of(content@),
{
    let mut hasher = DefaultHasher::new();
    feed(content, &mut hasher);
    hasher.finish()
}

impl FileStore {
    /// The file at `path`, with no crash injected.
    pub fn new(path: &str) -> (out: Self)
        ensures
            out@ == (StoreView { path: path@, fail_at: None }),
    {
        FileStore { path: path.to_owned(), fail_at: None }
    }

    /// The same file, with a crash injected at `p`.
    pub fn with_crash_at(self, p: CrashPoint) -> (out: Self)
        ensures
            out@ == (StoreView { fail_at: Some(p), ..self@ }),
    {
        FileStore { path: self.path, fail_at: Some(p) }
    }

    /// Where the file is.
    pub fn path(&self) -> (out: &str)
        ensures
            out@ == self@.path,
    {
        self.path.as_str()
    }

    /// Where content is staged for one attempt to write: beside the file, under a name that no other
    /// attempt has.
    pub fn staging(&self, attempt: u64) -> (out: String)
        ensures
            out@ == staging_of(self@.path, attempt),
    {
        let mut out = self.path.clone();
        out.append(".");
        out.append(text::decimal_string(attempt).as_str());
        out.append(".tmp");
        assert(out@ =~= staging_of(self@.path, attempt));
        out
    }

    /// What reading the file meant. `raw` is what the file system answered.
    pub fn read(&self, raw: Result<String, ReadFailure>) -> (out: Result<String, String>)
        ensures
            text_result(out) == content_read(raw),
    {
        match raw {
            Ok(s) => Ok(s),
            Err(ReadFailure::NotFound) => {
                let empty = String::new();
                assert(empty@ =~= Seq::empty());
                Ok(empty)
            },
            Err(ReadFailure::Other(reason)) => Err(reason),
        }
    }

    /// Whether content counts as staged. `written` is what writing the temporary file answered.
    /// Nothing has happened to the resource yet.
    pub fn prepare(&self, written: Result<(), String>) -> (out: Result<(), String>)
        ensures
            unit_result(out) == staged(self@.fail_at, unit_result(written)),
    {
        match written {
            Err(reason) => Err(reason),
            Ok(()) => {
                if self.fail_at == Some(CrashPoint::AfterTempWritten) {
                    Err("injected crash: after temp written".to_owned())
                } else {
                    Ok(())
                }
            },
        }
    }

    /// Whether staged content may be published. On `Ok` the caller makes the one rename that is the
    /// publication.
    pub fn commit(&self) -> (out: Result<(), String>)
        ensures
            unit_result(out) == may_rename(self@.fail_at),
    {
        if self.fail_at == Some(CrashPoint::DuringRename) {
            Err("injected crash: during rename".to_owned())
        } else {
            Ok(())
        }
    }
}

} // verus!
