//! Path mapping between sync-root-relative paths and absolute paths,
//! plus validation of relative paths against the reserved names.
//!
//! A relative path is the canonical key of a synced file: it always
//! starts with `/`, its final segment (the file name) must be
//! non-empty and must not be one of the reserved names (`.sync.db`,
//! or anything starting with `.~download~`), and no segment may be
//! empty, `.` or `..`, so a stored path can never escape the sync
//! root.

use vstd::prelude::*;
use vstd::string::*;

use crate::SyncError;

verus! {

/// The name of the local journal database file, reserved inside the sync root.
pub open spec fn journal_file_name() -> Seq<char> {
    ".sync.db"@
}

/// The prefix of in-flight download temporaries, reserved inside the sync root.
pub open spec fn download_prefix() -> Seq<char> {
    ".~download~"@
}

/// The final segment of a path: everything after the last `/`,
/// or the whole path when it holds no `/`.
pub open spec fn file_name_of(s: Seq<char>) -> Seq<char>
    decreases s.len(),
{
    if s.len() == 0 {
        s
    } else if s.last() == '/' {
        Seq::<char>::empty()
    } else {
        file_name_of(s.drop_last()).push(s.last())
    }
}

/// A file name that the reconciler must never sync.
pub open spec fn is_reserved_name(n: Seq<char>) -> bool {
    n == journal_file_name() || download_prefix().is_prefix_of(n)
}

/// A separator at `i` opens an empty, `.` or `..` segment: the forms
/// that would let a path name its own directory or escape the sync
/// root under a join.
pub open spec fn dot_or_empty_segment_at(p: Seq<char>, i: int) -> bool {
    &&& 0 <= i < p.len()
    &&& p[i] == '/'
    &&& {
        ||| (i + 1 < p.len() && p[i + 1] == '/')
        ||| (i + 1 < p.len() && p[i + 1] == '.' && (i + 2 >= p.len() || p[i + 2] == '/'))
        ||| (i + 2 < p.len() && p[i + 1] == '.' && p[i + 2] == '.' && (i + 3 >= p.len() || p[i
            + 3] == '/'))
    }
}

/// Some segment of the path is empty, `.` or `..`.
pub open spec fn has_dot_or_empty_segment(p: Seq<char>) -> bool {
    exists|i: int| dot_or_empty_segment_at(p, i)
}

/// A relative path the sync protocol accepts: absolute-style with a
/// leading separator, a non-empty final segment that is no reserved
/// name, and no empty, `.` or `..` segment anywhere, so that the path
/// can never escape the sync root.
pub open spec fn valid_rel_path(p: Seq<char>) -> bool {
    &&& p.len() > 0
    &&& p[0] == '/'
    &&& file_name_of(p).len() > 0
    &&& !is_reserved_name(file_name_of(p))
    &&& !has_dot_or_empty_segment(p)
}

/// A path whose file name is reserved; such paths are skipped by the
/// directory walk and rejected by the server.
pub open spec fn is_reserved_path(p: Seq<char>) -> bool {
    is_reserved_name(file_name_of(p))
}

/// The leading `/`-stripped remainder of a path, as `PathBuf::push`
/// sees a relative component.
pub open spec fn strip_leading_slashes(s: Seq<char>) -> Seq<char>
    decreases s.len(),
{
    if s.len() > 0 && s[0] == '/' {
        strip_leading_slashes(s.drop_first())
    } else {
        s
    }
}

/// The directory part of a path, up to and including the last `/`.
pub open spec fn dir_part_of(s: Seq<char>) -> Seq<char> {
    s.take(s.len() - file_name_of(s).len())
}

/// The relative path of the temporary sibling a download writes before
/// its final rename: the same directory, with the file name prefixed
/// by `.~download~`.
pub open spec fn temp_download_of(p: Seq<char>) -> Seq<char> {
    dir_part_of(p) + download_prefix() + file_name_of(p)
}

pub proof fn lemma_file_name_no_slash(s: Seq<char>)
    requires
        forall|j: int| 0 <= j < s.len() ==> s[j] != '/',
    ensures
        file_name_of(s) == s,
    decreases s.len(),
{
    if s.len() > 0 {
        lemma_file_name_no_slash(s.drop_last());
        assert(file_name_of(s.drop_last()).push(s.last()) =~= s);
    } else {
        assert(file_name_of(s) =~= s);
    }
}

pub proof fn lemma_file_name_after_slash(s: Seq<char>, k: int)
    requires
        0 <= k < s.len(),
        s[k] == '/',
        forall|j: int| k < j < s.len() ==> s[j] != '/',
    ensures
        file_name_of(s) == s.subrange(k + 1, s.len() as int),
    decreases s.len(),
{
    if k == s.len() - 1 {
        assert(file_name_of(s) =~= s.subrange(k + 1, s.len() as int));
    } else {
        lemma_file_name_after_slash(s.drop_last(), k);
        assert(s.drop_last().subrange(k + 1, s.len() - 1) =~= s.subrange(k + 1, s.len() - 1));
        assert(file_name_of(s) =~= s.subrange(k + 1, s.len() as int));
    }
}

/// A path splits into its directory part followed by its file name.
pub proof fn lemma_dir_part_file_name(s: Seq<char>)
    requires
        file_name_of(s).len() <= s.len(),
    ensures
        dir_part_of(s) + file_name_of(s) == s,
{
    lemma_file_name_len(s);
    lemma_file_name_suffix(s);
    assert(dir_part_of(s) + file_name_of(s) =~= s);
}

pub proof fn lemma_file_name_len(s: Seq<char>)
    ensures
        file_name_of(s).len() <= s.len(),
    decreases s.len(),
{
    if s.len() > 0 && s.last() != '/' {
        lemma_file_name_len(s.drop_last());
    }
}

/// The file name is the final subrange of the path.
pub proof fn lemma_file_name_suffix(s: Seq<char>)
    ensures
        file_name_of(s) == s.subrange(s.len() - file_name_of(s).len(), s.len() as int),
    decreases s.len(),
{
    lemma_file_name_len(s);
    if s.len() == 0 {
        assert(file_name_of(s) =~= s.subrange(
            s.len() - file_name_of(s).len(),
            s.len() as int,
        ));
    } else if s.last() == '/' {
        assert(file_name_of(s) =~= s.subrange(s.len() as int, s.len() as int));
    } else {
        lemma_file_name_suffix(s.drop_last());
        lemma_file_name_len(s.drop_last());
        assert(file_name_of(s) =~= s.subrange(s.len() - file_name_of(s).len(), s.len() as int));
    }
}

/// A file name holds no separator.
pub proof fn lemma_file_name_has_no_slash(s: Seq<char>)
    ensures
        forall|j: int| 0 <= j < file_name_of(s).len() ==> file_name_of(s)[j] != '/',
    decreases s.len(),
{
    if s.len() > 0 && s.last() != '/' {
        lemma_file_name_has_no_slash(s.drop_last());
        let n = file_name_of(s);
        assert forall|j: int| 0 <= j < n.len() implies n[j] != '/' by {
            if j < n.len() - 1 {
                assert(n[j] == file_name_of(s.drop_last())[j]);
            } else {
                assert(n[j] == s.last());
            }
        }
    }
}

/// A path with a leading separator is strictly longer than its file name.
pub proof fn lemma_file_name_shorter(s: Seq<char>)
    requires
        s.len() > 0,
        s[0] == '/',
    ensures
        file_name_of(s).len() < s.len(),
    decreases s.len(),
{
    if s.last() == '/' {
    } else {
        lemma_file_name_shorter(s.drop_last());
    }
}

/// The temporary download sibling keeps the leading separator and gets
/// a reserved, non-empty file name of its own.
pub proof fn lemma_temp_download_shape(p: Seq<char>)
    requires
        p.len() > 0,
        p[0] == '/',
    ensures
        temp_download_of(p).len() == p.len() + 11,
        temp_download_of(p) != p,
        temp_download_of(p)[0] == '/',
        file_name_of(temp_download_of(p)) == download_prefix() + file_name_of(p),
        is_reserved_path(temp_download_of(p)),
        file_name_of(temp_download_of(p)).len() > 0,
{
    let t = temp_download_of(p);
    let d = dir_part_of(p);
    let n = file_name_of(p);
    lemma_file_name_len(p);
    lemma_file_name_shorter(p);
    assert(d.len() == p.len() - n.len());
    assert(d.len() > 0);
    assert(d[0] == p[0]);
    assert(t[0] == '/');
    reveal_strlit(".~download~");
    assert(download_prefix().len() == 11);
    assert(t.len() == d.len() + 11 + n.len());
    // the last separator of the temporary path ends the directory part
    lemma_file_name_suffix(p);
    lemma_dir_part_file_name(p);
    if d.len() > 0 {
        assert(p[d.len() - 1] == d[d.len() - 1]);
    }
    assert(d.len() >= 1);
    assert(p[d.len() - 1] == '/') by {
        if n.len() == 0 {
            assert(p.last() == '/');
            assert(d.len() == p.len());
        } else {
            lemma_last_sep(p);
        }
    }
    assert(t[d.len() - 1] == '/');
    assert forall|j: int| d.len() <= j < t.len() implies t[j] != '/' by {
        if j < d.len() + 11 {
            assert(t[j] == download_prefix()[j - d.len()]);
        } else {
            assert(t[j] == n[j - d.len() - 11]);
            lemma_file_name_has_no_slash(p);
        }
    }
    lemma_file_name_after_slash(t, d.len() - 1);
    assert(file_name_of(t) =~= download_prefix() + n);
    assert(download_prefix().is_prefix_of(file_name_of(t)));
}

/// A non-empty file name sits after a separator.
proof fn lemma_last_sep(p: Seq<char>)
    requires
        p.len() > 0,
        p[0] == '/',
        file_name_of(p).len() > 0,
    ensures
        p[p.len() - file_name_of(p).len() - 1] == '/',
    decreases p.len(),
{
    if p.last() == '/' {
    } else {
        if p.len() == 1 {
            assert(p.last() == p[0]);
        } else {
            lemma_last_sep_inner(p);
        }
    }
}

proof fn lemma_last_sep_inner(p: Seq<char>)
    requires
        p.len() > 1,
        p[0] == '/',
        p.last() != '/',
    ensures
        p[p.len() - file_name_of(p).len() - 1] == '/',
    decreases p.len(),
{
    let q = p.drop_last();
    lemma_file_name_len(q);
    if q.last() == '/' {
        assert(file_name_of(p) == file_name_of(q).push(p.last()));
        assert(file_name_of(q).len() == 0);
        assert(p[p.len() - 2] == q.last());
    } else {
        if q.len() == 1 {
            assert(q.last() == p[0]);
            assert(false);
        } else {
            lemma_last_sep_inner(q);
            lemma_file_name_shorter(q);
            assert(file_name_of(p) == file_name_of(q).push(p.last()));
            assert(p[q.len() - file_name_of(q).len() - 1] == q[q.len() - file_name_of(q).len()
                - 1]);
        }
    }
}

/// Compare two string slices character by character.
pub fn str_eq_chars(a: &str, b: &str) -> (r: bool)
    ensures
        r == (a@ == b@),
{
    let a_len: usize = a.unicode_len();
    let b_len: usize = b.unicode_len();
    if a_len != b_len {
        assert(a@ != b@) by {
            assert(a@.len() != b@.len());
        }
        return false;
    }
    let mut i: usize = 0;
    while i < a_len
        invariant
            a_len == a@.len(),
            b_len == b@.len(),
            a_len == b_len,
            0 <= i <= a_len,
            forall|j: int| 0 <= j < i ==> a@[j] == b@[j],
        decreases a_len - i,
    {
        if a.get_char(i) != b.get_char(i) {
            return false;
        }
        i += 1;
    }
    proof {
        assert(a@ =~= b@);
    }
    true
}

/// Does `s` start with `prefix`, character-wise?
pub fn str_starts_with(s: &str, prefix: &str) -> (r: bool)
    ensures
        r == prefix@.is_prefix_of(s@),
{
    let s_len: usize = s.unicode_len();
    let p_len: usize = prefix.unicode_len();
    if p_len > s_len {
        return false;
    }
    let mut i: usize = 0;
    while i < p_len
        invariant
            s_len == s@.len(),
            p_len == prefix@.len(),
            p_len <= s_len,
            0 <= i <= p_len,
            forall|j: int| 0 <= j < i ==> s@[j] == prefix@[j],
        decreases p_len - i,
    {
        if s.get_char(i) != prefix.get_char(i) {
            assert(!prefix@.is_prefix_of(s@)) by {
                assert(s@.subrange(0, p_len as int)[i as int] != prefix@[i as int]);
            }
            return false;
        }
        i += 1;
    }
    proof {
        assert(prefix@ =~= s@.subrange(0, p_len as int));
    }
    true
}

/// The index just past the last `/` of `s`, or 0 when `s` holds none.
fn file_name_start(s: &str) -> (r: usize)
    ensures
        r <= s@.len(),
        file_name_of(s@) == s@.subrange(r as int, s@.len() as int),
        r > 0 ==> s@[r - 1] == '/',
    decreases s@.len(),
{
    let len: usize = s.unicode_len();
    let mut i: usize = len;
    while i > 0
        invariant
            len == s@.len(),
            0 <= i <= len,
            forall|j: int| i <= j < len ==> s@[j] != '/',
        decreases i,
    {
        if s.get_char(i - 1) == '/' {
            proof {
                lemma_file_name_after_slash(s@, i - 1);
            }
            return i;
        }
        i -= 1;
    }
    proof {
        lemma_file_name_no_slash(s@);
        assert(file_name_of(s@) =~= s@.subrange(0, s@.len() as int));
    }
    0
}

/// The final segment of a path string: everything after its last `/`.
pub fn extract_file_name(path_str: String) -> (r: String)
    ensures
        r@ == file_name_of(path_str@),
{
    let s = path_str.as_str();
    let start = file_name_start(s);
    s.substring_char(start, s.unicode_len()).to_owned()
}

/// Is some segment of the path empty, `.` or `..`?
fn find_dot_or_empty_segment(path: &str) -> (r: bool)
    ensures
        r == has_dot_or_empty_segment(path@),
{
    let len: usize = path.unicode_len();
    let mut i: usize = 0;
    while i < len
        invariant
            len == path@.len(),
            0 <= i <= len,
            forall|j: int| 0 <= j < i ==> !dot_or_empty_segment_at(path@, j),
        decreases len - i,
    {
        if path.get_char(i) == '/' {
            if i + 1 < len && path.get_char(i + 1) == '/' {
                proof {
                    assert(dot_or_empty_segment_at(path@, i as int));
                }
                return true;
            }
            if i + 1 < len && path.get_char(i + 1) == '.' {
                if i + 2 >= len || path.get_char(i + 2) == '/' {
                    proof {
                        assert(dot_or_empty_segment_at(path@, i as int));
                    }
                    return true;
                }
                if path.get_char(i + 2) == '.' && (i + 3 >= len || path.get_char(i + 3) == '/') {
                    proof {
                        assert(dot_or_empty_segment_at(path@, i as int));
                    }
                    return true;
                }
            }
        }
        i += 1;
    }
    false
}

/// Check a relative path against the protocol's rules: it must start
/// with `/`, must end in a non-empty file name that is not `.sync.db`
/// and does not start with `.~download~`, and no segment may be empty,
/// `.` or `..`.
pub fn validate_rel_path(path: &str) -> (r: Result<(), SyncError>)
    ensures
        r is Ok <==> valid_rel_path(path@),
        r is Err ==> r == Err::<(), SyncError>(SyncError::InvalidArgument),
{
    let len: usize = path.unicode_len();
    if len == 0 || path.get_char(0) != '/' {
        return Err(SyncError::InvalidArgument);
    }
    let start = file_name_start(path);
    let name = path.substring_char(start, len);
    if name.unicode_len() == 0 {
        return Err(SyncError::InvalidArgument);
    }
    if str_eq_chars(name, ".sync.db") {
        return Err(SyncError::InvalidArgument);
    }
    if str_starts_with(name, ".~download~") {
        return Err(SyncError::InvalidArgument);
    }
    if find_dot_or_empty_segment(path) {
        return Err(SyncError::InvalidArgument);
    }
    Ok(())
}

/// Is the file name of this path one of the reserved names?
pub fn is_reserved(path: &str) -> (r: bool)
    ensures
        r == is_reserved_path(path@),
{
    let len: usize = path.unicode_len();
    let start = file_name_start(path);
    let name = path.substring_char(start, len);
    if str_eq_chars(name, ".sync.db") {
        return true;
    }
    str_starts_with(name, ".~download~")
}

/// Turn an absolute path under the sync root into the sync-root-relative
/// path, keeping the leading separator.
pub fn abs_to_rel_path(sync_dir: &str, absolute_path: &str) -> (r: String)
    requires
        sync_dir@.is_prefix_of(absolute_path@),
        absolute_path@.len() > sync_dir@.len(),
        absolute_path@[sync_dir@.len() as int] == '/',
    ensures
        r@ == absolute_path@.subrange(sync_dir@.len() as int, absolute_path@.len() as int),
        r@.len() > 0 && r@[0] == '/',
{
    let from: usize = sync_dir.unicode_len();
    let to: usize = absolute_path.unicode_len();
    absolute_path.substring_char(from, to).to_owned()
}

/// Join the sync root and a relative path into an absolute path,
/// collapsing any extra leading separators of the relative part.
pub fn rel_to_abs_path(sync_dir: &str, relative_path: &str) -> (r: String)
    requires
        sync_dir@.len() > 0,
        sync_dir@.last() != '/',
    ensures
        r@ == sync_dir@ + seq!['/'] + strip_leading_slashes(relative_path@),
{
    let len: usize = relative_path.unicode_len();
    let mut i: usize = 0;
    while i < len && relative_path.get_char(i) == '/'
        invariant
            len == relative_path@.len(),
            0 <= i <= len,
            forall|j: int| 0 <= j < i ==> relative_path@[j] == '/',
        decreases len - i,
    {
        i += 1;
    }
    proof {
        lemma_strip_leading(relative_path@, i as int);
    }
    let mut out: String = sync_dir.to_owned();
    out.append("/");
    out.append(relative_path.substring_char(i, len));
    proof {
        assert(out@ =~= sync_dir@ + seq!['/'] + strip_leading_slashes(relative_path@)) by {
            reveal_strlit("/");
            assert("/"@ =~= seq!['/']);
        }
    }
    out
}

proof fn lemma_strip_leading(s: Seq<char>, i: int)
    requires
        0 <= i <= s.len(),
        forall|j: int| 0 <= j < i ==> s[j] == '/',
        i < s.len() ==> s[i] != '/',
    ensures
        strip_leading_slashes(s) == s.subrange(i, s.len() as int),
    decreases i,
{
    if i == 0 {
        if s.len() > 0 && s[0] == '/' {
            assert(false);
        }
        assert(strip_leading_slashes(s) =~= s.subrange(0, s.len() as int));
    } else {
        lemma_strip_leading(s.drop_first(), i - 1);
        assert(s.drop_first().subrange(i - 1, s.len() - 1) =~= s.subrange(i, s.len() as int));
    }
}

/// The relative temporary path a download of `rel` writes to before
/// its final rename.
pub fn temp_download_path(rel: &str) -> (r: String)
    ensures
        r@ == temp_download_of(rel@),
{
    let len: usize = rel.unicode_len();
    let start = file_name_start(rel);
    proof {
        lemma_file_name_len(rel@);
        lemma_file_name_suffix(rel@);
        assert(rel@.subrange(start as int, len as int).len() == file_name_of(rel@).len());
        assert(start as int == rel@.len() - file_name_of(rel@).len());
    }
    let mut out: String = rel.substring_char(0, start).to_owned();
    out.append(".~download~");
    out.append(rel.substring_char(start, len));
    proof {
        assert(out@ =~= temp_download_of(rel@));
    }
    out
}

/// The triple a synced file is addressed by: the sync root, the file's
/// absolute path, and its sync-root-relative path.
#[derive(Debug, Clone)]
pub struct FilePath {
    pub sync_dir: String,
    pub absolute_path: String,
    pub relative_path: String,
}

impl FilePath {
    /// The absolute path is always the sync root joined with the
    /// relative path, and the relative path keeps its leading `/`.
    pub open spec fn wf(self) -> bool {
        &&& self.sync_dir@.len() > 0
        &&& self.sync_dir@.last() != '/'
        &&& self.relative_path@.len() > 0
        &&& self.relative_path@[0] == '/'
        &&& self.absolute_path@ == self.sync_dir@ + seq!['/'] + strip_leading_slashes(
            self.relative_path@,
        )
    }

    pub fn duplicate(&self) -> (r: FilePath)
        ensures
            r == *self,
    {
        FilePath {
            sync_dir: self.sync_dir.clone(),
            absolute_path: self.absolute_path.clone(),
            relative_path: self.relative_path.clone(),
        }
    }

    pub open spec fn spec_sync_dir(self) -> Seq<char> {
        self.sync_dir@
    }

    pub open spec fn spec_abs(self) -> Seq<char> {
        self.absolute_path@
    }

    pub open spec fn spec_rel(self) -> Seq<char> {
        self.relative_path@
    }

    pub fn from_abs(sync_dir: &str, absolute_path: &str) -> (r: Self)
        requires
            sync_dir@.len() > 0,
            sync_dir@.last() != '/',
            sync_dir@.is_prefix_of(absolute_path@),
            absolute_path@.len() > sync_dir@.len(),
            absolute_path@[sync_dir@.len() as int] == '/',
            absolute_path@.len() > sync_dir@.len() + 1 ==> absolute_path@[sync_dir@.len() as int + 1]
                != '/',
        ensures
            r.wf(),
            r.spec_sync_dir() == sync_dir@,
            r.spec_abs() == absolute_path@,
            r.spec_rel() == absolute_path@.subrange(
                sync_dir@.len() as int,
                absolute_path@.len() as int,
            ),
    {
        let relative_path = abs_to_rel_path(sync_dir, absolute_path);
        let r = FilePath {
            sync_dir: sync_dir.to_owned(),
            absolute_path: absolute_path.to_owned(),
            relative_path,
        };
        proof {
            let rel = r.relative_path@;
            assert(strip_leading_slashes(rel) == rel.subrange(1, rel.len() as int)) by {
                lemma_strip_leading(rel, 1);
            }
            assert(r.absolute_path@ =~= r.sync_dir@ + seq!['/'] + rel.subrange(
                1,
                rel.len() as int,
            ));
        }
        r
    }

    pub fn from_rel(sync_dir: &str, relative_path: &str) -> (r: Self)
        requires
            sync_dir@.len() > 0,
            sync_dir@.last() != '/',
            relative_path@.len() > 0,
            relative_path@[0] == '/',
        ensures
            r.wf(),
            r.spec_sync_dir() == sync_dir@,
            r.spec_rel() == relative_path@,
            r.spec_abs() == sync_dir@ + seq!['/'] + strip_leading_slashes(relative_path@),
    {
        let absolute_path = rel_to_abs_path(sync_dir, relative_path);
        FilePath {
            sync_dir: sync_dir.to_owned(),
            absolute_path,
            relative_path: relative_path.to_owned(),
        }
    }

    pub fn get_sync_dir(&self) -> (r: &String)
        ensures
            r@ == self.spec_sync_dir(),
    {
        &self.sync_dir
    }

    pub fn get_abs(&self) -> (r: &String)
        ensures
            r@ == self.spec_abs(),
    {
        &self.absolute_path
    }

    pub fn get_rel(&self) -> (r: &String)
        ensures
            r@ == self.spec_rel(),
    {
        &self.relative_path
    }

    pub fn to_abs_str(&self) -> (r: String)
        ensures
            r@ == self.spec_abs(),
    {
        self.absolute_path.clone()
    }

    pub fn to_rel_str(&self) -> (r: String)
        ensures
            r@ == self.spec_rel(),
    {
        self.relative_path.clone()
    }
}

} // verus!
