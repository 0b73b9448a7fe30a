//! Describing an item that the sender serves: its files, their total size and an
//! info hash over names, sizes and contents; and the checks on the relative paths that
//! name what is served.
use vstd::prelude::*;
use vstd::utf8::encode_utf8;
use std::path::{Path, PathBuf};

use crate::text::push_char;

verus! {

broadcast use vstd::string::group_string_axioms;

#[verifier::external_type_specification]
#[verifier::external_body]
pub struct ExPathBuf(std::path::PathBuf);

#[verifier::external_type_specification]
#[verifier::external_body]
pub struct ExPath(std::path::Path);

#[verifier::external_type_specification]
#[verifier::external_body]
pub struct ExIoError(std::io::Error);

/// One file of an item: its path relative to the item's root, with `/` between
/// components, and its size in bytes.
#[derive(Clone, Debug)]
pub struct FileEntry {
    pub path: String,
    pub size: u64,
}

/// What the sender announces about an item.
#[derive(Clone, Debug)]
pub struct ItemMetadata {
    pub item: String,
    pub info_hash: String,
    pub total_size: u64,
    pub files: Vec<FileEntry>,
}

/// A file found under an item's root: its relative path (with `/` between
/// components), the size that the file system reports, and the bytes it holds.
#[derive(Clone, Debug)]
pub struct ScannedFile {
    pub path: String,
    pub size: u64,
    pub contents: Vec<u8>,
}

impl View for FileEntry {
    type V = (Seq<char>, u64);

    open spec fn view(&self) -> (Seq<char>, u64) {
        (self.path@, self.size)
    }
}

/// Why an item could not be described or a path was refused.
#[derive(Debug)]
pub struct MetadataError {
    message: &'static str,
    source: Option<std::io::Error>,
}

impl MetadataError {
    pub closed spec fn spec_message(&self) -> &'static str {
        self.message
    }

    pub closed spec fn has_source(&self) -> bool {
        self.source is Some
    }

    /// The I/O error that caused this one, if any.
    pub closed spec fn spec_source(&self) -> Option<std::io::Error> {
        self.source
    }

    /// An error with the given message and no underlying I/O error.
    pub fn new(message: &'static str) -> (e: Self)
        ensures
            e.spec_message() == message,
            !e.has_source(),
            e.spec_source() is None,
    {
        MetadataError { message, source: None }
    }

    /// An error with the given message caused by an I/O error.
    pub fn with_source(message: &'static str, source: std::io::Error) -> (e: Self)
        ensures
            e.spec_message() == message,
            e.has_source(),
            e.spec_source() == Some(source),
    {
        MetadataError { message, source: Some(source) }
    }

    /// The message of this error.
    pub fn message(&self) -> (m: &'static str)
        ensures
            m == self.spec_message(),
    {
        self.message
    }

    /// The message of this error, as a new `String`.
    pub fn to_string(&self) -> (s: String)
        ensures
            s@ == self.spec_message()@,
    {
        crate::text::copy_str(self.message)
    }

    /// The I/O error that caused this one, if any.
    pub fn io_source(&self) -> (s: Option<&std::io::Error>)
        ensures
            s is Some <==> self.has_source(),
            self.has_source() <==> self.spec_source() is Some,
            s matches Some(r) ==> self.spec_source() == Some(*r),
    {
        match &self.source {
            Some(e) => Some(e),
            None => None,
        }
    }
}

impl From<std::io::Error> for MetadataError {
    /// An I/O error, as the error `io error` caused by it.
    fn from(err: std::io::Error) -> (e: Self) {
        MetadataError { message: "io error", source: Some(err) }
    }
}

impl vstd::std_specs::convert::FromSpecImpl<std::io::Error> for MetadataError {
    open spec fn obeys_from_spec() -> bool {
        true
    }

    closed spec fn from_spec(v: std::io::Error) -> Self {
        MetadataError { message: "io error", source: Some(v) }
    }
}

/// Converting an I/O error gives the error `io error`, caused by that I/O error (what
/// `MetadataError::from`, and so `?` on an I/O result, returns).
pub proof fn lemma_from_io_error(err: std::io::Error)
    ensures
        <MetadataError as vstd::std_specs::convert::FromSpec<std::io::Error>>::obeys_from_spec(),
        <MetadataError as vstd::std_specs::convert::FromSpec<std::io::Error>>::from_spec(
            err,
        ).spec_message()@ == "io error"@,
        <MetadataError as vstd::std_specs::convert::FromSpec<std::io::Error>>::from_spec(
            err,
        ).has_source(),
        <MetadataError as vstd::std_specs::convert::FromSpec<std::io::Error>>::from_spec(
            err,
        ).spec_source() == Some(err),
{
}

// ---------------------------------------------------------------------------------
// Relative paths
// ---------------------------------------------------------------------------------

/// A path is absolute (on Unix) when it starts with `/`.
pub open spec fn is_absolute_path(p: Seq<char>) -> bool {
    p.len() > 0 && p[0] == '/'
}

/// A `..` component of `p` starts at index `i`: two dots between separators (or the
/// ends of `p`).
pub open spec fn parent_component_at(p: Seq<char>, i: int) -> bool {
    &&& 0 <= i
    &&& i + 2 <= p.len()
    &&& p[i] == '.'
    &&& p[i + 1] == '.'
    &&& (i == 0 || p[i - 1] == '/')
    &&& (i + 2 == p.len() || p[i + 2] == '/')
}

/// `p` holds a `..` component.
pub open spec fn has_parent_component(p: Seq<char>) -> bool {
    exists|i: int| parent_component_at(p, i)
}

/// `p` names something inside the directory it is taken relative to: it is neither
/// absolute nor climbs out with `..`.
pub open spec fn is_safe_relative(p: Seq<char>) -> bool {
    !is_absolute_path(p) && !has_parent_component(p)
}

/// What `PathBuf::from` makes of a string.
pub uninterp spec fn path_buf_from(s: Seq<char>) -> PathBuf;

/// What `Path::join` makes of a base path and a relative one.
pub uninterp spec fn path_joined(base: &Path, rel: PathBuf) -> PathBuf;

/// What `Path::to_string_lossy` gives of a path.
pub uninterp spec fn path_text(path: &Path) -> Seq<char>;

/// Trusted: `PathBuf::from(&str)`, which std documents as converting the string into
/// a path with the same text; the result is named `path_buf_from` of the text.
#[verifier::external_body]
fn path_from_str(s: &str) -> (p: PathBuf)
    ensures
        p == path_buf_from(s@),
{
    PathBuf::from(s)
}

/// Trusted: `Path::join`, which std documents as creating an owned path with `rel`
/// adjoined to `base`; the result is named `path_joined` of the two paths.
#[verifier::external_body]
fn join_path(base: &Path, rel: PathBuf) -> (p: PathBuf)
    ensures
        p == path_joined(base, rel),
{
    base.join(rel)
}

/// Trusted: `Path::to_string_lossy`, turned into an owned `String`; the text is named
/// `path_text` of the path. What it holds for a path that is not valid Unicode (where
/// std puts U+FFFD in place of invalid sequences) is not stated.
#[verifier::external_body]
fn lossy_text(path: &Path) -> (s: String)
    ensures
        s@ == path_text(path),
{
    path.to_string_lossy().into_owned()
}

/// Checks that `input` is a relative path that stays inside the directory it is taken
/// relative to. An absolute path is refused first; then any `..` component.
pub fn sanitize_relative_path(input: &str) -> (r: Result<PathBuf, MetadataError>)
    ensures
        match r {
            Ok(p) => is_safe_relative(input@) && p == path_buf_from(input@),
            Err(e) => !e.has_source() && if is_absolute_path(input@) {
                e.spec_message()@ == "absolute paths are not allowed"@
            } else {
                has_parent_component(input@) && e.spec_message()@
                    == "path traversal is not allowed"@
            },
        },
{
    let cs = crate::text::chars_of(input);
    let n = cs.len();
    if n > 0 && cs[0] == '/' {
        return Err(MetadataError::new("absolute paths are not allowed"));
    }
    let mut i: usize = 0;
    while i < n
        invariant
            n == cs@.len(),
            cs@ == input@,
            !is_absolute_path(input@),
            i <= n,
            forall|k: int| 0 <= k < i ==> !parent_component_at(input@, k),
        decreases n - i,
    {
        if cs[i] == '.' && i + 1 < n && cs[i + 1] == '.' && (i == 0 || cs[i - 1] == '/') && (i
            + 2 == n || cs[i + 2] == '/') {
            assert(parent_component_at(input@, i as int));
            return Err(MetadataError::new("path traversal is not allowed"));
        }
        i = i + 1;
    }
    assert(!has_parent_component(input@)) by {
        if exists|k: int| parent_component_at(input@, k) {
            let k = choose|k: int| parent_component_at(input@, k);
            assert(k < n);
        }
    }
    Ok(path_from_str(input))
}

/// The path of `item_path` under `base_dir`, once `item_path` has passed
/// `sanitize_relative_path`; otherwise the error of that check.
pub fn resolve_item_path(base_dir: &Path, item_path: &str) -> (r: Result<PathBuf, MetadataError>)
    ensures
        match r {
            Ok(p) => is_safe_relative(item_path@) && p == path_joined(
                base_dir,
                path_buf_from(item_path@),
            ),
            Err(e) => !e.has_source() && if is_absolute_path(item_path@) {
                e.spec_message()@ == "absolute paths are not allowed"@
            } else {
                has_parent_component(item_path@) && e.spec_message()@
                    == "path traversal is not allowed"@
            },
        },
{
    match sanitize_relative_path(item_path) {
        Ok(clean) => Ok(join_path(base_dir, clean)),
        Err(e) => Err(e),
    }
}

/// `s` with every `\` replaced by `/`.
pub open spec fn with_forward_slashes(s: Seq<char>) -> Seq<char> {
    s.map_values(|c: char| if c == '\\' { '/' } else { c })
}

/// The text of `path` with `/` as the only separator.
pub fn to_slash_path(path: &Path) -> (s: String)
    ensures
        s@ == with_forward_slashes(path_text(path)),
{
    let text = lossy_text(path);
    let cs = crate::text::chars_of(text.as_str());
    let mut out = String::new();
    let mut i: usize = 0;
    while i < cs.len()
        invariant
            i <= cs@.len(),
            cs@ == path_text(path),
            out@ == with_forward_slashes(cs@.subrange(0, i as int)),
        decreases cs@.len() - i,
    {
        let c = cs[i];
        if c == '\\' {
            push_char(&mut out, '/');
        } else {
            push_char(&mut out, c);
        }
        i = i + 1;
        assert(out@ =~= with_forward_slashes(cs@.subrange(0, i as int)));
    }
    assert(cs@.subrange(0, cs@.len() as int) =~= cs@);
    out
}

// ---------------------------------------------------------------------------------
// Ordering of files by path
// ---------------------------------------------------------------------------------

/// Byte-wise lexicographic order, the order of `str` and `String` in Rust.
pub open spec fn bytes_lt(a: Seq<u8>, b: Seq<u8>) -> bool
    decreases a.len(),
{
    if b.len() == 0 {
        false
    } else if a.len() == 0 {
        true
    } else if a[0] != b[0] {
        a[0] < b[0]
    } else {
        bytes_lt(a.drop_first(), b.drop_first())
    }
}

proof fn lemma_bytes_lt_irreflexive(a: Seq<u8>)
    ensures
        !bytes_lt(a, a),
    decreases a.len(),
{
    if a.len() > 0 {
        lemma_bytes_lt_irreflexive(a.drop_first());
    }
}

proof fn lemma_bytes_lt_asymmetric(a: Seq<u8>, b: Seq<u8>)
    requires
        bytes_lt(a, b),
    ensures
        !bytes_lt(b, a),
    decreases a.len(),
{
    if a.len() > 0 && b.len() > 0 && a[0] == b[0] {
        lemma_bytes_lt_asymmetric(a.drop_first(), b.drop_first());
    }
}

proof fn lemma_bytes_lt_transitive(a: Seq<u8>, b: Seq<u8>, c: Seq<u8>)
    requires
        bytes_lt(a, b),
        bytes_lt(b, c),
    ensures
        bytes_lt(a, c),
    decreases a.len(),
{
    if a.len() > 0 && b.len() > 0 && c.len() > 0 && a[0] == b[0] && b[0] == c[0] {
        lemma_bytes_lt_transitive(a.drop_first(), b.drop_first(), c.drop_first());
    }
}

/// The sort key of a scanned file: the UTF-8 bytes of its path.
pub open spec fn path_key(f: ScannedFile) -> Seq<u8> {
    encode_utf8(f.path@)
}

/// `order` lists each index below `n` exactly once.
pub open spec fn is_ordering(order: Seq<usize>, n: int) -> bool {
    &&& order.len() == n
    &&& forall|k: int| 0 <= k < n ==> #[trigger] order[k] < n
    &&& forall|k: int, l: int| 0 <= k < l < n ==> order[k] != order[l]
}

/// `order` lists the indices of `keys` so that the keys never decrease, and so that
/// indices with equal keys keep their relative order (a stable sort).
pub open spec fn stable_key_order(keys: Seq<Seq<u8>>, order: Seq<usize>) -> bool {
    &&& is_ordering(order, keys.len() as int)
    &&& forall|k: int, l: int|
        0 <= k < l < order.len() ==> !bytes_lt(
            #[trigger] keys[order[l] as int],
            #[trigger] keys[order[k] as int],
        )
    &&& forall|k: int, l: int|
        0 <= k < l < order.len() && #[trigger] keys[order[k] as int] == #[trigger] keys[
            order[l] as int] ==> order[k] < order[l]
}

/// `order` lists the files sorted by path as `sort_by` on the paths does: by the bytes
/// of the path, files with equal paths in the order they came.
pub open spec fn sorted_by_path(files: Seq<ScannedFile>, order: Seq<usize>) -> bool {
    stable_key_order(files.map_values(|f: ScannedFile| path_key(f)), order)
}

/// `a < b` in byte-wise lexicographic order.
fn bytes_less(a: &[u8], b: &[u8]) -> (r: bool)
    ensures
        r == bytes_lt(a@, b@),
{
    let mut i: usize = 0;
    assert(a@.skip(0) =~= a@);
    assert(b@.skip(0) =~= b@);
    while i < a.len() && i < b.len()
        invariant
            i <= a@.len(),
            i <= b@.len(),
            bytes_lt(a@, b@) == bytes_lt(a@.skip(i as int), b@.skip(i as int)),
        decreases a@.len() - i,
    {
        if a[i] != b[i] {
            return a[i] < b[i];
        }
        assert(a@.skip(i as int).drop_first() =~= a@.skip(i + 1));
        assert(b@.skip(i as int).drop_first() =~= b@.skip(i + 1));
        i = i + 1;
    }
    i < b.len()
}

proof fn lemma_insert_keeps_order(keys: Seq<Seq<u8>>, order: Seq<usize>, m: int, j: int)
    requires
        0 <= m < keys.len(),
        m <= usize::MAX,
        0 <= j <= order.len(),
        stable_key_order(keys.subrange(0, m), order),
        forall|k: int| 0 <= k < j ==> !bytes_lt(keys[m], #[trigger] keys[order[k] as int]),
        j < order.len() ==> bytes_lt(keys[m], keys[order[j] as int]),
    ensures
        stable_key_order(keys.subrange(0, m + 1), order.insert(j, m as usize)),
{
    let old_keys = keys.subrange(0, m);
    let new_keys = keys.subrange(0, m + 1);
    let new_order = order.insert(j, m as usize);
    order.insert_ensures(j, m as usize);
    assert(new_order[j] == m as usize);
    assert(old_keys.len() == m);
    assert(new_keys.len() == m + 1);
    assert(order.len() == m);
    assert forall|k: int| 0 <= k < order.len() implies #[trigger] old_keys[order[k] as int]
        == keys[order[k] as int] by {
        assert(order[k] < m);
    }
    assert forall|k: int| 0 <= k < new_order.len() implies #[trigger] new_keys[new_order[k] as int]
        == keys[new_order[k] as int] && new_order[k] < m + 1 by {
        if k < j {
            assert(new_order[k] == order[k]);
            assert(order[k] < m);
        } else if k > j {
            assert(new_order[k] == order[k - 1]);
            assert(order[k - 1] < m);
        }
    }
    assert forall|k: int, l: int| 0 <= k < l < m + 1 implies new_order[k] != new_order[l] by {
        if k != j && l != j {
            let ok = if k < j { k } else { k - 1 };
            let ol = if l < j { l } else { l - 1 };
            assert(new_order[k] == order[ok]);
            assert(new_order[l] == order[ol]);
            assert(ok < ol < m);
            assert(order[ok] != order[ol]);
        } else if k == j {
            assert(new_order[l] == order[l - 1]);
            assert(order[l - 1] < m);
        } else {
            assert(new_order[k] == order[k]);
            assert(order[k] < m);
        }
    }
    assert forall|k: int, l: int| 0 <= k < l < new_order.len() implies !bytes_lt(
        #[trigger] new_keys[new_order[l] as int],
        #[trigger] new_keys[new_order[k] as int],
    ) by {
        if k != j && l != j {
            let ok = if k < j { k } else { k - 1 };
            let ol = if l < j { l } else { l - 1 };
            assert(new_order[k] == order[ok]);
            assert(new_order[l] == order[ol]);
            assert(!bytes_lt(old_keys[order[ol] as int], old_keys[order[ok] as int]));
        } else if l == j {
            assert(new_order[k] == order[k]);
            assert(!bytes_lt(keys[m], keys[order[k] as int]));
        } else {
            // k == j < l
            assert(new_order[l] == order[l - 1]);
            let x = keys[m];
            let y = keys[order[j] as int];
            let z = keys[order[l - 1] as int];
            assert(bytes_lt(x, y));
            if l - 1 == j {
                lemma_bytes_lt_asymmetric(x, y);
            } else {
                assert(!bytes_lt(old_keys[order[l - 1] as int], old_keys[order[j] as int]));
                if bytes_lt(z, x) {
                    lemma_bytes_lt_transitive(z, x, y);
                }
            }
        }
    }
    assert forall|k: int, l: int|
        0 <= k < l < new_order.len() && #[trigger] new_keys[new_order[k] as int]
            == #[trigger] new_keys[new_order[l] as int] implies new_order[k] < new_order[l] by {
        if k != j && l != j {
            let ok = if k < j { k } else { k - 1 };
            let ol = if l < j { l } else { l - 1 };
            assert(new_order[k] == order[ok]);
            assert(new_order[l] == order[ol]);
            assert(old_keys[order[ok] as int] == old_keys[order[ol] as int]);
        } else if l == j {
            assert(new_order[k] == order[k]);
            assert(order[k] < m);
        } else {
            assert(new_order[l] == order[l - 1]);
            let x = keys[m];
            let y = keys[order[j] as int];
            let z = keys[order[l - 1] as int];
            assert(z == x);
            if l - 1 == j {
                lemma_bytes_lt_irreflexive(x);
            } else {
                assert(!bytes_lt(old_keys[order[l - 1] as int], old_keys[order[j] as int]));
            }
        }
    }
}

proof fn lemma_bytes_lt_total(a: Seq<u8>, b: Seq<u8>)
    requires
        a != b,
    ensures
        bytes_lt(a, b) || bytes_lt(b, a),
    decreases a.len(),
{
    if a.len() > 0 && b.len() > 0 && a[0] == b[0] {
        if a.drop_first() == b.drop_first() {
            assert(a =~= seq![a[0]] + a.drop_first());
            assert(b =~= seq![b[0]] + b.drop_first());
        }
        lemma_bytes_lt_total(a.drop_first(), b.drop_first());
    } else if a.len() == 0 && b.len() == 0 {
        assert(a =~= b);
    }
}

/// At `i`, `x` and `y` first differ, and `x` has the smaller byte there.
pub open spec fn smaller_at(x: Seq<u8>, y: Seq<u8>, i: int) -> bool {
    &&& 0 <= i < x.len()
    &&& i < y.len()
    &&& x.subrange(0, i) == y.subrange(0, i)
    &&& x[i] < y[i]
}

/// `x` comes before `y` byte by byte: `x` is a proper prefix of `y`, or at the first
/// byte where they differ `x` has the smaller one. The lengths matter only in the first
/// case.
pub open spec fn lex_before(x: Seq<u8>, y: Seq<u8>) -> bool {
    ||| (x.len() < y.len() && x == y.subrange(0, x.len() as int))
    ||| exists|i: int| #[trigger] smaller_at(x, y, i)
}

/// `x` equals `y` or comes before it byte by byte.
pub open spec fn lex_le(x: Seq<u8>, y: Seq<u8>) -> bool {
    x == y || lex_before(x, y)
}

/// The order of paths is byte-wise lexicographic, whatever their lengths: one byte
/// string comes before another exactly when it is a proper prefix of it, or has the
/// smaller byte where they first differ (so `aa` comes before `b`, and `b` does not
/// come before `aa`).
pub proof fn law_bytes_lt_is_lexicographic(a: Seq<u8>, b: Seq<u8>)
    ensures
        bytes_lt(a, b) <==> lex_before(a, b),
    decreases a.len(),
{
    if b.len() == 0 {
        assert(!lex_before(a, b)) by {
            if exists|i: int| #[trigger] smaller_at(a, b, i) {
                let i = choose|i: int| #[trigger] smaller_at(a, b, i);
                assert(i < b.len());
            }
        }
    } else if a.len() == 0 {
        assert(a =~= b.subrange(0, 0));
    } else if a[0] != b[0] {
        if a[0] < b[0] {
            assert(a.subrange(0, 0) =~= b.subrange(0, 0));
            assert(smaller_at(a, b, 0));
        } else {
            assert(!lex_before(a, b)) by {
                if a.len() < b.len() && a == b.subrange(0, a.len() as int) {
                    assert(a[0] == b.subrange(0, a.len() as int)[0]);
                }
                if exists|i: int| #[trigger] smaller_at(a, b, i) {
                    let i = choose|i: int| #[trigger] smaller_at(a, b, i);
                    if i > 0 {
                        assert(a.subrange(0, i)[0] == b.subrange(0, i)[0]);
                    }
                }
            }
        }
    } else {
        let a1 = a.drop_first();
        let b1 = b.drop_first();
        law_bytes_lt_is_lexicographic(a1, b1);
        let pre = a.len() < b.len() && a == b.subrange(0, a.len() as int);
        let pre1 = a1.len() < b1.len() && a1 == b1.subrange(0, a1.len() as int);
        assert(pre <==> pre1) by {
            if a.len() < b.len() {
                if a == b.subrange(0, a.len() as int) {
                    assert forall|j: int| 0 <= j < a1.len() implies a1[j] == b1.subrange(
                        0,
                        a1.len() as int,
                    )[j] by {
                        assert(a[j + 1] == b.subrange(0, a.len() as int)[j + 1]);
                    }
                    assert(a1 =~= b1.subrange(0, a1.len() as int));
                }
                if a1 == b1.subrange(0, a1.len() as int) {
                    assert forall|j: int| 0 <= j < a.len() implies a[j] == b.subrange(
                        0,
                        a.len() as int,
                    )[j] by {
                        if j > 0 {
                            assert(a1[j - 1] == b1.subrange(0, a1.len() as int)[j - 1]);
                        }
                    }
                    assert(a =~= b.subrange(0, a.len() as int));
                }
            }
        }
        let ex = exists|i: int| #[trigger] smaller_at(a, b, i);
        let ex1 = exists|i: int| #[trigger] smaller_at(a1, b1, i);
        assert(ex ==> ex1) by {
            if ex {
                let i = choose|i: int| #[trigger] smaller_at(a, b, i);
                assert(i > 0);
                assert(a.subrange(0, i).drop_first() =~= a1.subrange(0, i - 1));
                assert(b.subrange(0, i).drop_first() =~= b1.subrange(0, i - 1));
                assert(smaller_at(a1, b1, i - 1));
            }
        }
        assert(ex1 ==> ex) by {
            if ex1 {
                let i = choose|i: int| #[trigger] smaller_at(a1, b1, i);
                assert(a.subrange(0, i + 1) =~= seq![a[0]] + a1.subrange(0, i));
                assert(b.subrange(0, i + 1) =~= seq![b[0]] + b1.subrange(0, i));
                assert(smaller_at(a, b, i + 1));
            }
        }
    }
}

/// Keys listed in a stable key order never go back in byte-wise order.
proof fn lemma_key_order_is_bytewise(keys: Seq<Seq<u8>>, order: Seq<usize>)
    requires
        stable_key_order(keys, order),
    ensures
        forall|k: int, l: int|
            0 <= k < l < order.len() ==> lex_le(
                #[trigger] keys[order[k] as int],
                #[trigger] keys[order[l] as int],
            ),
{
    assert forall|k: int, l: int| 0 <= k < l < order.len() implies lex_le(
        #[trigger] keys[order[k] as int],
        #[trigger] keys[order[l] as int],
    ) by {
        let x = keys[order[k] as int];
        let y = keys[order[l] as int];
        assert(!bytes_lt(y, x));
        if x != y {
            lemma_bytes_lt_total(x, y);
            law_bytes_lt_is_lexicographic(x, y);
        }
    }
}

/// Files sorted by path come in byte-wise order of the UTF-8 bytes of their paths, the
/// bytes as they are (no letter case is folded): each path equals the next or comes
/// before it byte by byte.
pub proof fn law_sorted_files_are_bytewise(files: Seq<ScannedFile>, order: Seq<usize>)
    requires
        sorted_by_path(files, order),
    ensures
        forall|k: int, l: int|
            0 <= k < l < order.len() ==> lex_le(
                encode_utf8(#[trigger] files[order[k] as int].path@),
                encode_utf8(#[trigger] files[order[l] as int].path@),
            ),
{
    let keys = files.map_values(|f: ScannedFile| path_key(f));
    lemma_key_order_is_bytewise(keys, order);
    assert forall|k: int, l: int| 0 <= k < l < order.len() implies lex_le(
        encode_utf8(#[trigger] files[order[k] as int].path@),
        encode_utf8(#[trigger] files[order[l] as int].path@),
    ) by {
        assert(order[k] < files.len());
        assert(order[l] < files.len());
        assert(lex_le(keys[order[k] as int], keys[order[l] as int]));
    }
}

/// Entries sorted by path come in byte-wise order of the UTF-8 bytes of their paths,
/// the bytes as they are (no letter case is folded, so `R` comes before `d`): each path
/// equals the next or comes before it byte by byte.
pub proof fn law_sorted_entries_are_bytewise(files: Seq<FileEntry>, order: Seq<usize>)
    requires
        entries_sorted_by_path(files, order),
    ensures
        forall|k: int, l: int|
            0 <= k < l < order.len() ==> lex_le(
                encode_utf8(#[trigger] files[order[k] as int].path@),
                encode_utf8(#[trigger] files[order[l] as int].path@),
            ),
{
    let keys = files.map_values(|f: FileEntry| encode_utf8(f.path@));
    lemma_key_order_is_bytewise(keys, order);
    assert forall|k: int, l: int| 0 <= k < l < order.len() implies lex_le(
        encode_utf8(#[trigger] files[order[k] as int].path@),
        encode_utf8(#[trigger] files[order[l] as int].path@),
    ) by {
        assert(order[k] < files.len());
        assert(order[l] < files.len());
        assert(lex_le(keys[order[k] as int], keys[order[l] as int]));
    }
}

/// `order` lists the index `v`.
spec fn lists_index(order: Seq<usize>, v: int) -> bool {
    exists|k: int| 0 <= k < order.len() && order[k] == v
}

/// An ordering of the indices below `n` lists every one of them.
proof fn lemma_ordering_is_onto(order: Seq<usize>, n: int)
    requires
        is_ordering(order, n),
    ensures
        forall|v: int| 0 <= v < n ==> #[trigger] lists_index(order, v),
{
    let vals = order.map_values(|x: usize| x as int);
    assert(vals.no_duplicates()) by {
        assert forall|i: int, j: int| 0 <= i < vals.len() && 0 <= j < vals.len() && i != j implies vals[i]
            != vals[j] by {
            if i < j {
                assert(order[i] != order[j]);
            } else {
                assert(order[j] != order[i]);
            }
        }
    }
    vals.unique_seq_to_set();
    vstd::seq_lib::seq_to_set_is_finite(vals);
    let range = vstd::set_lib::set_int_range(0, n);
    vstd::set_lib::lemma_int_range(0, n);
    assert forall|v: int| vals.to_set().contains(v) implies range.contains(v) by {
        let k = choose|k: int| 0 <= k < vals.len() && vals[k] == v;
        assert(order[k] < n);
    }
    vstd::set_lib::lemma_subset_equality(vals.to_set(), range);
    assert forall|v: int| 0 <= v < n implies #[trigger] lists_index(order, v) by {
        assert(range.contains(v));
        assert(vals.to_set().contains(v));
        let k = choose|k: int| 0 <= k < vals.len() && vals[k] == v;
        assert(order[k] as int == v);
    }
}

/// Both `x` and `y` list the indices of `files` strictly by path key, and agree below `m`.
proof fn lemma_strict_orders_agree(files: Seq<ScannedFile>, x: Seq<usize>, y: Seq<usize>, m: int)
    requires
        is_ordering(x, files.len() as int),
        is_ordering(y, files.len() as int),
        forall|k: int, l: int|
            0 <= k < l < files.len() ==> bytes_lt(
                path_key(files[x[k] as int]),
                path_key(files[x[l] as int]),
            ),
        forall|k: int, l: int|
            0 <= k < l < files.len() ==> bytes_lt(
                path_key(files[y[k] as int]),
                path_key(files[y[l] as int]),
            ),
        0 <= m <= files.len(),
    ensures
        forall|k: int| 0 <= k < m ==> x[k] == y[k],
    decreases m,
{
    if m > 0 {
        lemma_strict_orders_agree(files, x, y, m - 1);
        let k = m - 1;
        let n = files.len() as int;
        if x[k] != y[k] {
            lemma_ordering_is_onto(x, n);
            lemma_ordering_is_onto(y, n);
            let kx = path_key(files[x[k] as int]);
            let ky = path_key(files[y[k] as int]);
            // where x[k] sits in y, and y[k] in x
            assert(lists_index(y, x[k] as int));
            assert(lists_index(x, y[k] as int));
            let p = choose|p: int| 0 <= p < y.len() && y[p] == x[k];
            let q = choose|q: int| 0 <= q < x.len() && x[q] == y[k];
            if p < k {
                assert(x[p] == y[p]);
                assert(x[p] != x[k]);
            }
            if q < k {
                assert(x[q] == y[q]);
                assert(y[q] != y[k]);
            }
            assert(p != k);
            assert(q != k);
            // p > k and q > k: y[k] before x[k] in y, x[k] before y[k] in x
            assert(bytes_lt(ky, kx));
            assert(bytes_lt(kx, ky));
            lemma_bytes_lt_asymmetric(kx, ky);
        }
    }
}

/// The records of the files that two orders list agree when the orders pick the same
/// files position by position.
proof fn lemma_hash_message_same_files(
    a: Seq<ScannedFile>,
    oa: Seq<usize>,
    b: Seq<ScannedFile>,
    ob: Seq<usize>,
)
    requires
        oa.len() == ob.len(),
        forall|k: int| 0 <= k < oa.len() ==> a[oa[k] as int] == b[ob[k] as int],
    ensures
        hash_message(a, oa) == hash_message(b, ob),
    decreases oa.len(),
{
    if oa.len() > 0 {
        lemma_hash_message_same_files(a, oa.drop_last(), b, ob.drop_last());
        assert(a[oa.last() as int] == b[ob.last() as int]);
    }
}

/// The order in which the files of an item are found does not matter: when `b` holds
/// the files of `a` rearranged (by `perm`) and no two files share a path, the files
/// sorted by path are the same, one for one, and so are the records that are hashed.
pub proof fn law_file_order_is_independent_of_scan_order(
    a: Seq<ScannedFile>,
    b: Seq<ScannedFile>,
    perm: Seq<usize>,
    oa: Seq<usize>,
    ob: Seq<usize>,
)
    requires
        is_ordering(perm, a.len() as int),
        b.len() == a.len(),
        forall|k: int| 0 <= k < b.len() ==> #[trigger] b[k] == a[perm[k] as int],
        forall|i: int, j: int|
            0 <= i < j < a.len() ==> path_key(#[trigger] a[i]) != path_key(#[trigger] a[j]),
        sorted_by_path(a, oa),
        sorted_by_path(b, ob),
    ensures
        forall|k: int| 0 <= k < a.len() ==> #[trigger] a[oa[k] as int] == b[ob[k] as int],
        hash_message(a, oa) == hash_message(b, ob),
{
    let n = a.len() as int;
    let keys_a = a.map_values(|f: ScannedFile| path_key(f));
    let keys_b = b.map_values(|f: ScannedFile| path_key(f));
    // the indices into `a` that `ob` picks
    let c = Seq::new(n as nat, |k: int| perm[ob[k] as int]);
    assert(is_ordering(c, n)) by {
        assert forall|k: int| 0 <= k < n implies #[trigger] c[k] < n by {
            assert(ob[k] < n);
            assert(perm[ob[k] as int] < n);
        }
        assert forall|k: int, l: int| 0 <= k < l < n implies c[k] != c[l] by {
            assert(ob[k] != ob[l]);
            if ob[k] < ob[l] {
                assert(perm[ob[k] as int] != perm[ob[l] as int]);
            } else {
                assert(perm[ob[l] as int] != perm[ob[k] as int]);
            }
        }
    }
    assert forall|k: int| 0 <= k < n implies #[trigger] b[ob[k] as int] == a[c[k] as int] by {
        assert(ob[k] < n);
    }
    assert forall|k: int, l: int| 0 <= k < l < n implies bytes_lt(
        path_key(a[oa[k] as int]),
        path_key(a[oa[l] as int]),
    ) by {
        let x = path_key(a[oa[k] as int]);
        let y = path_key(a[oa[l] as int]);
        assert(keys_a[oa[k] as int] == x);
        assert(keys_a[oa[l] as int] == y);
        assert(!bytes_lt(keys_a[oa[l] as int], keys_a[oa[k] as int]));
        assert(oa[k] != oa[l]);
        assert(x != y) by {
            if oa[k] < oa[l] {
                assert(path_key(a[oa[k] as int]) != path_key(a[oa[l] as int]));
            } else {
                assert(path_key(a[oa[l] as int]) != path_key(a[oa[k] as int]));
            }
        }
        lemma_bytes_lt_total(x, y);
    }
    assert forall|k: int, l: int| 0 <= k < l < n implies bytes_lt(
        path_key(a[c[k] as int]),
        path_key(a[c[l] as int]),
    ) by {
        let x = path_key(a[c[k] as int]);
        let y = path_key(a[c[l] as int]);
        assert(keys_b[ob[k] as int] == x);
        assert(keys_b[ob[l] as int] == y);
        assert(!bytes_lt(keys_b[ob[l] as int], keys_b[ob[k] as int]));
        assert(c[k] != c[l]);
        assert(x != y) by {
            if c[k] < c[l] {
                assert(path_key(a[c[k] as int]) != path_key(a[c[l] as int]));
            } else {
                assert(path_key(a[c[l] as int]) != path_key(a[c[k] as int]));
            }
        }
        lemma_bytes_lt_total(x, y);
    }
    lemma_strict_orders_agree(a, oa, c, n);
    assert forall|k: int| 0 <= k < a.len() implies #[trigger] a[oa[k] as int] == b[ob[k] as int] by {
        assert(oa[k] == c[k]);
    }
    lemma_hash_message_same_files(a, oa, b, ob);
}

/// The keys as byte sequences.
pub open spec fn key_views(keys: Seq<Vec<u8>>) -> Seq<Seq<u8>> {
    keys.map_values(|k: Vec<u8>| k@)
}

/// The indices of `keys` in byte-wise order of the keys (a stable sort).
fn key_order(keys: &Vec<Vec<u8>>) -> (order: Vec<usize>)
    ensures
        stable_key_order(key_views(keys@), order@),
{
    let ghost ks = key_views(keys@);
    let n = keys.len();
    let mut order: Vec<usize> = Vec::new();
    let mut m: usize = 0;
    assert(stable_key_order(ks.subrange(0, 0), order@));
    while m < n
        invariant
            n == keys@.len(),
            ks == key_views(keys@),
            m <= n,
            stable_key_order(ks.subrange(0, m as int), order@),
        decreases n - m,
    {
        let key = keys[m].as_slice();
        assert(key@ == ks[m as int]);
        let mut j: usize = 0;
        while j < order.len() && !bytes_less(key, keys[order[j]].as_slice())
            invariant
                n == keys@.len(),
                ks == key_views(keys@),
                m < n,
                key@ == ks[m as int],
                j <= order@.len(),
                order@.len() == m,
                stable_key_order(ks.subrange(0, m as int), order@),
                forall|k: int| 0 <= k < j ==> !bytes_lt(ks[m as int], #[trigger] ks[order@[k] as int]),
            decreases order@.len() - j,
        {
            proof {
                assert(order@[j as int] < m);
            }
            j = j + 1;
        }
        proof {
            if j < order@.len() {
                assert(order@[j as int] < m);
            }
            lemma_insert_keeps_order(ks, order@, m as int, j as int);
        }
        order.insert(j, m);
        m = m + 1;
    }
    assert(ks.subrange(0, n as int) =~= ks);
    order
}

/// The UTF-8 bytes of `s`, in a new vector.
fn bytes_of(s: &str) -> (v: Vec<u8>)
    ensures
        v@ == encode_utf8(s@),
{
    let mut v: Vec<u8> = Vec::new();
    append_bytes(&mut v, s.as_bytes());
    assert(v@ =~= encode_utf8(s@));
    v
}

/// The indices of `files` in the order of their paths (a stable sort).
fn path_order(files: &Vec<ScannedFile>) -> (order: Vec<usize>)
    ensures
        sorted_by_path(files@, order@),
{
    let mut keys: Vec<Vec<u8>> = Vec::new();
    let mut i: usize = 0;
    while i < files.len()
        invariant
            i <= files@.len(),
            keys@.len() == i,
            forall|k: int| 0 <= k < i ==> #[trigger] keys@[k]@ == path_key(files@[k]),
        decreases files@.len() - i,
    {
        keys.push(bytes_of(files[i].path.as_str()));
        i = i + 1;
    }
    let order = key_order(&keys);
    assert(key_views(keys@) =~= files@.map_values(|f: ScannedFile| path_key(f)));
    order
}

/// `order` lists the entries sorted by path as `sort_by` on the paths does: by the
/// bytes of the path, entries with equal paths in the order they came.
pub open spec fn entries_sorted_by_path(files: Seq<FileEntry>, order: Seq<usize>) -> bool {
    stable_key_order(files.map_values(|f: FileEntry| encode_utf8(f.path@)), order)
}

/// The indices of `files` in the order of their paths (a stable sort).
fn entry_order(files: &Vec<FileEntry>) -> (order: Vec<usize>)
    ensures
        entries_sorted_by_path(files@, order@),
{
    let mut keys: Vec<Vec<u8>> = Vec::new();
    let mut i: usize = 0;
    while i < files.len()
        invariant
            i <= files@.len(),
            keys@.len() == i,
            forall|k: int| 0 <= k < i ==> #[trigger] keys@[k]@ == encode_utf8(files@[k].path@),
        decreases files@.len() - i,
    {
        keys.push(bytes_of(files[i].path.as_str()));
        i = i + 1;
    }
    let order = key_order(&keys);
    assert(key_views(keys@) =~= files@.map_values(|f: FileEntry| encode_utf8(f.path@)));
    order
}

// ---------------------------------------------------------------------------------
// Hashing
// ---------------------------------------------------------------------------------

/// The SHA-256 digest of `data`.
pub uninterp spec fn sha256(data: Seq<u8>) -> Seq<u8>;

/// A SHA-256 hasher of `sha2`, held whole: Verus sees only what it has taken in, through
/// `absorbed`. (Verus refuses a declaration of `sha2::Sha256` itself, an alias of a
/// generic wrapper over types of `digest` and `typenum`.)
#[verifier::external_body]
pub struct Sha256Hasher {
    inner: sha2::Sha256,
}

/// The bytes that a SHA-256 hasher has taken in so far.
pub uninterp spec fn absorbed(hasher: Sha256Hasher) -> Seq<u8>;

/// Trusted: `Digest::new` for `sha2::Sha256`, a hasher that has taken in nothing.
#[verifier::external_body]
fn hasher_new() -> (hasher: Sha256Hasher)
    ensures
        absorbed(hasher) == Seq::<u8>::empty(),
{
    Sha256Hasher { inner: <sha2::Sha256 as sha2::Digest>::new() }
}

/// Trusted: `Digest::update` for `sha2::Sha256`, which feeds `data` to the hasher after
/// what it took in before.
#[verifier::external_body]
fn hasher_update(hasher: &mut Sha256Hasher, data: &[u8])
    ensures
        absorbed(*final(hasher)) == absorbed(*old(hasher)) + data@,
{
    <sha2::Sha256 as sha2::Digest>::update(&mut hasher.inner, data)
}

/// Trusted: `Digest::finalize` for `sha2::Sha256`: the SHA-256 digest of all the bytes
/// the hasher took in, 32 bytes long (its output size is `U32`).
#[verifier::external_body]
fn hasher_finalize(hasher: Sha256Hasher) -> (digest: Vec<u8>)
    ensures
        digest@ == sha256(absorbed(hasher)),
        digest@.len() == 32,
{
    <sha2::Sha256 as sha2::Digest>::finalize(hasher.inner).to_vec()
}

/// The eight little-endian bytes of `x`.
pub open spec fn le_bytes(x: u64) -> Seq<u8> {
    Seq::new(8, |i: int| (x >> (8 * i) as u64) as u8)
}

/// What a file adds to the hashed message: the UTF-8 bytes of its path, its size as
/// eight little-endian bytes, then its contents.
pub open spec fn file_record(f: ScannedFile) -> Seq<u8> {
    encode_utf8(f.path@) + le_bytes(f.size) + f.contents@
}

/// The records of the files that `order` lists, one after another.
pub open spec fn hash_message(files: Seq<ScannedFile>, order: Seq<usize>) -> Seq<u8>
    decreases order.len(),
{
    if order.len() == 0 {
        Seq::<u8>::empty()
    } else {
        hash_message(files, order.drop_last()) + file_record(files[order.last() as int])
    }
}

/// The lowercase hexadecimal digit for `d` (below 16).
pub open spec fn hex_digit(d: u8) -> char {
    if d < 10 {
        (48 + d) as char
    } else {
        (87 + d) as char
    }
}

/// Two lowercase hexadecimal digits per byte, high half first (as `{:x}` prints a digest).
pub open spec fn hex_lower(bytes: Seq<u8>) -> Seq<char>
    decreases bytes.len(),
{
    if bytes.len() == 0 {
        Seq::<char>::empty()
    } else {
        hex_lower(bytes.drop_last()) + seq![
            hex_digit(bytes.last() / 16),
            hex_digit(bytes.last() % 16),
        ]
    }
}

/// `c` is a lowercase hexadecimal digit: `0`-`9` or `a`-`f`.
pub open spec fn is_lower_hex_char(c: char) -> bool {
    (48 <= c as u32 <= 57) || (97 <= c as u32 <= 102)
}

proof fn lemma_hex_lower_shape(bytes: Seq<u8>)
    ensures
        hex_lower(bytes).len() == 2 * bytes.len(),
        forall|i: int| 0 <= i < hex_lower(bytes).len() ==> is_lower_hex_char(#[trigger] hex_lower(bytes)[i]),
    decreases bytes.len(),
{
    if bytes.len() > 0 {
        let prev = bytes.drop_last();
        lemma_hex_lower_shape(prev);
        let b = bytes.last();
        let hi = hex_digit(b / 16);
        let lo = hex_digit(b % 16);
        assert(is_lower_hex_char(hi)) by {
            let d = b / 16;
            if d < 10 {
                assert(((48 + d) as char) as u32 == 48 + d);
            } else {
                assert(((87 + d) as char) as u32 == 87 + d);
            }
        }
        assert(is_lower_hex_char(lo)) by {
            let d = b % 16;
            if d < 10 {
                assert(((48 + d) as char) as u32 == 48 + d);
            } else {
                assert(((87 + d) as char) as u32 == 87 + d);
            }
        }
        let h = hex_lower(bytes);
        assert forall|i: int| 0 <= i < h.len() implies is_lower_hex_char(#[trigger] h[i]) by {
            if i < hex_lower(prev).len() {
                assert(h[i] == hex_lower(prev)[i]);
            } else if i == hex_lower(prev).len() {
                assert(h[i] == hi);
            } else {
                assert(h[i] == lo);
            }
        }
    }
}

fn hex_digit_of(d: u8) -> (c: char)
    requires
        d < 16,
    ensures
        c == hex_digit(d),
{
    if d < 10 {
        (48u8 + d) as char
    } else {
        (87u8 + d) as char
    }
}

fn to_hex_lower(bytes: &[u8]) -> (s: String)
    ensures
        s@ == hex_lower(bytes@),
{
    let mut s = String::new();
    let mut i: usize = 0;
    while i < bytes.len()
        invariant
            i <= bytes@.len(),
            s@ == hex_lower(bytes@.subrange(0, i as int)),
        decreases bytes@.len() - i,
    {
        let b = bytes[i];
        push_char(&mut s, hex_digit_of(b / 16));
        push_char(&mut s, hex_digit_of(b % 16));
        proof {
            let next = bytes@.subrange(0, i + 1);
            assert(next.drop_last() =~= bytes@.subrange(0, i as int));
            assert(next.last() == b);
        }
        i = i + 1;
    }
    assert(bytes@.subrange(0, bytes@.len() as int) =~= bytes@);
    s
}

fn append_bytes(out: &mut Vec<u8>, bytes: &[u8])
    ensures
        final(out)@ == old(out)@ + bytes@,
{
    let mut i: usize = 0;
    while i < bytes.len()
        invariant
            i <= bytes@.len(),
            out@ == old(out)@ + bytes@.subrange(0, i as int),
        decreases bytes@.len() - i,
    {
        out.push(bytes[i]);
        i = i + 1;
        assert(out@ =~= old(out)@ + bytes@.subrange(0, i as int));
    }
    assert(bytes@.subrange(0, bytes@.len() as int) =~= bytes@);
}

fn append_le_bytes(out: &mut Vec<u8>, x: u64)
    ensures
        final(out)@ == old(out)@ + le_bytes(x),
{
    let mut i: u64 = 0;
    while i < 8
        invariant
            i <= 8,
            out@ == old(out)@ + le_bytes(x).subrange(0, i as int),
        decreases 8 - i,
    {
        out.push((x >> (8 * i)) as u8);
        i = i + 1;
        assert(out@ =~= old(out)@ + le_bytes(x).subrange(0, i as int));
    }
    assert(le_bytes(x).subrange(0, 8) =~= le_bytes(x));
}

// ---------------------------------------------------------------------------------
// Sizes
// ---------------------------------------------------------------------------------

/// The sum of the sizes of `entries`.
pub open spec fn sum_sizes(entries: Seq<FileEntry>) -> int
    decreases entries.len(),
{
    if entries.len() == 0 {
        0
    } else {
        sum_sizes(entries.drop_last()) + entries.last().size
    }
}

/// The sum of the sizes of `entries`, capped at `u64::MAX` (what adding them with
/// `saturating_add` gives).
pub open spec fn saturating_total(entries: Seq<FileEntry>) -> int {
    if sum_sizes(entries) > u64::MAX {
        u64::MAX as int
    } else {
        sum_sizes(entries)
    }
}

proof fn lemma_sum_sizes_nonnegative(entries: Seq<FileEntry>)
    ensures
        sum_sizes(entries) >= 0,
    decreases entries.len(),
{
    if entries.len() > 0 {
        lemma_sum_sizes_nonnegative(entries.drop_last());
    }
}

// ---------------------------------------------------------------------------------
// Metadata
// ---------------------------------------------------------------------------------

/// The entry of the file that `order` lists at `k`.
pub open spec fn entry_view(files: Seq<ScannedFile>, order: Seq<usize>, k: int) -> (Seq<char>, u64) {
    (files[order[k] as int].path@, files[order[k] as int].size)
}

/// Describes the item `item` made of `files`: the entries sorted by path, their total
/// size (capped at `u64::MAX`) and, as the info hash, the lowercase hex SHA-256 digest
/// of the records of the files in that order.
pub fn build_metadata(item: &str, files: Vec<ScannedFile>) -> (metadata: ItemMetadata)
    ensures
        metadata.item@ == item@,
        metadata.files@.len() == files@.len(),
        exists|order: Seq<usize>|
            #[trigger] sorted_by_path(files@, order) && (forall|k: int|
                0 <= k < files@.len() ==> #[trigger] metadata.files@[k]@ == entry_view(
                    files@,
                    order,
                    k,
                )) && metadata.info_hash@ == hex_lower(sha256(hash_message(files@, order))),
        forall|k: int, l: int|
            0 <= k < l < metadata.files@.len() ==> lex_le(
                encode_utf8(#[trigger] metadata.files@[k].path@),
                encode_utf8(#[trigger] metadata.files@[l].path@),
            ),
        metadata.total_size == saturating_total(metadata.files@),
        metadata.info_hash@.len() == 64,
        forall|i: int|
            0 <= i < metadata.info_hash@.len() ==> is_lower_hex_char(#[trigger] metadata.info_hash@[i]),
{
    let order = path_order(&files);
    proof {
        law_sorted_files_are_bytewise(files@, order@);
    }
    let n = files.len();
    let mut entries: Vec<FileEntry> = Vec::new();
    let mut message: Vec<u8> = Vec::new();
    let mut total: u64 = 0;
    let mut k: usize = 0;
    assert(order@.subrange(0, 0) =~= Seq::<usize>::empty());
    while k < n
        invariant
            n == files@.len(),
            sorted_by_path(files@, order@),
            k <= n,
            entries@.len() == k,
            forall|q: int| 0 <= q < k ==> #[trigger] entries@[q]@ == entry_view(files@, order@, q),
            message@ == hash_message(files@, order@.subrange(0, k as int)),
            total == saturating_total(entries@),
        decreases n - k,
    {
        let i = order[k];
        proof {
            assert(order@[k as int] < n);
        }
        let f = &files[i];
        let size = f.size;
        let ghost prev = entries@;
        entries.push(FileEntry { path: crate::text::copy_str(f.path.as_str()), size });
        append_bytes(&mut message, f.path.as_str().as_bytes());
        append_le_bytes(&mut message, size);
        append_bytes(&mut message, f.contents.as_slice());
        proof {
            assert(entries@.drop_last() =~= prev);
            lemma_sum_sizes_nonnegative(prev);
        }
        total = total.saturating_add(size);
        proof {
            let pre = order@.subrange(0, k as int);
            let post = order@.subrange(0, k + 1);
            assert(post.drop_last() =~= pre);
            assert(message@ =~= hash_message(files@, pre) + file_record(files@[i as int]));
        }
        k = k + 1;
    }
    assert(order@.subrange(0, n as int) =~= order@);
    let mut hasher = hasher_new();
    hasher_update(&mut hasher, message.as_slice());
    assert(absorbed(hasher) =~= message@);
    let digest = hasher_finalize(hasher);
    let info_hash = to_hex_lower(digest.as_slice());
    proof {
        lemma_hex_lower_shape(digest@);
    }
    assert forall|k: int, l: int| 0 <= k < l < entries@.len() implies lex_le(
        encode_utf8(#[trigger] entries@[k].path@),
        encode_utf8(#[trigger] entries@[l].path@),
    ) by {
        assert(entries@[k]@ == entry_view(files@, order@, k));
        assert(entries@[l]@ == entry_view(files@, order@, l));
    }
    ItemMetadata { item: crate::text::copy_str(item), info_hash, total_size: total, files: entries }
}

// ---------------------------------------------------------------------------------
// Describing an item file by file
// ---------------------------------------------------------------------------------

/// What a file adds to the hashed message: the UTF-8 bytes of its path, its size as
/// eight little-endian bytes, then its contents.
pub open spec fn entry_record(entry: FileEntry, contents: Seq<u8>) -> Seq<u8> {
    encode_utf8(entry.path@) + le_bytes(entry.size) + contents
}

/// The records of the first `contents.len()` entries, entry `k` with `contents[k]`.
pub open spec fn entries_message(entries: Seq<FileEntry>, contents: Seq<Seq<u8>>) -> Seq<u8>
    decreases contents.len(),
{
    if contents.len() == 0 {
        Seq::<u8>::empty()
    } else {
        entries_message(entries, contents.drop_last()) + entry_record(
            entries[contents.len() - 1],
            contents.last(),
        )
    }
}

/// An item being described one file at a time, so that no file needs to be held whole:
/// the files are sorted by path when it is made; then each file in turn is started
/// (its path and size are hashed) and its contents are fed in pieces; at the end the
/// description is made.
pub struct MetadataBuilder {
    item: String,
    files: Vec<FileEntry>,
    total: u64,
    hasher: Sha256Hasher,
    started: usize,
    contents: Ghost<Seq<Seq<u8>>>,
}

impl MetadataBuilder {
    /// The item's name.
    pub closed spec fn item_name(&self) -> Seq<char> {
        self.item@
    }

    /// The item's files, sorted by path.
    pub closed spec fn entries(&self) -> Seq<FileEntry> {
        self.files@
    }

    /// For each file started so far, in order, the contents fed to it.
    pub closed spec fn fed(&self) -> Seq<Seq<u8>> {
        self.contents@
    }

    pub closed spec fn well_formed(&self) -> bool {
        &&& self.started == self.contents@.len()
        &&& self.contents@.len() <= self.files@.len()
        &&& absorbed(self.hasher) == entries_message(self.files@, self.contents@)
        &&& self.total == saturating_total(self.files@)
    }

    /// Starts describing the item `item` made of `files`: sorts them by path (equal
    /// paths in the order they came) and adds up their sizes.
    pub fn new(item: &str, files: Vec<FileEntry>) -> (builder: Self)
        ensures
            builder.well_formed(),
            builder.item_name() == item@,
            builder.fed() == Seq::<Seq<u8>>::empty(),
            builder.entries().len() == files@.len(),
            exists|order: Seq<usize>|
                #[trigger] entries_sorted_by_path(files@, order) && forall|k: int|
                    0 <= k < files@.len() ==> #[trigger] builder.entries()[k]@ == files@[order[k] as int]@,
            forall|k: int, l: int|
                0 <= k < l < builder.entries().len() ==> lex_le(
                    encode_utf8(#[trigger] builder.entries()[k].path@),
                    encode_utf8(#[trigger] builder.entries()[l].path@),
                ),
    {
        let order = entry_order(&files);
        proof {
            law_sorted_entries_are_bytewise(files@, order@);
        }
        let n = files.len();
        let mut sorted: Vec<FileEntry> = Vec::new();
        let mut total: u64 = 0;
        let mut k: usize = 0;
        while k < n
            invariant
                n == files@.len(),
                entries_sorted_by_path(files@, order@),
                k <= n,
                sorted@.len() == k,
                forall|q: int| 0 <= q < k ==> #[trigger] sorted@[q]@ == files@[order@[q] as int]@,
                total == saturating_total(sorted@),
            decreases n - k,
        {
            let i = order[k];
            proof {
                assert(order@[k as int] < n);
            }
            let size = files[i].size;
            let ghost prev = sorted@;
            sorted.push(FileEntry { path: crate::text::copy_str(files[i].path.as_str()), size });
            proof {
                assert(sorted@.drop_last() =~= prev);
                lemma_sum_sizes_nonnegative(prev);
            }
            total = total.saturating_add(size);
            k = k + 1;
        }
        let builder = MetadataBuilder {
            item: crate::text::copy_str(item),
            files: sorted,
            total,
            hasher: hasher_new(),
            started: 0,
            contents: Ghost(Seq::empty()),
        };
        assert forall|k: int, l: int| 0 <= k < l < builder.entries().len() implies lex_le(
            encode_utf8(#[trigger] builder.entries()[k].path@),
            encode_utf8(#[trigger] builder.entries()[l].path@),
        ) by {
            assert(builder.entries()[k]@ == files@[order@[k] as int]@);
            assert(builder.entries()[l]@ == files@[order@[l] as int]@);
        }
        builder
    }

    /// Starts the next file, if any is left: feeds its path and size to the hash and
    /// returns its path, by which its contents are found.
    pub fn start_next_file(&mut self) -> (path: Option<String>)
        requires
            old(self).well_formed(),
        ensures
            final(self).well_formed(),
            final(self).item_name() == old(self).item_name(),
            final(self).entries() == old(self).entries(),
            match path {
                Some(p) => {
                    &&& old(self).fed().len() < old(self).entries().len()
                    &&& p@ == old(self).entries()[old(self).fed().len() as int].path@
                    &&& final(self).fed() == old(self).fed().push(Seq::<u8>::empty())
                },
                None => {
                    &&& old(self).fed().len() == old(self).entries().len()
                    &&& final(self).fed() == old(self).fed()
                },
            },
    {
        if self.started < self.files.len() {
            let i = self.started;
            let ghost before = self.contents@;
            hasher_update(&mut self.hasher, self.files[i].path.as_str().as_bytes());
            let mut size_bytes: Vec<u8> = Vec::new();
            append_le_bytes(&mut size_bytes, self.files[i].size);
            hasher_update(&mut self.hasher, size_bytes.as_slice());
            self.contents = Ghost(before.push(Seq::<u8>::empty()));
            self.started = i + 1;
            proof {
                let after = before.push(Seq::<u8>::empty());
                assert(after.drop_last() =~= before);
                assert(entry_record(self.files@[i as int], Seq::<u8>::empty()) =~= encode_utf8(
                    self.files@[i as int].path@,
                ) + le_bytes(self.files@[i as int].size));
                assert(absorbed(self.hasher) =~= entries_message(self.files@, after));
            }
            Some(crate::text::copy_str(self.files[i].path.as_str()))
        } else {
            None
        }
    }

    /// Feeds `chunk` to the hash as the next piece of the contents of the file last
    /// started; before any file is started, `chunk` is not taken.
    pub fn absorb(&mut self, chunk: &[u8])
        requires
            old(self).well_formed(),
        ensures
            final(self).well_formed(),
            final(self).item_name() == old(self).item_name(),
            final(self).entries() == old(self).entries(),
            old(self).fed().len() > 0 ==> final(self).fed() == old(self).fed().update(
                old(self).fed().len() - 1,
                old(self).fed().last() + chunk@,
            ),
            old(self).fed().len() == 0 ==> final(self).fed() == old(self).fed(),
    {
        if self.started > 0 {
            let ghost before = self.contents@;
            hasher_update(&mut self.hasher, chunk);
            let ghost last = before.len() - 1;
            self.contents = Ghost(before.update(last, before.last() + chunk@));
            proof {
                let after = before.update(last, before.last() + chunk@);
                assert(after.drop_last() =~= before.drop_last());
                assert(entry_record(self.files@[last], before.last() + chunk@) =~= entry_record(
                    self.files@[last],
                    before.last(),
                ) + chunk@);
                assert(absorbed(self.hasher) =~= entries_message(self.files@, after));
            }
        }
    }

    /// The description of the item: the files sorted by path, their total size (capped
    /// at `u64::MAX`) and, as the info hash, the lowercase hex SHA-256 digest of the
    /// records of the files started, each with the contents fed to it.
    pub fn finish(self) -> (metadata: ItemMetadata)
        requires
            self.well_formed(),
        ensures
            metadata.item@ == self.item_name(),
            metadata.files@ == self.entries(),
            metadata.total_size == saturating_total(self.entries()),
            metadata.info_hash@ == hex_lower(sha256(entries_message(self.entries(), self.fed()))),
            metadata.info_hash@.len() == 64,
            forall|i: int|
                0 <= i < metadata.info_hash@.len() ==> is_lower_hex_char(#[trigger] metadata.info_hash@[i]),
    {
        let MetadataBuilder { item, files, total, hasher, .. } = self;
        let digest = hasher_finalize(hasher);
        let info_hash = to_hex_lower(digest.as_slice());
        proof {
            lemma_hex_lower_shape(digest@);
        }
        ItemMetadata { item, info_hash, total_size: total, files }
    }
}

} // verus!
