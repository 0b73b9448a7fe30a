//! The receiver: reads the market's offers and works out where each file of an
//! offered item is fetched from and written to.
use vstd::prelude::*;
use vstd::utf8::encode_utf8;

use crate::sender::metadata::{has_parent_component, is_safe_relative, parent_component_at};
use crate::text::{
    append_str, chars_of, join_terminated, join_with, leading_run_end, push_char, push_chars,
    split_on, trailing_run_start, trim_end_char, trim_end_owned, trim_start_char, trim_start_owned,
};

verus! {

/// An offer as the market lists it. The version is a 32-bit floating-point number,
/// held here as its IEEE 754 bit pattern.
#[derive(Clone, Debug)]
pub struct Offer {
    pub address: String,
    pub item: String,
    pub item_info: String,
    pub item_size: u64,
    pub version_bits: u32,
}

/// One file of an offered item: its path within the item and its size.
#[derive(Clone, Debug)]
pub struct FileEntry {
    pub path: String,
    pub size: u64,
}

/// The description of an item that a sender puts into its offer.
#[derive(Clone, Debug)]
pub struct ItemMetadata {
    pub item: String,
    pub info_hash: String,
    pub total_size: u64,
    pub files: Vec<FileEntry>,
}

/// Why listing or downloading failed.
#[derive(Debug)]
pub struct ReceiverError {
    message: String,
}

impl ReceiverError {
    pub closed spec fn spec_message(&self) -> Seq<char> {
        self.message@
    }

    /// An error with the given message.
    pub fn new(message: &str) -> (e: Self)
        ensures
            e.spec_message() == message@,
    {
        ReceiverError { message: crate::text::copy_str(message) }
    }

    /// The message of this error.
    pub fn to_string(&self) -> (s: String)
        ensures
            s@ == self.spec_message(),
    {
        crate::text::copy_str(self.message.as_str())
    }
}

/// The first of `offers` whose item is `item`, by index; `offer not found` when none is.
pub fn find_offer(offers: &Vec<Offer>, item: &str) -> (r: Result<usize, ReceiverError>)
    ensures
        match r {
            Ok(i) => i < offers@.len() && offers@[i as int].item@ == item@ && forall|k: int|
                0 <= k < i ==> (#[trigger] offers@[k]).item@ != item@,
            Err(e) => e.spec_message() == "offer not found"@ && forall|k: int|
                0 <= k < offers@.len() ==> (#[trigger] offers@[k]).item@ != item@,
        },
{
    let wanted = crate::text::copy_str(item);
    let mut i: usize = 0;
    while i < offers.len()
        invariant
            i <= offers@.len(),
            wanted@ == item@,
            forall|k: int| 0 <= k < i ==> (#[trigger] offers@[k]).item@ != item@,
        decreases offers@.len() - i,
    {
        if offers[i].item == wanted {
            return Ok(i);
        }
        i = i + 1;
    }
    Err(ReceiverError::new("offer not found"))
}

// ---------------------------------------------------------------------------------
// Percent-encoding of paths
// ---------------------------------------------------------------------------------

/// The bytes that percent-encoding leaves as they are: ASCII letters and digits and
/// `-`, `.`, `_`, `~`.
pub open spec fn is_unreserved(b: u8) -> bool {
    (48 <= b <= 57) || (65 <= b <= 90) || (97 <= b <= 122) || b == 45 || b == 46 || b == 95
        || b == 126
}

/// The uppercase hexadecimal digit for `d` (below 16).
pub open spec fn hex_upper_digit(d: u8) -> char {
    if d < 10 {
        (48 + d) as char
    } else {
        (55 + d) as char
    }
}

/// Each byte of `bytes` that is unreserved as the character it stands for, every other
/// byte as `%` and two uppercase hexadecimal digits.
pub open spec fn percent_encode(bytes: Seq<u8>) -> Seq<char>
    decreases bytes.len(),
{
    if bytes.len() == 0 {
        Seq::<char>::empty()
    } else {
        percent_encode(bytes.drop_last()) + if is_unreserved(bytes.last()) {
            seq![bytes.last() as char]
        } else {
            seq!['%', hex_upper_digit(bytes.last() / 16), hex_upper_digit(bytes.last() % 16)]
        }
    }
}

/// The percent-encoding of the UTF-8 bytes of `s`.
pub open spec fn url_encoded(s: Seq<char>) -> Seq<char> {
    percent_encode(encode_utf8(s))
}

/// Trusted: `urlencoding::encode`, which (as its source shows) percent-encodes every
/// byte of the UTF-8 form of its input except ASCII letters, digits and `-`, `.`, `_`,
/// `~`, writing `%` and two uppercase hexadecimal digits.
#[verifier::external_body]
fn url_encode(segment: &str) -> (encoded: String)
    ensures
        encoded@ == url_encoded(segment@),
{
    urlencoding::encode(segment).into_owned()
}

/// `path` with each of its `/`-separated segments percent-encoded and the `/`s kept.
pub open spec fn encoded_path(path: Seq<char>) -> Seq<char> {
    join_with(split_on(path, '/').map_values(|seg: Seq<char>| url_encoded(seg)), '/')
}

/// Percent-encodes each `/`-separated segment of `path`, keeping the separators.
pub fn encode_path_preserving_slashes(path: &str) -> (out: String)
    ensures
        out@ == encoded_path(path@),
{
    let cs = chars_of(path);
    let n = cs.len();
    let mut out = String::new();
    let mut start: usize = 0;
    let mut i: usize = 0;
    let ghost mut done: Seq<Seq<char>> = Seq::empty();
    assert(cs@.subrange(0, 0) =~= Seq::<char>::empty());
    assert(split_on(cs@.subrange(0, 0), '/') =~= done.push(cs@.subrange(0, 0)));
    while i < n
        invariant
            n == cs@.len(),
            cs@ == path@,
            start <= i <= n,
            split_on(cs@.subrange(0, i as int), '/') == done.push(cs@.subrange(start as int, i as int)),
            out@ == join_terminated(done.map_values(|seg: Seq<char>| url_encoded(seg)), '/'),
        decreases n - i,
    {
        let c = cs[i];
        let ghost prefix = cs@.subrange(0, i as int);
        let ghost next = cs@.subrange(0, i + 1);
        proof {
            assert(next.drop_last() =~= prefix);
            assert(next.last() == c);
        }
        if c == '/' {
            let mut segment = String::new();
            push_chars(&mut segment, cs.as_slice(), start, i);
            let encoded = url_encode(segment.as_str());
            append_str(&mut out, encoded.as_str());
            push_char(&mut out, '/');
            proof {
                let seg = cs@.subrange(start as int, i as int);
                assert(segment@ =~= seg);
                let mapped = done.map_values(|s: Seq<char>| url_encoded(s));
                let done2 = done.push(seg);
                let mapped2 = done2.map_values(|s: Seq<char>| url_encoded(s));
                assert(mapped2 =~= mapped.push(url_encoded(seg)));
                assert(mapped2.drop_last() =~= mapped);
                assert(out@ =~= join_terminated(mapped2, '/'));
                done = done2;
                assert(cs@.subrange(i + 1, i + 1) =~= Seq::<char>::empty());
            }
            start = i + 1;
        } else {
            proof {
                let parts = split_on(prefix, '/');
                assert(parts.last() == cs@.subrange(start as int, i as int));
                assert(cs@.subrange(start as int, i + 1) =~= cs@.subrange(start as int, i as int).push(c));
                assert(split_on(next, '/') =~= done.push(cs@.subrange(start as int, i + 1)));
            }
        }
        i = i + 1;
    }
    let mut last = String::new();
    push_chars(&mut last, cs.as_slice(), start, n);
    let encoded = url_encode(last.as_str());
    append_str(&mut out, encoded.as_str());
    proof {
        assert(cs@.subrange(0, n as int) =~= path@);
        let seg = cs@.subrange(start as int, n as int);
        let all = done.push(seg);
        let mapped_all = all.map_values(|s: Seq<char>| url_encoded(s));
        assert(mapped_all.drop_last() =~= done.map_values(|s: Seq<char>| url_encoded(s)));
        assert(mapped_all.last() == url_encoded(seg));
    }
    out
}

proof fn lemma_percent_encode_has_no_slash(bytes: Seq<u8>)
    ensures
        !percent_encode(bytes).contains('/'),
    decreases bytes.len(),
{
    if bytes.len() > 0 {
        lemma_percent_encode_has_no_slash(bytes.drop_last());
        let b = bytes.last();
        let prev = percent_encode(bytes.drop_last());
        let tail = if is_unreserved(b) {
            seq![b as char]
        } else {
            seq!['%', hex_upper_digit(b / 16), hex_upper_digit(b % 16)]
        };
        assert(!tail.contains('/')) by {
            if tail.contains('/') {
                let i = choose|i: int| 0 <= i < tail.len() && tail[i] == '/';
                if is_unreserved(b) {
                    assert(b as char != '/');
                } else {
                    assert(hex_upper_digit(b / 16) != '/');
                    assert(hex_upper_digit(b % 16) != '/');
                }
            }
        }
        assert(!(prev + tail).contains('/')) by {
            if (prev + tail).contains('/') {
                let i = choose|i: int| 0 <= i < (prev + tail).len() && (prev + tail)[i] == '/';
                if i < prev.len() {
                    assert(prev[i] == '/');
                } else {
                    assert(tail[i - prev.len()] == '/');
                }
            }
        }
    }
}

/// Encoding keeps the `/` separators of a path: the encoded path splits at `/` into
/// exactly the encoded segments of the unencoded path, as many as it had.
pub proof fn law_encoding_keeps_separators(path: Seq<char>)
    ensures
        split_on(encoded_path(path), '/') == split_on(path, '/').map_values(
            |seg: Seq<char>| url_encoded(seg),
        ),
{
    let parts = split_on(path, '/');
    let mapped = parts.map_values(|seg: Seq<char>| url_encoded(seg));
    crate::text::lemma_split_on_nonempty(path, '/');
    assert forall|i: int| 0 <= i < mapped.len() implies !(#[trigger] mapped[i]).contains('/') by {
        lemma_percent_encode_has_no_slash(encode_utf8(parts[i]));
    }
    crate::text::lemma_split_on_join_with(mapped, '/');
}

// ---------------------------------------------------------------------------------
// Download plan
// ---------------------------------------------------------------------------------

/// Where one file of an offer is fetched from and written to.
#[derive(Clone, Debug)]
pub struct DownloadTarget {
    /// The file's path on the sender: the item, then the file's path within it.
    pub download_path: String,
    /// The address the file is fetched from.
    pub url: String,
    /// Where the file is written, relative to the item's directory in the output
    /// directory.
    pub out_relative: String,
}

/// A file's path within its item, without leading slashes.
pub open spec fn relative_of(entry_path: Seq<char>) -> Seq<char> {
    trim_start_char(entry_path, '/')
}

/// The path on the sender of the file at `relative` in `item`: the item itself when
/// `relative` is empty, else the item without trailing slashes, `/`, and `relative`.
pub open spec fn download_path_of(item: Seq<char>, relative: Seq<char>) -> Seq<char> {
    if relative.len() == 0 {
        item
    } else {
        trim_end_char(item, '/') + seq!['/'] + relative
    }
}

/// The address of the file at `download_path` on the sender at `address`.
pub open spec fn file_url_of(address: Seq<char>, download_path: Seq<char>) -> Seq<char> {
    trim_end_char(address, '/') + "/api/files/"@ + encoded_path(download_path)
}

/// Where a file at `relative` in `item` is written, relative to the item's directory:
/// a file named like the item when `relative` is empty, else `relative`.
pub open spec fn out_relative_of(item: Seq<char>, relative: Seq<char>) -> Seq<char> {
    if relative.len() == 0 {
        item
    } else {
        relative
    }
}

/// The target of the file at `entry_path` of `offer`.
pub open spec fn target_matches(
    target: DownloadTarget,
    address: Seq<char>,
    item: Seq<char>,
    entry_path: Seq<char>,
) -> bool {
    let relative = relative_of(entry_path);
    let download_path = download_path_of(item, relative);
    &&& target.download_path@ == download_path
    &&& target.url@ == file_url_of(address, download_path)
    &&& target.out_relative@ == out_relative_of(item, relative)
}

/// A file is fetched from the sender's address, unchanged up to the slashes that end
/// it, then `/api/files/`, then the file's download path with each `/`-separated segment
/// percent-encoded and the `/`s kept: with `n` where the trailing slashes of the address
/// start and `rest` what follows `/api/files/` in the address the target fetches from,
/// `rest` splits at `/` into the encoded segments of the download path, and a download
/// path without `/` is encoded whole.
pub proof fn law_target_url_encodes_download_path(
    target: DownloadTarget,
    address: Seq<char>,
    item: Seq<char>,
    entry_path: Seq<char>,
    n: int,
)
    requires
        target_matches(target, address, item, entry_path),
        trailing_run_start(address, '/', n),
    ensures
        target.url@.len() >= n + "/api/files/"@.len(),
        target.url@.subrange(0, n) == address.subrange(0, n),
        target.url@.subrange(n, n + "/api/files/"@.len()) == "/api/files/"@,
        split_on(target.url@.subrange(n + "/api/files/"@.len(), target.url@.len() as int), '/')
            == split_on(target.download_path@, '/').map_values(|seg: Seq<char>| url_encoded(seg)),
        !target.download_path@.contains('/') ==> target.url@.subrange(
            n + "/api/files/"@.len(),
            target.url@.len() as int,
        ) == url_encoded(target.download_path@),
{
    let dp = target.download_path@;
    let u = target.url@;
    let api = "/api/files/"@;
    crate::text::lemma_trim_end_is_before_trailing_run(address, '/', n);
    assert(u == address.subrange(0, n) + api + encoded_path(dp));
    assert(u.subrange(0, n) =~= address.subrange(0, n));
    assert(u.subrange(n, n + api.len()) =~= api);
    assert(u.subrange(n + api.len(), u.len() as int) =~= encoded_path(dp));
    law_encoding_keeps_separators(dp);
    if !dp.contains('/') {
        crate::text::lemma_split_on_append(Seq::<char>::empty(), dp, '/');
        assert(Seq::<char>::empty() + dp =~= dp);
        assert(split_on(dp, '/') =~= seq![dp]);
        let mapped = split_on(dp, '/').map_values(|seg: Seq<char>| url_encoded(seg));
        assert(mapped =~= seq![url_encoded(dp)]);
        assert(mapped.drop_last() =~= Seq::<Seq<char>>::empty());
        assert(encoded_path(dp) =~= url_encoded(dp));
    }
}

/// A file is asked for under the item's name when its path within the item is only
/// slashes (or empty), and is then written under the item's name; else under the item
/// without its trailing slashes, `/`, and the file's path without its leading slashes,
/// and written at that path within the item. Here `m` is where the trailing slashes of
/// the item start, and `p` where the leading slashes of the file's path end.
pub proof fn law_target_paths_follow_item(
    target: DownloadTarget,
    address: Seq<char>,
    item: Seq<char>,
    entry_path: Seq<char>,
    m: int,
    p: int,
)
    requires
        target_matches(target, address, item, entry_path),
        trailing_run_start(item, '/', m),
        leading_run_end(entry_path, '/', p),
    ensures
        p == entry_path.len() ==> target.download_path@ == item && target.out_relative@ == item,
        p < entry_path.len() ==> target.download_path@ == item.subrange(0, m) + seq!['/']
            + entry_path.subrange(p, entry_path.len() as int),
        p < entry_path.len() ==> target.out_relative@ == entry_path.subrange(
            p,
            entry_path.len() as int,
        ),
{
    crate::text::lemma_trim_end_is_before_trailing_run(item, '/', m);
    crate::text::lemma_trim_start_is_after_leading_run(entry_path, '/', p);
}

proof fn lemma_relative_is_safe(entry_path: Seq<char>)
    requires
        !has_parent_component(entry_path),
    ensures
        is_safe_relative(relative_of(entry_path)),
{
    let rel = relative_of(entry_path);
    crate::text::lemma_trim_start_shape(entry_path, '/');
    let p = entry_path.len() - rel.len();
    assert forall|j: int| !parent_component_at(rel, j) by {
        if parent_component_at(rel, j) {
            let q = p + j;
            assert(rel[j] == entry_path[q]);
            assert(rel[j + 1] == entry_path[q + 1]);
            if j > 0 {
                assert(rel[j - 1] == entry_path[q - 1]);
            } else if p > 0 {
                assert(entry_path[p - 1] == '/');
            }
            if j + 2 < rel.len() {
                assert(rel[j + 2] == entry_path[q + 2]);
            }
            assert(parent_component_at(entry_path, q));
        }
    }
}

/// A file of an offer is asked for under a path that the sender accepts, and written
/// inside the item's directory: when the item's name is a safe relative path that is
/// more than slashes, and the file's path within the item has no `..` component, the
/// download path and the path the file is written to are safe relative paths.
pub proof fn law_download_paths_are_safe(item: Seq<char>, entry_path: Seq<char>)
    requires
        is_safe_relative(item),
        trim_end_char(item, '/').len() > 0,
        !has_parent_component(entry_path),
    ensures
        is_safe_relative(download_path_of(item, relative_of(entry_path))),
        is_safe_relative(out_relative_of(item, relative_of(entry_path))),
{
    lemma_relative_is_safe(entry_path);
    let rel = relative_of(entry_path);
    if rel.len() > 0 {
        let t = trim_end_char(item, '/');
        let m = t.len() as int;
        let dp = t + seq!['/'] + rel;
        crate::text::lemma_trim_end_shape(item, '/');
        crate::text::lemma_trim_start_shape(entry_path, '/');
        let p = entry_path.len() - rel.len();
        assert(dp.len() == m + 1 + rel.len());
        assert(dp[0] == item[0]);
        assert forall|i: int| !parent_component_at(dp, i) by {
            if parent_component_at(dp, i) {
                if i + 2 <= m {
                    assert(dp[i] == item[i]);
                    assert(dp[i + 1] == item[i + 1]);
                    if i > 0 {
                        assert(dp[i - 1] == item[i - 1]);
                    }
                    if i + 2 < m {
                        assert(dp[i + 2] == item[i + 2]);
                    } else if m < item.len() {
                        assert(item[m] == '/');
                    }
                    assert(parent_component_at(item, i));
                } else if i == m - 1 || i == m {
                    assert(dp[m] == '/');
                } else {
                    let j = i - (m + 1);
                    let q = p + j;
                    assert(dp[i] == rel[j]);
                    assert(dp[i + 1] == rel[j + 1]);
                    assert(rel[j] == entry_path[q]);
                    assert(rel[j + 1] == entry_path[q + 1]);
                    if j > 0 {
                        assert(dp[i - 1] == rel[j - 1]);
                        assert(rel[j - 1] == entry_path[q - 1]);
                    } else if p > 0 {
                        assert(entry_path[p - 1] == '/');
                    }
                    if j + 2 < rel.len() {
                        assert(dp[i + 2] == rel[j + 2]);
                        assert(rel[j + 2] == entry_path[q + 2]);
                    }
                    assert(parent_component_at(entry_path, q));
                }
            }
        }
        assert(download_path_of(item, rel) =~= dp);
    }
}

/// For each file that `metadata` lists, in order, where `offer`'s sender serves it
/// and where it is written.
pub fn download_targets(offer: &Offer, metadata: &ItemMetadata) -> (targets: Vec<DownloadTarget>)
    ensures
        targets@.len() == metadata.files@.len(),
        forall|k: int|
            0 <= k < targets@.len() ==> target_matches(
                #[trigger] targets@[k],
                offer.address@,
                offer.item@,
                metadata.files@[k].path@,
            ),
{
    let address = trim_end_owned(offer.address.as_str(), '/');
    let item_trimmed = trim_end_owned(offer.item.as_str(), '/');
    let mut targets: Vec<DownloadTarget> = Vec::new();
    let mut k: usize = 0;
    while k < metadata.files.len()
        invariant
            k <= metadata.files@.len(),
            address@ == trim_end_char(offer.address@, '/'),
            item_trimmed@ == trim_end_char(offer.item@, '/'),
            targets@.len() == k,
            forall|q: int|
                0 <= q < k ==> target_matches(
                    #[trigger] targets@[q],
                    offer.address@,
                    offer.item@,
                    metadata.files@[q].path@,
                ),
        decreases metadata.files@.len() - k,
    {
        let relative = trim_start_owned(metadata.files[k].path.as_str(), '/');
        let download_path;
        let out_relative;
        if relative.as_str().is_empty() {
            download_path = crate::text::copy_str(offer.item.as_str());
            out_relative = crate::text::copy_str(offer.item.as_str());
        } else {
            let mut p = crate::text::copy_str(item_trimmed.as_str());
            push_char(&mut p, '/');
            append_str(&mut p, relative.as_str());
            download_path = p;
            out_relative = relative;
        }
        let mut url = crate::text::copy_str(address.as_str());
        append_str(&mut url, "/api/files/");
        let encoded = encode_path_preserving_slashes(download_path.as_str());
        append_str(&mut url, encoded.as_str());
        let target = DownloadTarget { download_path, url, out_relative };
        proof {
            let rel = relative_of(metadata.files@[k as int].path@);
            assert(target.download_path@ =~= download_path_of(offer.item@, rel));
            assert(target.url@ =~= file_url_of(offer.address@, target.download_path@));
        }
        targets.push(target);
        k = k + 1;
    }
    targets
}

} // verus!
