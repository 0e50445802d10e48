//! The package container: the loader that parses and authenticates a package
//! file, and what it yields.
//!
//! Layout (integers are little-endian `u64`):
//! marker, manifest index, entry count, then per entry a 32-byte hash and a
//! length, then the blobs back to back in entry order, and nothing after.
use vstd::prelude::*;

use crate::codec::{
    bytes_lt, compare_bytes, magic, magic_bytes, read_hash, read_u64, to_vec,
    u64_from_le, Digest,
};
use crate::manifest::{decode_manifest, Manifest, ManifestView};

verus! {

/// The BLAKE3 digest of a byte string.
pub uninterp spec fn blake3_of(b: Seq<u8>) -> Seq<u8>;

/// Relies on `blake3::hash`: the 32-byte BLAKE3 digest of the input, which
/// depends on the input bytes alone.
#[verifier::external_body]
pub(crate) fn blake3_hash(b: &[u8]) -> (r: Digest)
    ensures
        r@ == blake3_of(b@),
{
    *blake3::hash(b).as_bytes()
}

/// Why a package could not be loaded.
#[derive(Clone, Debug, PartialEq, Eq)]
pub enum Error {
    /// The manifest blob does not decode.
    DeserializeManifest,
    /// Two consecutive entries carry the same hash.
    FileHashDuplicated { hash: Digest },
    /// A blob's bytes do not hash to the hash its entry declares.
    FileHashInvalid { actual: Digest, expected: Digest },
    /// An entry's hash is smaller than the one before it.
    FileHashOrder { hash: Digest },
    /// A declared blob length does not fit a native size.
    FileLengthRange { len: u64 },
    /// The file does not open with the marker; `bytes` are those read.
    MagicBytes { bytes: Vec<u8> },
    /// Blobs that no manifest reference names.
    ManifestExtraFiles { extra: u64 },
    /// The manifest index does not address an entry.
    ManifestIndexOutOfBounds { index: usize },
    /// The manifest index does not fit a native index.
    ManifestIndexRange { index: u64 },
    /// Manifest references whose blob the package lacks.
    ManifestMissingFiles { missing: u64 },
    /// Bytes follow the last blob.
    TrailingBytes { trailing: u64 },
    /// The file ends inside a field or a blob.
    UnexpectedEnd,
}

/// The mathematical value of an [`Error`].
pub enum ErrorView {
    DeserializeManifest,
    FileHashDuplicated { hash: Seq<u8> },
    FileHashInvalid { actual: Seq<u8>, expected: Seq<u8> },
    FileHashOrder { hash: Seq<u8> },
    FileLengthRange { len: nat },
    MagicBytes { bytes: Seq<u8> },
    ManifestExtraFiles { extra: nat },
    ManifestIndexOutOfBounds { index: nat },
    ManifestIndexRange { index: nat },
    ManifestMissingFiles { missing: nat },
    TrailingBytes { trailing: nat },
    UnexpectedEnd,
}

impl View for Error {
    type V = ErrorView;

    open spec fn view(&self) -> ErrorView {
        match self {
            Error::DeserializeManifest => ErrorView::DeserializeManifest,
            Error::FileHashDuplicated { hash } => ErrorView::FileHashDuplicated { hash: hash@ },
            Error::FileHashInvalid { actual, expected } => ErrorView::FileHashInvalid {
                actual: actual@,
                expected: expected@,
            },
            Error::FileHashOrder { hash } => ErrorView::FileHashOrder { hash: hash@ },
            Error::FileLengthRange { len } => ErrorView::FileLengthRange { len: *len as nat },
            Error::MagicBytes { bytes } => ErrorView::MagicBytes { bytes: bytes@ },
            Error::ManifestExtraFiles { extra } => ErrorView::ManifestExtraFiles {
                extra: *extra as nat,
            },
            Error::ManifestIndexOutOfBounds { index } => ErrorView::ManifestIndexOutOfBounds {
                index: *index as nat,
            },
            Error::ManifestIndexRange { index } => ErrorView::ManifestIndexRange {
                index: *index as nat,
            },
            Error::ManifestMissingFiles { missing } => ErrorView::ManifestMissingFiles {
                missing: *missing as nat,
            },
            Error::TrailingBytes { trailing } => ErrorView::TrailingBytes {
                trailing: *trailing as nat,
            },
            Error::UnexpectedEnd => ErrorView::UnexpectedEnd,
        }
    }
}

/// A validated package: every blob keyed by its hash, in ascending hash
/// order, and the decoded manifest.
#[derive(Clone, Debug, PartialEq, Eq)]
pub struct Package {
    pub files: Vec<(Digest, Vec<u8>)>,
    pub manifest: Manifest,
}

/// The mathematical value of a [`Package`].
pub struct PackageView {
    pub files: Seq<(Seq<u8>, Seq<u8>)>,
    pub manifest: ManifestView,
}

impl View for Package {
    type V = PackageView;

    open spec fn view(&self) -> PackageView {
        PackageView {
            files: self.files@.map_values(|f: (Digest, Vec<u8>)| (f.0@, f.1@)),
            manifest: self.manifest@,
        }
    }
}

/// The hash that entry `i` of the index declares.
pub open spec fn entry_hash(b: Seq<u8>, i: int) -> Seq<u8> {
    b.subrange(25 + 40 * i, 25 + 40 * i + 32)
}

/// The length that entry `i` of the index declares.
pub open spec fn entry_len(b: Seq<u8>, i: int) -> nat {
    u64_from_le(b.subrange(25 + 40 * i + 32, 25 + 40 * i + 40)) as nat
}

/// What is wrong with entry `i` of the index, if anything.
pub open spec fn entry_error(b: Seq<u8>, i: int) -> Option<ErrorView> {
    if 25 + 40 * (i + 1) > b.len() {
        Some(ErrorView::UnexpectedEnd)
    } else if entry_len(b, i) > usize::MAX {
        Some(ErrorView::FileLengthRange { len: entry_len(b, i) })
    } else if i > 0 && bytes_lt(entry_hash(b, i), entry_hash(b, i - 1)) {
        Some(ErrorView::FileHashOrder { hash: entry_hash(b, i) })
    } else if i > 0 && entry_hash(b, i) == entry_hash(b, i - 1) {
        Some(ErrorView::FileHashDuplicated { hash: entry_hash(b, i) })
    } else {
        None
    }
}

/// The first error among the first `n` entries of the index.
pub open spec fn table_error(b: Seq<u8>, n: nat) -> Option<ErrorView>
    decreases n,
{
    if n == 0 {
        None
    } else {
        match table_error(b, (n - 1) as nat) {
            Some(e) => Some(e),
            None => entry_error(b, n - 1),
        }
    }
}

/// The sum of the first `n` declared lengths.
pub open spec fn lens_sum(b: Seq<u8>, n: nat) -> nat
    decreases n,
{
    if n == 0 {
        0
    } else {
        lens_sum(b, (n - 1) as nat) + entry_len(b, n - 1)
    }
}

/// Where blob `i` starts in a package of `count` entries.
pub open spec fn blob_start(b: Seq<u8>, count: nat, i: nat) -> int {
    (25 + 40 * count + lens_sum(b, i)) as int
}

/// The bytes of blob `i` in a package of `count` entries.
pub open spec fn blob(b: Seq<u8>, count: nat, i: nat) -> Seq<u8> {
    b.subrange(blob_start(b, count, i), blob_start(b, count, i) + entry_len(b, i as int))
}

/// What is wrong with blob `i`, if anything.
pub open spec fn blob_error(b: Seq<u8>, count: nat, i: nat) -> Option<ErrorView> {
    if blob_start(b, count, i) + entry_len(b, i as int) > b.len() {
        Some(ErrorView::UnexpectedEnd)
    } else if blake3_of(blob(b, count, i)) != entry_hash(b, i as int) {
        Some(
            ErrorView::FileHashInvalid {
                actual: blake3_of(blob(b, count, i)),
                expected: entry_hash(b, i as int),
            },
        )
    } else {
        None
    }
}

/// The first error among the first `n` blobs.
pub open spec fn blobs_error(b: Seq<u8>, count: nat, n: nat) -> Option<ErrorView>
    decreases n,
{
    if n == 0 {
        None
    } else {
        match blobs_error(b, count, (n - 1) as nat) {
            Some(e) => Some(e),
            None => blob_error(b, count, (n - 1) as nat),
        }
    }
}

/// The first `n` blobs with their hashes.
pub open spec fn blobs(b: Seq<u8>, count: nat, n: nat) -> Seq<(Seq<u8>, Seq<u8>)> {
    Seq::new(n, |i: int| (entry_hash(b, i), blob(b, count, i as nat)))
}

/// How many of `refs` name none of `hashes`.
pub open spec fn count_missing(refs: Seq<Seq<u8>>, hashes: Seq<Seq<u8>>) -> nat
    decreases refs.len(),
{
    if refs.len() == 0 {
        0
    } else {
        count_missing(refs.drop_last(), hashes) + if hashes.contains(refs.last()) {
            0nat
        } else {
            1nat
        }
    }
}

/// How many of `hashes`, other than `own`, no member of `refs` names.
pub open spec fn count_extra(hashes: Seq<Seq<u8>>, refs: Seq<Seq<u8>>, own: Seq<u8>) -> nat
    decreases hashes.len(),
{
    if hashes.len() == 0 {
        0
    } else {
        count_extra(hashes.drop_last(), refs, own) + if hashes.last() == own || refs.contains(
            hashes.last(),
        ) {
            0nat
        } else {
            1nat
        }
    }
}

/// The manifest's consistency with the blobs of its package: no blob but the
/// manifest's own goes unreferenced, and no reference lacks its blob.
pub open spec fn consistency_error(
    m: ManifestView,
    own: Seq<u8>,
    hashes: Seq<Seq<u8>>,
) -> Option<ErrorView> {
    if count_extra(hashes, m.references(), own) > 0 {
        Some(ErrorView::ManifestExtraFiles { extra: count_extra(hashes, m.references(), own) })
    } else if count_missing(m.references(), hashes) > 0 {
        Some(ErrorView::ManifestMissingFiles { missing: count_missing(m.references(), hashes) })
    } else {
        None
    }
}

/// What loading the bytes `b` of a package file gives.
pub open spec fn load_spec(b: Seq<u8>) -> Result<PackageView, ErrorView> {
    if !(b.len() >= 9 && b.take(9) == magic()) {
        Err(ErrorView::MagicBytes { bytes: b.take(if b.len() < 9 { b.len() as int } else { 9 }) })
    } else if b.len() < 17 {
        Err(ErrorView::UnexpectedEnd)
    } else if u64_from_le(b.subrange(9, 17)) > usize::MAX {
        Err(ErrorView::ManifestIndexRange { index: u64_from_le(b.subrange(9, 17)) as nat })
    } else if b.len() < 25 {
        Err(ErrorView::UnexpectedEnd)
    } else {
        let index = u64_from_le(b.subrange(9, 17)) as nat;
        let count = u64_from_le(b.subrange(17, 25)) as nat;
        match table_error(b, count) {
            Some(e) => Err(e),
            None => if index >= count {
                Err(ErrorView::ManifestIndexOutOfBounds { index })
            } else {
                match blobs_error(b, count, count) {
                    Some(e) => Err(e),
                    None => if blob_start(b, count, count) < b.len() {
                        Err(
                            ErrorView::TrailingBytes {
                                trailing: (b.len() - blob_start(b, count, count)) as nat,
                            },
                        )
                    } else {
                        match decode_manifest(blob(b, count, index)) {
                            None => Err(ErrorView::DeserializeManifest),
                            Some(m) => {
                                let files = blobs(b, count, count);
                                match consistency_error(
                                    m,
                                    entry_hash(b, index as int),
                                    files.map_values(|f: (Seq<u8>, Seq<u8>)| f.0),
                                ) {
                                    Some(e) => Err(e),
                                    None => Ok(PackageView { files, manifest: m }),
                                }
                            },
                        }
                    },
                }
            },
        }
    }
}

proof fn lemma_table_error_stable(b: Seq<u8>, i: nat, m: nat)
    requires
        i <= m,
        table_error(b, i) is Some,
    ensures
        table_error(b, m) == table_error(b, i),
    decreases m,
{
    if m > i {
        lemma_table_error_stable(b, i, (m - 1) as nat);
    }
}

proof fn lemma_blobs_error_stable(b: Seq<u8>, count: nat, i: nat, m: nat)
    requires
        i <= m,
        blobs_error(b, count, i) is Some,
    ensures
        blobs_error(b, count, m) == blobs_error(b, count, i),
    decreases m,
{
    if m > i {
        lemma_blobs_error_stable(b, count, i, (m - 1) as nat);
    }
}

impl Package {
    /// Parses and validates the bytes of a package file: the marker, the
    /// index (ascending, without duplicates), every blob against its hash,
    /// the absence of trailing bytes, the manifest, and the manifest's
    /// consistency with the blobs. The first violation is the error.
    pub fn load(b: &[u8]) -> (r: Result<Package, Error>)
        ensures
            match load_spec(b@) {
                Ok(p) => r matches Ok(x) && x@ == p,
                Err(e) => r matches Err(x) && x@ == e,
            },
    {
        let n = b.len();
        let marker = magic_bytes();
        if n < 9 || !matches!(compare_bytes(&b[0..9], marker.as_slice()), core::cmp::Ordering::Equal) {
            let k = if n < 9 {
                n
            } else {
                9
            };
            assert(b@.take(9) == b@.subrange(0, 9));
            return Err(Error::MagicBytes { bytes: to_vec(&b[0..k]) });
        }
        assert(b@.take(9) == b@.subrange(0, 9));
        if n < 17 {
            return Err(Error::UnexpectedEnd);
        }
        let index = read_u64(b, 9);
        if index > usize::MAX as u64 {
            return Err(Error::ManifestIndexRange { index });
        }
        let index = index as usize;
        if n < 25 {
            return Err(Error::UnexpectedEnd);
        }
        let count = read_u64(b, 17);
        let ghost c = count as nat;
        let mut entries: Vec<(Digest, u64)> = Vec::new();
        let mut i: u64 = 0;
        let mut pos: usize = 25;
        while i < count
            invariant
                n == b@.len(),
                25 <= n,
                b@.take(9) == magic(),
                index as nat == u64_from_le(b@.subrange(9, 17)),
                count == u64_from_le(b@.subrange(17, 25)),
                c == count as nat,
                i <= count,
                pos == 25 + 40 * i,
                pos <= n,
                table_error(b@, i as nat) is None,
                entries@.len() == i,
                forall|j: int|
                    0 <= j < i ==> (#[trigger] entries@[j]).0@ == entry_hash(b@, j)
                        && entries@[j].1 as nat == entry_len(b@, j) && entries@[j].1 <= usize::MAX,
            decreases count - i,
        {
            if n - pos < 40 {
                proof {
                    lemma_table_error_stable(b@, (i + 1) as nat, c);
                }
                return Err(Error::UnexpectedEnd);
            }
            let h = read_hash(b, pos);
            let len = read_u64(b, pos + 32);
            assert(h@ == entry_hash(b@, i as int));
            assert(len as nat == entry_len(b@, i as int));
            if len > usize::MAX as u64 {
                proof {
                    lemma_table_error_stable(b@, (i + 1) as nat, c);
                }
                return Err(Error::FileLengthRange { len });
            }
            if i > 0 {
                let prev = entries[(i - 1) as usize].0;
                assert(prev@ == entry_hash(b@, i - 1));
                match compare_bytes(h.as_slice(), prev.as_slice()) {
                    core::cmp::Ordering::Less => {
                        proof {
                            lemma_table_error_stable(b@, (i + 1) as nat, c);
                        }
                        return Err(Error::FileHashOrder { hash: h });
                    },
                    core::cmp::Ordering::Equal => {
                        proof {
                            lemma_table_error_stable(b@, (i + 1) as nat, c);
                        }
                        return Err(Error::FileHashDuplicated { hash: h });
                    },
                    core::cmp::Ordering::Greater => {},
                }
            }
            entries.push((h, len));
            pos = pos + 40;
            i = i + 1;
        }
        if index >= entries.len() {
            return Err(Error::ManifestIndexOutOfBounds { index });
        }
        let mut files: Vec<(Digest, Vec<u8>)> = Vec::new();
        let mut j: usize = 0;
        while j < entries.len()
            invariant
                n == b@.len(),
                25 <= n,
                b@.take(9) == magic(),
                index as nat == u64_from_le(b@.subrange(9, 17)),
                count == u64_from_le(b@.subrange(17, 25)),
                index < c,
                c == count as nat,
                entries@.len() == c,
                table_error(b@, c) is None,
                forall|t: int|
                    0 <= t < c ==> (#[trigger] entries@[t]).0@ == entry_hash(b@, t)
                        && entries@[t].1 as nat == entry_len(b@, t) && entries@[t].1 <= usize::MAX,
                j <= c,
                pos == blob_start(b@, c, j as nat),
                pos <= n,
                blobs_error(b@, c, j as nat) is None,
                files@.len() == j,
                forall|t: int|
                    0 <= t < j ==> (#[trigger] files@[t]).0@ == entry_hash(b@, t) && files@[t].1@
                        == blob(b@, c, t as nat),
            decreases c - j,
        {
            let len = entries[j].1 as usize;
            let expected = entries[j].0;
            if n - pos < len {
                proof {
                    lemma_blobs_error_stable(b@, c, (j + 1) as nat, c);
                }
                return Err(Error::UnexpectedEnd);
            }
            let bytes = to_vec(&b[pos..pos + len]);
            assert(bytes@ == blob(b@, c, j as nat));
            let actual = blake3_hash(bytes.as_slice());
            match compare_bytes(actual.as_slice(), expected.as_slice()) {
                core::cmp::Ordering::Equal => {},
                _ => {
                    proof {
                        lemma_blobs_error_stable(b@, c, (j + 1) as nat, c);
                    }
                    return Err(Error::FileHashInvalid { actual, expected });
                },
            }
            files.push((expected, bytes));
            pos = pos + len;
            j = j + 1;
        }
        if pos < n {
            return Err(Error::TrailingBytes { trailing: (n - pos) as u64 });
        }
        assert(files@.map_values(|f: (Digest, Vec<u8>)| (f.0@, f.1@)) =~= blobs(b@, c, c));
        assert(files@.map_values(|f: (Digest, Vec<u8>)| f.0@) =~= blobs(b@, c, c).map_values(
            |f: (Seq<u8>, Seq<u8>)| f.0,
        ));
        assert(files@[index as int].1@ == blob(b@, c, index as nat));
        let manifest = match Manifest::decode(files[index].1.as_slice()) {
            None => {
                return Err(Error::DeserializeManifest);
            },
            Some(m) => m,
        };
        let own = files[index].0;
        match manifest.verify(&own, &files) {
            Err(e) => Err(e),
            Ok(()) => Ok(Package { files, manifest }),
        }
    }
}

/// Whether one of `files` carries the hash `h`.
fn has_file(files: &Vec<(Digest, Vec<u8>)>, h: &Digest) -> (r: bool)
    ensures
        r == files@.map_values(|f: (Digest, Vec<u8>)| f.0@).contains(h@),
{
    let ghost hs = files@.map_values(|f: (Digest, Vec<u8>)| f.0@);
    let mut i: usize = 0;
    while i < files.len()
        invariant
            i <= files@.len(),
            hs == files@.map_values(|f: (Digest, Vec<u8>)| f.0@),
            forall|j: int| 0 <= j < i ==> hs[j] != h@,
        decreases files@.len() - i,
    {
        if matches!(compare_bytes(files[i].0.as_slice(), h.as_slice()), core::cmp::Ordering::Equal) {
            assert(hs[i as int] == h@);
            return true;
        }
        i = i + 1;
    }
    false
}

/// Whether `hs` holds the hash `h`.
fn has_hash(hs: &Vec<Digest>, h: &Digest) -> (r: bool)
    ensures
        r == hs@.map_values(|x: Digest| x@).contains(h@),
{
    let ghost vs = hs@.map_values(|x: Digest| x@);
    let mut i: usize = 0;
    while i < hs.len()
        invariant
            i <= hs@.len(),
            vs == hs@.map_values(|x: Digest| x@),
            forall|j: int| 0 <= j < i ==> vs[j] != h@,
        decreases hs@.len() - i,
    {
        if matches!(compare_bytes(hs[i].as_slice(), h.as_slice()), core::cmp::Ordering::Equal) {
            assert(vs[i as int] == h@);
            return true;
        }
        i = i + 1;
    }
    false
}

impl Manifest {
    /// Every hash that the manifest refers to, in manifest order.
    pub fn references(&self) -> (r: Vec<Digest>)
        ensures
            r@.map_values(|h: Digest| h@) == self@.references(),
    {
        let mut r: Vec<Digest> = Vec::new();
        match self {
            Manifest::App { paths, .. } => {
                let mut i: usize = 0;
                while i < paths.len()
                    invariant
                        i <= paths@.len(),
                        r@.len() == i,
                        forall|j: int| 0 <= j < i ==> (#[trigger] r@[j])@ == paths@[j].1@,
                    decreases paths@.len() - i,
                {
                    r.push(paths[i].1);
                    i = i + 1;
                }
                assert(r@.map_values(|h: Digest| h@) =~= paths@.map_values(
                    |p: (String, Digest)| p.1@,
                ));
                assert(self@.references() =~= paths@.map_values(|p: (String, Digest)| p.1@));
            },
            Manifest::Comic { pages } => {
                let mut i: usize = 0;
                while i < pages.len()
                    invariant
                        i <= pages@.len(),
                        r@.len() == i,
                        forall|j: int| 0 <= j < i ==> (#[trigger] r@[j])@ == pages@[j]@,
                    decreases pages@.len() - i,
                {
                    r.push(pages[i]);
                    i = i + 1;
                }
                assert(r@.map_values(|h: Digest| h@) =~= pages@.map_values(|h: Digest| h@));
            },
        }
        r
    }

    /// Checks the manifest against the blobs of its package, `own` being the
    /// hash of the manifest's own blob: first that every other blob is
    /// referenced, then that every reference has its blob.
    pub fn verify(&self, own: &Digest, files: &Vec<(Digest, Vec<u8>)>) -> (r: Result<(), Error>)
        ensures
            match consistency_error(
                self@,
                own@,
                files@.map_values(|f: (Digest, Vec<u8>)| f.0@),
            ) {
                Some(e) => r matches Err(x) && x@ == e,
                None => r is Ok,
            },
    {
        let refs = self.references();
        let ghost rv = self@.references();
        let ghost fh = files@.map_values(|f: (Digest, Vec<u8>)| f.0@);
        let mut extra: usize = 0;
        let mut t: usize = 0;
        while t < files.len()
            invariant
                t <= files@.len(),
                extra <= t,
                fh == files@.map_values(|f: (Digest, Vec<u8>)| f.0@),
                rv == refs@.map_values(|h: Digest| h@),
                extra == count_extra(fh.take(t as int), rv, own@),
            decreases files@.len() - t,
        {
            let is_own = matches!(compare_bytes(files[t].0.as_slice(), own.as_slice()), core::cmp::Ordering::Equal);
            let named = has_hash(&refs, &files[t].0);
            proof {
                assert(fh.take(t + 1).drop_last() =~= fh.take(t as int));
                assert(fh.take(t + 1).last() == fh[t as int]);
            }
            if !is_own && !named {
                extra = extra + 1;
            }
            t = t + 1;
        }
        assert(fh.take(t as int) =~= fh);
        if extra > 0 {
            return Err(Error::ManifestExtraFiles { extra: extra as u64 });
        }
        let mut missing: usize = 0;
        let mut k: usize = 0;
        while k < refs.len()
            invariant
                k <= refs@.len(),
                missing <= k,
                fh == files@.map_values(|f: (Digest, Vec<u8>)| f.0@),
                rv == refs@.map_values(|h: Digest| h@),
                missing == count_missing(rv.take(k as int), fh),
            decreases refs@.len() - k,
        {
            let found = has_file(files, &refs[k]);
            proof {
                assert(rv.take(k + 1).drop_last() =~= rv.take(k as int));
                assert(rv.take(k + 1).last() == rv[k as int]);
            }
            if !found {
                missing = missing + 1;
            }
            k = k + 1;
        }
        assert(rv.take(k as int) =~= rv);
        if missing > 0 {
            return Err(Error::ManifestMissingFiles { missing: missing as u64 });
        }
        Ok(())
    }
}

} // verus!
