//! The logical resolver: from a path or page index to a stored blob and its
//! content type.
use vstd::prelude::*;
use vstd::string::*;
use vstd::utf8::*;

use crate::codec::{compare_bytes, to_vec, Digest};
use crate::manifest::{Manifest, ManifestView};
use crate::package::{Package, PackageView};

verus! {

/// The content type that `mime_guess` gives a path: the first type known for
/// its extension, or `application/octet-stream`.
pub uninterp spec fn guessed_type(path: Seq<char>) -> Seq<char>;

/// Relies on `mime_guess::from_path(..).first_or_octet_stream()`: a type
/// guessed from the path's extension alone.
#[verifier::external_body]
fn guess_type(path: &str) -> (r: String)
    ensures
        r@ == guessed_type(path@),
{
    mime_guess::from_path(path).first_or_octet_stream().to_string()
}

/// The JPEG content type.
pub open spec fn jpeg_type() -> Seq<char> {
    seq!['i', 'm', 'a', 'g', 'e', '/', 'j', 'p', 'e', 'g']
}

/// Relies on `mime::IMAGE_JPEG`, whose text is `image/jpeg`.
#[verifier::external_body]
fn jpeg() -> (r: String)
    ensures
        r@ == jpeg_type(),
{
    mime::IMAGE_JPEG.to_string()
}

/// The hash of the first path of `paths` equal to `path`.
pub open spec fn path_hash(paths: Seq<(Seq<char>, Seq<u8>)>, path: Seq<char>) -> Option<Seq<u8>>
    decreases paths.len(),
{
    if paths.len() == 0 {
        None
    } else if paths[0].0 == path {
        Some(paths[0].1)
    } else {
        path_hash(paths.drop_first(), path)
    }
}

/// The bytes of the first file of `files` with hash `h`.
pub open spec fn blob_of(files: Seq<(Seq<u8>, Seq<u8>)>, h: Seq<u8>) -> Option<Seq<u8>>
    decreases files.len(),
{
    if files.len() == 0 {
        None
    } else if files[0].0 == h {
        Some(files[0].1)
    } else {
        blob_of(files.drop_first(), h)
    }
}

/// Whether `s` is a non-empty run of ASCII digits.
pub open spec fn all_digits(s: Seq<char>) -> bool {
    s.len() > 0 && forall|i: int| 0 <= i < s.len() ==> '0' <= #[trigger] s[i] <= '9'
}

/// The number that a run of decimal digits stands for.
pub open spec fn digits_value(s: Seq<char>) -> nat
    decreases s.len(),
{
    if s.len() == 0 {
        0
    } else {
        digits_value(s.drop_last()) * 10 + (s.last() as nat - '0' as nat) as nat
    }
}

/// The page index that a path names: decimal digits after an optional `+`,
/// as std's integer parsing reads them, within the native size.
pub open spec fn page_index(s: Seq<char>) -> Option<nat> {
    let d = if s.len() > 0 && s[0] == '+' {
        s.drop_first()
    } else {
        s
    };
    if all_digits(d) && digits_value(d) <= usize::MAX {
        Some(digits_value(d))
    } else {
        None
    }
}

/// What resolving `path` in a package gives: the content type and the blob.
pub open spec fn resolve(p: PackageView, path: Seq<char>) -> Option<(Seq<char>, Seq<u8>)> {
    match p.manifest {
        ManifestView::App { paths, .. } => match path_hash(paths, path) {
            Some(h) => match blob_of(p.files, h) {
                Some(b) => Some((guessed_type(path), b)),
                None => None,
            },
            None => None,
        },
        ManifestView::Comic { pages } => match page_index(path) {
            Some(i) => if i < pages.len() {
                match blob_of(p.files, pages[i as int]) {
                    Some(b) => Some((jpeg_type(), b)),
                    None => None,
                }
            } else {
                None
            },
            None => None,
        },
    }
}

/// Reads a page index from a path.
pub fn parse_page_index(s: &str) -> (r: Option<usize>)
    ensures
        match page_index(s@) {
            Some(i) => r == Some(i as usize),
            None => r is None,
        },
{
    let n = s.unicode_len();
    let mut start: usize = 0;
    if n > 0 && s.get_char(0) == '+' {
        start = 1;
    }
    let ghost d = if s@.len() > 0 && s@[0] == '+' {
        s@.drop_first()
    } else {
        s@
    };
    assert(d =~= s@.skip(start as int));
    if start >= n {
        return None;
    }
    let mut value: usize = 0;
    let mut i: usize = start;
    while i < n
        invariant
            n == s@.len(),
            start <= i <= n,
            start < n,
            d == s@.skip(start as int),
            d == (if s@.len() > 0 && s@[0] == '+' {
                s@.drop_first()
            } else {
                s@
            }),
            forall|j: int| start <= j < i ==> '0' <= #[trigger] s@[j] <= '9',
            value as nat == digits_value(s@.subrange(start as int, i as int)),
        decreases n - i,
    {
        let c = s.get_char(i);
        if c < '0' || c > '9' {
            assert(d[i - start] == c);
            return None;
        }
        let digit = (c as u32 - '0' as u32) as usize;
        let ghost prefix = s@.subrange(start as int, i + 1);
        assert(prefix.drop_last() =~= s@.subrange(start as int, i as int));
        assert(prefix.last() == c);
        if value > (usize::MAX - digit) / 10 {
            proof {
                assert(digits_value(prefix) == value * 10 + digit);
                if all_digits(d) {
                    lemma_digits_value_grows(d, (i + 1 - start) as int);
                    assert(d.take((i + 1 - start) as int) =~= prefix);
                }
                assert(value * 10 + digit > usize::MAX) by (nonlinear_arith)
                    requires
                        value > (usize::MAX - digit) / 10,
                        digit <= 9,
                ;
            }
            return None;
        }
        assert(value * 10 + digit <= usize::MAX) by (nonlinear_arith)
            requires
                value <= (usize::MAX - digit) / 10,
                digit <= 9,
        ;
        value = value * 10 + digit;
        i = i + 1;
    }
    assert(s@.subrange(start as int, n as int) =~= d);
    Some(value)
}

/// The value of a run of digits is at least that of any prefix of it.
proof fn lemma_digits_value_grows(d: Seq<char>, k: int)
    requires
        0 <= k <= d.len(),
        forall|j: int| 0 <= j < d.len() ==> '0' <= #[trigger] d[j] <= '9',
    ensures
        digits_value(d.take(k)) <= digits_value(d),
    decreases d.len() - k,
{
    if k < d.len() {
        let t = d.take(k + 1);
        assert(t.drop_last() =~= d.take(k));
        lemma_digits_value_grows(d, k + 1);
    } else {
        assert(d.take(k) =~= d);
    }
}

/// Whether two strings are equal.
pub(crate) fn same_text(a: &str, b: &str) -> (r: bool)
    ensures
        r == (a@ == b@),
{
    broadcast use encode_utf8_decode_utf8;

    let r = matches!(compare_bytes(a.as_bytes(), b.as_bytes()), core::cmp::Ordering::Equal);
    proof {
        if encode_utf8(a@) == encode_utf8(b@) {
            assert(decode_utf8(encode_utf8(a@)) == decode_utf8(encode_utf8(b@)));
        }
    }
    r
}

impl Package {
    /// The bytes of the first blob with hash `h`.
    pub fn blob(&self, h: &Digest) -> (r: Option<&Vec<u8>>)
        ensures
            match blob_of(self@.files, h@) {
                Some(b) => r matches Some(x) && x@ == b,
                None => r is None,
            },
    {
        let ghost fs = self@.files;
        assert(fs.skip(0) =~= fs);
        let mut i: usize = 0;
        while i < self.files.len()
            invariant
                fs == self@.files,
                i <= fs.len(),
                blob_of(fs, h@) == blob_of(fs.skip(i as int), h@),
            decreases fs.len() - i,
        {
            assert(fs.skip(i as int)[0] == fs[i as int]);
            if matches!(compare_bytes(self.files[i].0.as_slice(), h.as_slice()), core::cmp::Ordering::Equal) {
                return Some(&self.files[i].1);
            }
            assert(fs.skip(i as int).drop_first() =~= fs.skip(i + 1));
            i = i + 1;
        }
        None
    }

    /// Resolves a logical path: in an app, the path itself, with the content
    /// type guessed from its extension; in a comic, a page index, with the
    /// JPEG type. `None` where nothing is found.
    pub fn file(&self, path: &str) -> (r: Option<(String, Vec<u8>)>)
        ensures
            match resolve(self@, path@) {
                Some((t, b)) => r matches Some(x) && x.0@ == t && x.1@ == b,
                None => r is None,
            },
    {
        match &self.manifest {
            Manifest::App { paths, .. } => {
                let ghost ps = paths@.map_values(|p: (String, Digest)| (p.0@, p.1@));
                assert(ps.skip(0) =~= ps);
                let mut i: usize = 0;
                while i < paths.len()
                    invariant
                        ps == paths@.map_values(|p: (String, Digest)| (p.0@, p.1@)),
                        self@.manifest matches ManifestView::App { paths: q, .. } && q == ps,
                        i <= ps.len(),
                        path_hash(ps, path@) == path_hash(ps.skip(i as int), path@),
                    decreases ps.len() - i,
                {
                    assert(ps.skip(i as int)[0] == ps[i as int]);
                    assert(ps[i as int] == (paths@[i as int].0@, paths@[i as int].1@));
                    if same_text(paths[i].0.as_str(), path) {
                        assert(path_hash(ps, path@) == Some(paths@[i as int].1@));
                        let found = self.blob(&paths[i].1);
                        match found {
                            Some(b) => {
                                let t = guess_type(path);
                                let bytes = to_vec(b.as_slice());
                                return Some((t, bytes));
                            },
                            None => {
                                return None;
                            },
                        }
                    }
                    assert(ps.skip(i as int).drop_first() =~= ps.skip(i + 1));
                    i = i + 1;
                }
                None
            },
            Manifest::Comic { pages } => match parse_page_index(path) {
                Some(i) => {
                    if i < pages.len() {
                        match self.blob(&pages[i]) {
                            Some(b) => Some((jpeg(), to_vec(b.as_slice()))),
                            None => None,
                        }
                    } else {
                        None
                    }
                },
                None => None,
            },
        }
    }
}

} // verus!
