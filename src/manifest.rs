//! The manifest: how the blobs of a package compose into an app or a comic,
//! and its deterministic binary encoding.
//!
//! Layout of an encoded manifest (integers are little-endian `u64`):
//! - app: `0`, the handled type's tag, the number of paths, then for each
//!   path in order its UTF-8 length, its UTF-8 bytes and its 32-byte hash;
//! - comic: `1`, the number of pages, then each page's 32-byte hash.
use vstd::prelude::*;
use vstd::string::*;
use vstd::utf8::*;

use crate::codec::{
    lemma_u64_le_round_trip, push_bytes, push_hash, push_u64, read_hash, read_u64, u64_from_le, u64_le, Digest,
};

verus! {

/// The kind of a package, used to match an app with the content it serves.
#[derive(Clone, Copy, Debug, PartialEq, Eq, Structural)]
pub enum Type {
    App,
    Comic,
}

/// How the blobs of a package compose into a logical resource.
#[derive(Clone, Debug, PartialEq, Eq)]
pub enum Manifest {
    /// A path-addressed bundle: relative paths with the hash of each file
    /// (in ascending byte order of the paths when built from a template).
    App { handles: Type, paths: Vec<(String, Digest)> },
    /// An index-addressed bundle: the hash of each page in order.
    Comic { pages: Vec<Digest> },
}

/// The mathematical value of a manifest.
pub enum ManifestView {
    App { handles: Type, paths: Seq<(Seq<char>, Seq<u8>)> },
    Comic { pages: Seq<Seq<u8>> },
}

impl View for Manifest {
    type V = ManifestView;

    open spec fn view(&self) -> ManifestView {
        match self {
            Manifest::App { handles, paths } => ManifestView::App {
                handles: *handles,
                paths: paths@.map_values(|p: (String, Digest)| (p.0@, p.1@)),
            },
            Manifest::Comic { pages } => ManifestView::Comic {
                pages: pages@.map_values(|h: Digest| h@),
            },
        }
    }
}

impl ManifestView {
    /// The type of package that this manifest describes.
    pub open spec fn ty(self) -> Type {
        match self {
            ManifestView::App { .. } => Type::App,
            ManifestView::Comic { .. } => Type::Comic,
        }
    }

    /// Every hash that the manifest refers to, in manifest order.
    pub open spec fn references(self) -> Seq<Seq<u8>> {
        match self {
            ManifestView::App { paths, .. } => paths.map_values(|p: (Seq<char>, Seq<u8>)| p.1),
            ManifestView::Comic { pages } => pages,
        }
    }

    /// Lengths and counts fit the 64-bit fields of the encoding, and every
    /// hash is 32 bytes long.
    pub open spec fn encodable(self) -> bool {
        match self {
            ManifestView::App { paths, .. } => paths.len() <= u64::MAX && forall|i: int|
                0 <= i < paths.len() ==> encode_utf8(#[trigger] paths[i].0).len() <= u64::MAX
                    && paths[i].1.len() == 32,
            ManifestView::Comic { pages } => pages.len() <= u64::MAX && forall|i: int|
                0 <= i < pages.len() ==> (#[trigger] pages[i]).len() == 32,
        }
    }
}

impl Manifest {
    /// The type of package that this manifest describes.
    pub fn ty(&self) -> (r: Type)
        ensures
            r == self@.ty(),
    {
        match self {
            Manifest::App { .. } => Type::App,
            Manifest::Comic { .. } => Type::Comic,
        }
    }
}

/// The byte that stands for a type.
pub open spec fn type_tag(t: Type) -> u8 {
    match t {
        Type::App => 0u8,
        Type::Comic => 1u8,
    }
}

/// One path of an app: its UTF-8 length and bytes, then its hash.
pub open spec fn encode_path(p: (Seq<char>, Seq<u8>)) -> Seq<u8> {
    u64_le(encode_utf8(p.0).len() as u64) + encode_utf8(p.0) + p.1
}

/// The paths of an app, one after another.
pub open spec fn encode_paths(ps: Seq<(Seq<char>, Seq<u8>)>) -> Seq<u8>
    decreases ps.len(),
{
    if ps.len() == 0 {
        Seq::empty()
    } else {
        encode_path(ps[0]) + encode_paths(ps.drop_first())
    }
}

/// The page hashes of a comic, one after another.
pub open spec fn encode_pages(hs: Seq<Seq<u8>>) -> Seq<u8>
    decreases hs.len(),
{
    if hs.len() == 0 {
        Seq::empty()
    } else {
        hs[0] + encode_pages(hs.drop_first())
    }
}

/// The encoded form of a manifest.
pub open spec fn encode_manifest(m: ManifestView) -> Seq<u8> {
    match m {
        ManifestView::App { handles, paths } => seq![0u8, type_tag(handles)] + u64_le(
            paths.len() as u64,
        ) + encode_paths(paths),
        ManifestView::Comic { pages } => seq![1u8] + u64_le(pages.len() as u64) + encode_pages(
            pages,
        ),
    }
}

/// Reads `n` paths starting at `pos`: the paths and the position after them.
pub open spec fn parse_paths(b: Seq<u8>, pos: int, n: nat) -> Option<
    (Seq<(Seq<char>, Seq<u8>)>, int),
>
    decreases n,
{
    if n == 0 {
        Some((Seq::empty(), pos))
    } else if pos < 0 || pos + 8 > b.len() {
        None
    } else {
        let l = u64_from_le(b.subrange(pos, pos + 8)) as int;
        if pos + 8 + l + 32 > b.len() {
            None
        } else if !valid_utf8(b.subrange(pos + 8, pos + 8 + l)) {
            None
        } else {
            match parse_paths(b, pos + 8 + l + 32, (n - 1) as nat) {
                Some((rest, end)) => Some(
                    (
                        seq![
                            (
                                decode_utf8(b.subrange(pos + 8, pos + 8 + l)),
                                b.subrange(pos + 8 + l, pos + 8 + l + 32),
                            ),
                        ] + rest,
                        end,
                    ),
                ),
                None => None,
            }
        }
    }
}

/// Reads `n` page hashes starting at `pos`.
pub open spec fn parse_pages(b: Seq<u8>, pos: int, n: nat) -> Option<(Seq<Seq<u8>>, int)>
    decreases n,
{
    if n == 0 {
        Some((Seq::empty(), pos))
    } else if pos < 0 || pos + 32 > b.len() {
        None
    } else {
        match parse_pages(b, pos + 32, (n - 1) as nat) {
            Some((rest, end)) => Some((seq![b.subrange(pos, pos + 32)] + rest, end)),
            None => None,
        }
    }
}

/// The manifest that `b` encodes, if it encodes one and nothing after it.
pub open spec fn decode_manifest(b: Seq<u8>) -> Option<ManifestView> {
    if b.len() >= 10 && b[0] == 0 && b[1] <= 1 {
        match parse_paths(b, 10, u64_from_le(b.subrange(2, 10)) as nat) {
            Some((paths, end)) => if end == b.len() {
                Some(
                    ManifestView::App {
                        handles: if b[1] == 0 {
                            Type::App
                        } else {
                            Type::Comic
                        },
                        paths,
                    },
                )
            } else {
                None
            },
            None => None,
        }
    } else if b.len() >= 9 && b[0] == 1 {
        match parse_pages(b, 9, u64_from_le(b.subrange(1, 9)) as nat) {
            Some((pages, end)) => if end == b.len() {
                Some(ManifestView::Comic { pages })
            } else {
                None
            },
            None => None,
        }
    } else {
        None
    }
}

proof fn lemma_encode_paths_push(ps: Seq<(Seq<char>, Seq<u8>)>, x: (Seq<char>, Seq<u8>))
    ensures
        encode_paths(ps.push(x)) == encode_paths(ps) + encode_path(x),
    decreases ps.len(),
{
    if ps.len() == 0 {
        let d = ps.push(x).drop_first();
        assert(d.len() == 0);
        assert(encode_paths(d) =~= Seq::<u8>::empty());
        assert(encode_paths(ps) =~= Seq::<u8>::empty());
        assert(encode_paths(ps.push(x)) =~= encode_path(x) + encode_paths(d));
    } else {
        assert(ps.push(x).drop_first() =~= ps.drop_first().push(x));
        lemma_encode_paths_push(ps.drop_first(), x);
        assert(encode_paths(ps.push(x)) =~= encode_paths(ps) + encode_path(x));
    }
}

proof fn lemma_encode_pages_push(hs: Seq<Seq<u8>>, x: Seq<u8>)
    ensures
        encode_pages(hs.push(x)) == encode_pages(hs) + x,
    decreases hs.len(),
{
    if hs.len() == 0 {
        let d = hs.push(x).drop_first();
        assert(d.len() == 0);
        assert(encode_pages(d) =~= Seq::<u8>::empty());
        assert(encode_pages(hs) =~= Seq::<u8>::empty());
        assert(encode_pages(hs.push(x)) =~= x + encode_pages(d));
    } else {
        assert(hs.push(x).drop_first() =~= hs.drop_first().push(x));
        lemma_encode_pages_push(hs.drop_first(), x);
        assert(encode_pages(hs.push(x)) =~= encode_pages(hs) + x);
    }
}

proof fn lemma_parse_paths_encoded(b: Seq<u8>, pos: int, ps: Seq<(Seq<char>, Seq<u8>)>)
    requires
        0 <= pos,
        pos + encode_paths(ps).len() <= b.len(),
        b.subrange(pos, pos + encode_paths(ps).len()) == encode_paths(ps),
        forall|i: int|
            0 <= i < ps.len() ==> encode_utf8(#[trigger] ps[i].0).len() <= u64::MAX
                && ps[i].1.len() == 32,
    ensures
        parse_paths(b, pos, ps.len()) == Some((ps, pos + encode_paths(ps).len())),
    decreases ps.len(),
{
    broadcast use encode_utf8_valid_utf8, encode_utf8_decode_utf8;

    if ps.len() == 0 {
        assert(ps =~= Seq::<(Seq<char>, Seq<u8>)>::empty());
    } else {
        let p = ps[0];
        let u = encode_utf8(p.0);
        let l = u.len() as int;
        let e = encode_path(p);
        let rest = ps.drop_first();
        assert(ps[0].1.len() == 32);
        assert(encode_paths(ps) == e + encode_paths(rest));
        let whole = b.subrange(pos, pos + encode_paths(ps).len());
        assert(b.subrange(pos, pos + 8) =~= whole.subrange(0, 8));
        assert(whole.subrange(0, 8) =~= u64_le(l as u64));
        lemma_u64_le_round_trip(l as u64);
        assert(b.subrange(pos + 8, pos + 8 + l) =~= whole.subrange(8, 8 + l));
        assert(whole.subrange(8, 8 + l) =~= u);
        assert(b.subrange(pos + 8 + l, pos + 8 + l + 32) =~= whole.subrange(8 + l, 8 + l + 32));
        assert(whole.subrange(8 + l, 8 + l + 32) =~= p.1);
        assert forall|i: int|
            0 <= i < rest.len() implies encode_utf8(#[trigger] rest[i].0).len() <= u64::MAX
                && rest[i].1.len() == 32 by {
            assert(rest[i] == ps[i + 1]);
        }
        assert(b.subrange(pos + e.len(), pos + e.len() + encode_paths(rest).len())
            =~= whole.subrange(e.len() as int, encode_paths(ps).len() as int));
        assert(whole.subrange(e.len() as int, encode_paths(ps).len() as int) =~= encode_paths(
            rest,
        ));
        lemma_parse_paths_encoded(b, pos + e.len(), rest);
        assert(seq![(p.0, p.1)] + rest =~= ps);
    }
}

proof fn lemma_parse_pages_encoded(b: Seq<u8>, pos: int, hs: Seq<Seq<u8>>)
    requires
        0 <= pos,
        pos + encode_pages(hs).len() <= b.len(),
        b.subrange(pos, pos + encode_pages(hs).len()) == encode_pages(hs),
        forall|i: int| 0 <= i < hs.len() ==> (#[trigger] hs[i]).len() == 32,
    ensures
        parse_pages(b, pos, hs.len()) == Some((hs, pos + encode_pages(hs).len())),
    decreases hs.len(),
{
    if hs.len() == 0 {
        assert(hs =~= Seq::<Seq<u8>>::empty());
    } else {
        let rest = hs.drop_first();
        assert(hs[0].len() == 32);
        let whole = b.subrange(pos, pos + encode_pages(hs).len());
        assert(b.subrange(pos, pos + 32) =~= whole.subrange(0, 32));
        assert(whole.subrange(0, 32) =~= hs[0]);
        assert forall|i: int| 0 <= i < rest.len() implies (#[trigger] rest[i]).len() == 32 by {
            assert(rest[i] == hs[i + 1]);
        }
        assert(b.subrange(pos + 32, pos + 32 + encode_pages(rest).len()) =~= whole.subrange(
            32,
            encode_pages(hs).len() as int,
        ));
        assert(whole.subrange(32, encode_pages(hs).len() as int) =~= encode_pages(rest));
        lemma_parse_pages_encoded(b, pos + 32, rest);
        assert(seq![hs[0]] + rest =~= hs);
    }
}

/// Decoding an encoded manifest gives the manifest back.
pub proof fn lemma_manifest_round_trip(m: ManifestView)
    requires
        m.encodable(),
    ensures
        decode_manifest(encode_manifest(m)) == Some(m),
{
    let b = encode_manifest(m);
    match m {
        ManifestView::App { handles, paths } => {
            let n = paths.len() as u64;
            assert(b.subrange(2, 10) =~= u64_le(n));
            lemma_u64_le_round_trip(n);
            assert(b.subrange(10, 10 + encode_paths(paths).len() as int) =~= encode_paths(paths));
            lemma_parse_paths_encoded(b, 10, paths);
            assert(b[1] == type_tag(handles));
        },
        ManifestView::Comic { pages } => {
            let n = pages.len() as u64;
            assert(b.subrange(1, 9) =~= u64_le(n));
            lemma_u64_le_round_trip(n);
            assert(b.subrange(9, 9 + encode_pages(pages).len() as int) =~= encode_pages(pages));
            lemma_parse_pages_encoded(b, 9, pages);
        },
    }
}

/// Relies on `std::str::from_utf8`: it accepts exactly the byte strings that
/// are valid UTF-8, and reads the characters that they encode.
#[verifier::external_body]
fn utf8_str(b: &[u8]) -> (r: Option<&str>)
    ensures
        r matches Some(s) ==> valid_utf8(b@) && s@ == decode_utf8(b@),
        r is None ==> !valid_utf8(b@),
{
    std::str::from_utf8(b).ok()
}

impl Manifest {
    /// The encoded form of this manifest.
    pub fn encode(&self) -> (r: Vec<u8>)
        ensures
            r@ == encode_manifest(self@),
    {
        let mut out: Vec<u8> = Vec::new();
        match self {
            Manifest::App { handles, paths } => {
                let ghost vp = paths@.map_values(|p: (String, Digest)| (p.0@, p.1@));
                out.push(0u8);
                out.push(
                    match handles {
                        Type::App => 0u8,
                        Type::Comic => 1u8,
                    },
                );
                push_u64(&mut out, paths.len() as u64);
                let ghost start = out@;
                assert(vp.take(0) =~= Seq::<(Seq<char>, Seq<u8>)>::empty());
                assert(start + encode_paths(vp.take(0)) =~= start);
                let mut i: usize = 0;
                while i < paths.len()
                    invariant
                        i <= paths@.len(),
                        vp == paths@.map_values(|p: (String, Digest)| (p.0@, p.1@)),
                        out@ == start + encode_paths(vp.take(i as int)),
                    decreases paths@.len() - i,
                {
                    let bytes = paths[i].0.as_str().as_bytes();
                    assert(vp[i as int] == (paths@[i as int].0@, paths@[i as int].1@));
                    push_u64(&mut out, bytes.len() as u64);
                    push_bytes(&mut out, bytes);
                    push_hash(&mut out, &paths[i].1);
                    proof {
                        lemma_encode_paths_push(vp.take(i as int), vp[i as int]);
                        assert(vp.take(i + 1) =~= vp.take(i as int).push(vp[i as int]));
                    }
                    i = i + 1;
                    assert(out@ =~= start + encode_paths(vp.take(i as int)));
                }
                assert(vp.take(i as int) =~= vp);
            },
            Manifest::Comic { pages } => {
                let ghost vh = pages@.map_values(|h: Digest| h@);
                out.push(1u8);
                push_u64(&mut out, pages.len() as u64);
                let ghost start = out@;
                assert(vh.take(0) =~= Seq::<Seq<u8>>::empty());
                assert(start + encode_pages(vh.take(0)) =~= start);
                let mut i: usize = 0;
                while i < pages.len()
                    invariant
                        i <= pages@.len(),
                        vh == pages@.map_values(|h: Digest| h@),
                        out@ == start + encode_pages(vh.take(i as int)),
                    decreases pages@.len() - i,
                {
                    push_hash(&mut out, &pages[i]);
                    proof {
                        lemma_encode_pages_push(vh.take(i as int), vh[i as int]);
                        assert(vh.take(i + 1) =~= vh.take(i as int).push(vh[i as int]));
                    }
                    i = i + 1;
                    assert(out@ =~= start + encode_pages(vh.take(i as int)));
                }
                assert(vh.take(i as int) =~= vh);
            },
        }
        out
    }

    /// The manifest that `b` encodes, or `None` where `b` encodes none.
    pub fn decode(b: &[u8]) -> (r: Option<Manifest>)
        ensures
            match decode_manifest(b@) {
                Some(m) => r matches Some(x) && x@ == m,
                None => r is None,
            },
    {
        let n = b.len();
        if n >= 10 && b[0] == 0u8 && b[1] <= 1u8 {
            let count = read_u64(b, 2);
            let ghost whole = parse_paths(b@, 10, count as nat);
            let mut paths: Vec<(String, Digest)> = Vec::new();
            let mut pos: usize = 10;
            let mut i: u64 = 0;
            while i < count
                invariant
                    n == b@.len(),
                    10 <= pos <= n,
                    i <= count,
                    b@[0] == 0 && b@[1] <= 1,
                    count == u64_from_le(b@.subrange(2, 10)),
                    whole == parse_paths(b@, 10, count as nat),
                    whole == match parse_paths(b@, pos as int, (count - i) as nat) {
                        Some((rest, end)) => Some(
                            (paths@.map_values(|p: (String, Digest)| (p.0@, p.1@)) + rest, end),
                        ),
                        None => None,
                    },
                decreases count - i,
            {
                if n - pos < 8 {
                    return None;
                }
                let l = read_u64(b, pos);
                if l > (n - pos - 8) as u64 {
                    return None;
                }
                let l = l as usize;
                if n - pos - 8 - l < 32 {
                    return None;
                }
                let text = utf8_str(&b[pos + 8..pos + 8 + l]);
                match text {
                    None => {
                        return None;
                    },
                    Some(t) => {
                        let h = read_hash(b, pos + 8 + l);
                        let ghost old_paths = paths@;
                        let ghost k = (count - i - 1) as nat;
                        let ghost next = parse_paths(b@, pos + 8 + l + 32, k);
                        let ghost e = (t@, h@);
                        paths.push((String::from_str(t), h));
                        proof {
                            assert(paths@.map_values(|p: (String, Digest)| (p.0@, p.1@)) =~= old_paths.map_values(
                                |p: (String, Digest)| (p.0@, p.1@),
                            ).push(e));
                            match next {
                                Some((rest, end)) => {
                                    assert(old_paths.map_values(|p: (String, Digest)| (p.0@, p.1@)) + (seq![e] + rest)
                                        =~= paths@.map_values(|p: (String, Digest)| (p.0@, p.1@)) + rest);
                                },
                                None => {},
                            }
                        }
                        pos = pos + 8 + l + 32;
                    },
                }
                i = i + 1;
            }
            if pos != n {
                return None;
            }
            assert(paths@.map_values(|p: (String, Digest)| (p.0@, p.1@)) + Seq::<(Seq<char>, Seq<u8>)>::empty()
                =~= paths@.map_values(|p: (String, Digest)| (p.0@, p.1@)));
            let handles = if b[1] == 0u8 {
                Type::App
            } else {
                Type::Comic
            };
            Some(Manifest::App { handles, paths })
        } else if n >= 9 && b[0] == 1u8 {
            let count = read_u64(b, 1);
            let ghost whole = parse_pages(b@, 9, count as nat);
            let mut pages: Vec<Digest> = Vec::new();
            let mut pos: usize = 9;
            let mut i: u64 = 0;
            while i < count
                invariant
                    n == b@.len(),
                    9 <= pos <= n,
                    i <= count,
                    b@[0] == 1,
                    count == u64_from_le(b@.subrange(1, 9)),
                    whole == parse_pages(b@, 9, count as nat),
                    whole == match parse_pages(b@, pos as int, (count - i) as nat) {
                        Some((rest, end)) => Some(
                            (pages@.map_values(|h: Digest| h@) + rest, end),
                        ),
                        None => None,
                    },
                decreases count - i,
            {
                if n - pos < 32 {
                    return None;
                }
                let h = read_hash(b, pos);
                let ghost old_pages = pages@;
                let ghost next = parse_pages(b@, pos + 32, (count - i - 1) as nat);
                pages.push(h);
                proof {
                    assert(pages@.map_values(|h: Digest| h@) =~= old_pages.map_values(|h: Digest| h@).push(h@));
                    match next {
                        Some((rest, end)) => {
                            assert(old_pages.map_values(|h: Digest| h@) + (seq![h@] + rest)
                                =~= pages@.map_values(|h: Digest| h@) + rest);
                        },
                        None => {},
                    }
                }
                pos = pos + 32;
                i = i + 1;
            }
            if pos != n {
                return None;
            }
            assert(pages@.map_values(|h: Digest| h@) + Seq::<Seq<u8>>::empty() =~= pages@.map_values(|h: Digest| h@));
            Some(Manifest::Comic { pages })
        } else {
            None
        }
    }
}

} // verus!
