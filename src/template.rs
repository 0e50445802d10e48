//! Templates: what a manifest is built from once the files are hashed.
use vstd::prelude::*;
use vstd::utf8::*;

use crate::codec::{bytes_lt, compare_bytes, lemma_bytes_lt_transitive, strictly_ascending, Digest};
use crate::manifest::{Manifest, Type};
use crate::resolve::{path_hash, same_text};

verus! {

/// The shape of a package before its files are hashed.
pub enum Template {
    /// An app, which serves content of type `handles`.
    App { handles: Type },
    /// A comic, whose pages are the files at these paths, in order.
    Comic { pages: Vec<String> },
}

/// Each hashed file as its path and hash.
pub open spec fn path_pairs(hashes: Seq<(String, (Digest, u64))>) -> Seq<(Seq<char>, Seq<u8>)> {
    hashes.map_values(|h: (String, (Digest, u64))| (h.0@, h.1.0@))
}

/// The view of a path table.
pub open spec fn paths_view(ps: Seq<(String, Digest)>) -> Seq<(Seq<char>, Seq<u8>)> {
    ps.map_values(|p: (String, Digest)| (p.0@, p.1@))
}

/// The UTF-8 bytes of each path, the key that orders a path table.
pub open spec fn path_keys(ps: Seq<(Seq<char>, Seq<u8>)>) -> Seq<Seq<u8>> {
    ps.map_values(|p: (Seq<char>, Seq<u8>)| encode_utf8(p.0))
}

/// No path occurs twice.
pub open spec fn distinct_paths(hashes: Seq<(String, (Digest, u64))>) -> bool {
    forall|i: int, j: int|
        0 <= i < j < hashes.len() ==> (#[trigger] hashes[i]).0@ != (#[trigger] hashes[j]).0@
}

/// Inserts `e` at its place in ascending path order; its path is not there yet.
fn insert_path(paths: &mut Vec<(String, Digest)>, e: (String, Digest))
    requires
        strictly_ascending(path_keys(paths_view(old(paths)@))),
        !paths_view(old(paths)@).map_values(|p: (Seq<char>, Seq<u8>)| p.0).contains(e.0@),
    ensures
        strictly_ascending(path_keys(paths_view(final(paths)@))),
        forall|x: (Seq<char>, Seq<u8>)|
            #![trigger paths_view(final(paths)@).contains(x)]
            paths_view(final(paths)@).contains(x) <==> (paths_view(old(paths)@).contains(x) || x == (
            e.0@,
            e.1@,
        )),
{
    broadcast use encode_utf8_decode_utf8;

    let ghost ov = paths_view(paths@);
    let ghost ks = path_keys(ov);
    let ghost ev = (e.0@, e.1@);
    let ghost ek = encode_utf8(e.0@);
    let mut j: usize = 0;
    let mut stop = false;
    while !stop && j < paths.len()
        invariant
            ov == paths_view(paths@),
            ks == path_keys(ov),
            ek == encode_utf8(e.0@),
            strictly_ascending(ks),
            !ov.map_values(|p: (Seq<char>, Seq<u8>)| p.0).contains(e.0@),
            j <= paths@.len(),
            forall|t: int| 0 <= t < j ==> bytes_lt(#[trigger] ks[t], ek),
            stop ==> j < paths@.len() && bytes_lt(ek, ks[j as int]),
        decreases paths@.len() - j + (if stop {
            0int
        } else {
            1int
        }),
    {
        assert(ks[j as int] == encode_utf8(paths@[j as int].0@));
        match compare_bytes(paths[j].0.as_str().as_bytes(), e.0.as_str().as_bytes()) {
            core::cmp::Ordering::Less => {
                j = j + 1;
            },
            core::cmp::Ordering::Equal => {
                proof {
                    assert(ov[j as int] == (paths@[j as int].0@, paths@[j as int].1@));
                    assert(encode_utf8(paths@[j as int].0@) == ek);
                    assert(decode_utf8(encode_utf8(paths@[j as int].0@)) == decode_utf8(ek));
                    encode_utf8_decode_utf8(paths@[j as int].0@);
                    encode_utf8_decode_utf8(e.0@);
                    assert(paths@[j as int].0@ == e.0@);
                    assert(ov.map_values(|p: (Seq<char>, Seq<u8>)| p.0)[j as int] == e.0@);
                }
                stop = true;
            },
            core::cmp::Ordering::Greater => {
                stop = true;
            },
        }
    }
    let ghost at = j as int;
    proof {
        if at < ks.len() {
            assert(bytes_lt(ek, ks[at]));
        }
    }
    paths.insert(j, e);
    let ghost nv = paths_view(paths@);
    let ghost nk = path_keys(nv);
    assert(nv =~= ov.insert(at, ev));
    assert(nk[at] == ek);
    assert forall|a: int, b: int| 0 <= a < b < nk.len() implies bytes_lt(
        #[trigger] nk[a],
        #[trigger] nk[b],
    ) by {
        if b < at {
            assert(nk[a] == ks[a] && nk[b] == ks[b]);
        } else if b == at {
            assert(nk[a] == ks[a]);
        } else if a == at {
            assert(nk[b] == ks[b - 1]);
            if b - 1 > at {
                lemma_bytes_lt_transitive(ek, ks[at], ks[b - 1]);
            }
        } else if a < at {
            assert(nk[a] == ks[a] && nk[b] == ks[b - 1]);
            assert(bytes_lt(ek, ks[at]));
            if at < b - 1 {
                lemma_bytes_lt_transitive(ek, ks[at], ks[b - 1]);
            }
            lemma_bytes_lt_transitive(ks[a], ek, ks[b - 1]);
        } else {
            assert(nk[a] == ks[a - 1] && nk[b] == ks[b - 1]);
        }
    }
    assert forall|x: (Seq<char>, Seq<u8>)| #[trigger]
        nv.contains(x) <==> (ov.contains(x) || x == ev) by {
        if ov.contains(x) {
            let t = choose|t: int| 0 <= t < ov.len() && ov[t] == x;
            if t < at {
                assert(nv[t] == x);
            } else {
                assert(nv[t + 1] == x);
            }
        }
        if x == ev {
            assert(nv[at] == x);
        }
        if nv.contains(x) {
            let t = choose|t: int| 0 <= t < nv.len() && nv[t] == x;
            if t < at {
                assert(ov[t] == x);
            } else if t > at {
                assert(ov[t - 1] == x);
            }
        }
    }
}

impl Template {
    /// The manifest for hashed files `hashes`, each a relative path with its
    /// hash and length. An app gets every path with its hash, in ascending
    /// byte order of the paths; a comic gets the hash of each page's file.
    pub fn manifest(self, hashes: &Vec<(String, (Digest, u64))>) -> (r: Manifest)
        requires
            distinct_paths(hashes@),
            self matches Template::Comic { pages } ==> forall|i: int|
                0 <= i < pages@.len() ==> path_hash(path_pairs(hashes@), #[trigger] pages@[i]@)
                    is Some,
        ensures
            match self {
                Template::App { handles } => r matches Manifest::App { handles: h, paths } && h
                    == handles && strictly_ascending(path_keys(paths_view(paths@))) && forall|
                    x: (Seq<char>, Seq<u8>),
                | #[trigger] paths_view(paths@).contains(x) <==> path_pairs(hashes@).contains(x),
                Template::Comic { pages } => r matches Manifest::Comic { pages: ps } && ps@.len()
                    == pages@.len() && forall|i: int|
                    0 <= i < ps@.len() ==> path_hash(path_pairs(hashes@), #[trigger] pages@[i]@)
                        == Some(ps@[i]@),
            },
    {
        let ghost pairs = path_pairs(hashes@);
        match self {
            Template::App { handles } => {
                let mut paths: Vec<(String, Digest)> = Vec::new();
                let mut k: usize = 0;
                while k < hashes.len()
                    invariant
                        k <= hashes@.len(),
                        pairs == path_pairs(hashes@),
                        distinct_paths(hashes@),
                        strictly_ascending(path_keys(paths_view(paths@))),
                        forall|x: (Seq<char>, Seq<u8>)|
                            #![trigger paths_view(paths@).contains(x)]
                            paths_view(paths@).contains(x) <==> pairs.take(k as int).contains(x),
                    decreases hashes@.len() - k,
                {
                    let ghost pv = paths_view(paths@);
                    proof {
                        let names = pv.map_values(|p: (Seq<char>, Seq<u8>)| p.0);
                        if names.contains(hashes@[k as int].0@) {
                            let t = choose|t: int|
                                0 <= t < names.len() && #[trigger] names[t] == hashes@[k as int].0@;
                            assert(pv.contains(pv[t]));
                            assert(pairs.take(k as int).contains(pv[t]));
                            let w = choose|w: int|
                                0 <= w < k && pairs.take(k as int)[w] == pv[t];
                            assert(hashes@[w].0@ == hashes@[k as int].0@);
                        }
                    }
                    let path = hashes[k].0.clone();
                    assert(path@ == hashes@[k as int].0@);
                    insert_path(&mut paths, (path, hashes[k].1.0));
                    proof {
                        assert(pairs.take(k + 1) =~= pairs.take(k as int).push(pairs[k as int]));
                        assert(pairs.take(k + 1)[k as int] == pairs[k as int]);
                        assert forall|x: (Seq<char>, Seq<u8>)| pairs.take(k as int).contains(x)
                            implies pairs.take(k + 1).contains(x) by {
                            let w = choose|w: int| 0 <= w < k && #[trigger] pairs.take(k as int)[w] == x;
                            assert(pairs.take(k + 1)[w] == x);
                        }
                        assert forall|x: (Seq<char>, Seq<u8>)| pairs.take(k + 1).contains(x)
                            implies pairs.take(k as int).contains(x) || x == pairs[k as int] by {
                            let w = choose|w: int| 0 <= w < k + 1 && #[trigger] pairs.take(k + 1)[w] == x;
                            if w < k {
                                assert(pairs.take(k as int)[w] == x);
                            }
                        }
                    }
                    k = k + 1;
                }
                assert(pairs.take(k as int) =~= pairs);
                Manifest::App { handles, paths }
            },
            Template::Comic { pages } => {
                let mut out: Vec<Digest> = Vec::new();
                let mut i: usize = 0;
                while i < pages.len()
                    invariant
                        i <= pages@.len(),
                        pairs == path_pairs(hashes@),
                        forall|t: int|
                            0 <= t < pages@.len() ==> path_hash(pairs, #[trigger] pages@[t]@)
                                is Some,
                        out@.len() == i,
                        forall|t: int|
                            0 <= t < i ==> path_hash(pairs, #[trigger] pages@[t]@) == Some(
                                out@[t]@,
                            ),
                    decreases pages@.len() - i,
                {
                    let ghost want = path_hash(pairs, pages@[i as int]@);
                    assert(pairs.skip(0) =~= pairs);
                    let mut k: usize = 0;
                    let mut found = false;
                    while !found && k < hashes.len()
                        invariant
                            found ==> k < hashes@.len() && hashes@[k as int].0@ == pages@[i as int]@,
                            k <= hashes@.len(),
                            pairs == path_pairs(hashes@),
                            want == path_hash(pairs, pages@[i as int]@),
                            want is Some,
                            want == path_hash(pairs.skip(k as int), pages@[i as int]@),
                            i < pages@.len(),
                            out@.len() == i,
                            forall|t: int|
                                0 <= t < i ==> path_hash(pairs, #[trigger] pages@[t]@) == Some(
                                    out@[t]@,
                                ),
                        decreases hashes@.len() - k + (if found {
                            0int
                        } else {
                            1int
                        }),
                    {
                        assert(pairs.skip(k as int)[0] == pairs[k as int]);
                        if same_text(hashes[k].0.as_str(), pages[i].as_str()) {
                            found = true;
                        } else {
                            assert(pairs.skip(k as int).drop_first() =~= pairs.skip(k + 1));
                            k = k + 1;
                        }
                    }
                    if k >= hashes.len() {
                        assert(pairs.skip(k as int).len() == 0);
                        assert(false);
                    } else {
                        assert(pairs.skip(k as int)[0] == pairs[k as int]);
                        assert(pairs[k as int] == (hashes@[k as int].0@, hashes@[k as int].1.0@));
                        out.push(hashes[k].1.0);
                    }
                    i = i + 1;
                }
                Manifest::Comic { pages: out }
            },
        }
    }
}

} // verus!
