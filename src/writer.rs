//! The package writer: the canonical index of a package and its header.
use vstd::prelude::*;

use crate::codec::{
    bytes_lt, compare_bytes, lemma_bytes_lt_asymmetric, lemma_bytes_lt_irreflexive,
    lemma_bytes_lt_transitive, magic, magic_bytes, push_hash, push_u64, strictly_ascending, u64_le,
    Digest,
};
use crate::manifest::{encode_manifest, Manifest};
use crate::package::{blake3_hash, blake3_of, Package};

verus! {

/// The hashes of a sequence of index entries.
pub open spec fn entry_hashes(es: Seq<(Seq<u8>, u64)>) -> Seq<Seq<u8>> {
    es.map_values(|e: (Seq<u8>, u64)| e.0)
}

/// The view of index entries.
pub open spec fn entries_view(es: Seq<(Digest, u64)>) -> Seq<(Seq<u8>, u64)> {
    es.map_values(|e: (Digest, u64)| (e.0@, e.1))
}

/// The index entries, each a hash and a length, one after another.
pub open spec fn encode_entries(es: Seq<(Seq<u8>, u64)>) -> Seq<u8>
    decreases es.len(),
{
    if es.len() == 0 {
        Seq::empty()
    } else {
        encode_entries(es.drop_last()) + es.last().0 + u64_le(es.last().1)
    }
}

/// Everything of a package file before its first blob.
pub open spec fn header_bytes(index: nat, es: Seq<(Seq<u8>, u64)>) -> Seq<u8> {
    magic() + u64_le(index as u64) + u64_le(es.len() as u64) + encode_entries(es)
}

/// The canonical index for blobs `input` and a manifest of hash `own` and
/// length `own_len`: strictly ascending by hash, with one entry for each
/// distinct hash, the manifest's at `index`, and every other entry one of
/// `input`.
pub open spec fn canonical_index(
    input: Seq<(Seq<u8>, u64)>,
    own: Seq<u8>,
    own_len: u64,
    es: Seq<(Seq<u8>, u64)>,
    index: int,
) -> bool {
    &&& strictly_ascending(entry_hashes(es))
    &&& 0 <= index < es.len()
    &&& es[index] == (own, own_len)
    &&& forall|i: int| 0 <= i < es.len() && i != index ==> input.contains(#[trigger] es[i])
    &&& forall|k: int|
        0 <= k < input.len() ==> entry_hashes(es).contains(#[trigger] input[k].0)
}

/// What to write for a package: the header, the encoded manifest, and the
/// index, whose blobs follow the header in order. The blob of entry
/// `manifest_index` is `manifest`; every other is the file with that hash.
pub struct SavePlan {
    pub header: Vec<u8>,
    pub manifest: Vec<u8>,
    pub manifest_index: usize,
    pub entries: Vec<(Digest, u64)>,
}

/// Inserts `e` at its place in ascending hash order, unless an entry with its
/// hash is there already.
fn insert_entry(entries: &mut Vec<(Digest, u64)>, e: (Digest, u64))
    requires
        strictly_ascending(entry_hashes(entries_view(old(entries)@))),
    ensures
        strictly_ascending(entry_hashes(entries_view(final(entries)@))),
        entry_hashes(entries_view(final(entries)@)).contains(e.0@),
        forall|x: (Digest, u64)|
            #![trigger final(entries)@.contains(x)]
            final(entries)@.contains(x) ==> old(entries)@.contains(x) || x == e,
        forall|x: (Digest, u64)|
            #![trigger old(entries)@.contains(x)]
            old(entries)@.contains(x) ==> final(entries)@.contains(x),
{
    let ghost hs = entry_hashes(entries_view(entries@));
    let ghost old_entries = entries@;
    let mut j: usize = 0;
    let mut stop = false;
    while !stop && j < entries.len()
        invariant
            entries@ == old_entries,
            hs == entry_hashes(entries_view(entries@)),
            strictly_ascending(hs),
            j <= entries@.len(),
            forall|t: int| 0 <= t < j ==> bytes_lt(#[trigger] hs[t], e.0@),
            stop ==> j < entries@.len() && bytes_lt(e.0@, hs[j as int]),
        decreases entries@.len() - j + (if stop {
            0int
        } else {
            1int
        }),
    {
        match compare_bytes(entries[j].0.as_slice(), e.0.as_slice()) {
            core::cmp::Ordering::Less => {
                j = j + 1;
            },
            core::cmp::Ordering::Equal => {
                assert(hs[j as int] == e.0@);
                return;
            },
            core::cmp::Ordering::Greater => {
                stop = true;
            },
        }
    }
    let ghost at = j as int;
    entries.insert(j, e);
    let ghost nh = entry_hashes(entries_view(entries@));
    assert(entries@ == old_entries.insert(at, e));
    assert(nh[at] == e.0@);
    assert forall|a: int, b: int| 0 <= a < b < nh.len() implies bytes_lt(
        #[trigger] nh[a],
        #[trigger] nh[b],
    ) by {
        if b < at {
            assert(nh[a] == hs[a] && nh[b] == hs[b]);
        } else if b == at {
            assert(nh[a] == hs[a]);
        } else if a == at {
            assert(nh[b] == hs[b - 1]);
            if b - 1 > at {
                lemma_bytes_lt_transitive(e.0@, hs[at], hs[b - 1]);
            }
        } else if a < at {
            assert(nh[a] == hs[a] && nh[b] == hs[b - 1]);
            assert(bytes_lt(e.0@, hs[at]));
            if at < b - 1 {
                lemma_bytes_lt_transitive(e.0@, hs[at], hs[b - 1]);
            }
            lemma_bytes_lt_transitive(hs[a], e.0@, hs[b - 1]);
        } else {
            assert(nh[a] == hs[a - 1] && nh[b] == hs[b - 1]);
        }
    }
    assert forall|x: (Digest, u64)| old_entries.contains(x) implies #[trigger] entries@.contains(
        x,
    ) by {
        let t = choose|t: int| 0 <= t < old_entries.len() && old_entries[t] == x;
        if t < at {
            assert(entries@[t] == x);
        } else {
            assert(entries@[t + 1] == x);
        }
    }
    assert forall|x: (Digest, u64)| #[trigger] entries@.contains(x) implies old_entries.contains(x)
        || x == e by {
        let t = choose|t: int| 0 <= t < entries@.len() && entries@[t] == x;
        if t < at {
            assert(old_entries[t] == x);
        } else if t > at {
            assert(old_entries[t - 1] == x);
        }
    }
}

/// The hash and declared length of each blob handed to the writer.
pub open spec fn input_view(hashes: Seq<(String, (Digest, u64))>) -> Seq<(Seq<u8>, u64)> {
    hashes.map_values(|h: (String, (Digest, u64))| (h.1.0@, h.1.1))
}

/// The position of the entry with hash `h`.
fn position_of(entries: &Vec<(Digest, u64)>, h: &Digest) -> (r: usize)
    requires
        entry_hashes(entries_view(entries@)).contains(h@),
    ensures
        r < entries@.len(),
        entries@[r as int].0@ == h@,
{
    let ghost hs = entry_hashes(entries_view(entries@));
    let mut j: usize = 0;
    while j < entries.len()
        invariant
            hs == entry_hashes(entries_view(entries@)),
            hs.contains(h@),
            j <= entries@.len(),
            forall|t: int| 0 <= t < j ==> hs[t] != h@,
        decreases entries@.len() - j,
    {
        if matches!(compare_bytes(entries[j].0.as_slice(), h.as_slice()), core::cmp::Ordering::Equal) {
            assert(hs[j as int] == entries@[j as int].0@);
            return j;
        }
        j = j + 1;
    }
    assert(false);
    0
}

impl Package {
    /// Plans the package of the blobs `hashes`, each a relative path with the
    /// hash and declared length of its file, and of `manifest`: the encoded
    /// manifest, the canonical index of the blobs and the manifest, and the
    /// header that opens the file. The declared lengths are trusted.
    pub fn save(hashes: &Vec<(String, (Digest, u64))>, manifest: &Manifest) -> (r: SavePlan)
        ensures
            r.manifest@ == encode_manifest(manifest@),
            canonical_index(
                input_view(hashes@),
                blake3_of(r.manifest@),
                r.manifest@.len() as u64,
                entries_view(r.entries@),
                r.manifest_index as int,
            ),
            r.header@ == header_bytes(r.manifest_index as nat, entries_view(r.entries@)),
    {
        let mb = manifest.encode();
        let mh = blake3_hash(mb.as_slice());
        Package::plan(hashes, mb, mh)
    }

    /// Plans the package of the blobs `hashes` and of a manifest encoded as
    /// `mb` whose hash is `mh`.
    pub fn plan(hashes: &Vec<(String, (Digest, u64))>, mb: Vec<u8>, mh: Digest) -> (r: SavePlan)
        ensures
            r.manifest@ == mb@,
            canonical_index(
                input_view(hashes@),
                mh@,
                mb@.len() as u64,
                entries_view(r.entries@),
                r.manifest_index as int,
            ),
            r.header@ == header_bytes(r.manifest_index as nat, entries_view(r.entries@)),
    {
        let ml = mb.len() as u64;
        let ghost input = input_view(hashes@);
        let mut entries: Vec<(Digest, u64)> = Vec::new();
        entries.push((mh, ml));
        assert(entries@[0] == (mh, ml));
        let mut k: usize = 0;
        while k < hashes.len()
            invariant
                k <= hashes@.len(),
                input == input_view(hashes@),
                strictly_ascending(entry_hashes(entries_view(entries@))),
                entries@.contains((mh, ml)),
                forall|x: (Digest, u64)|
                    #![trigger entries@.contains(x)]
                    entries@.contains(x) ==> x == (mh, ml) || exists|t: int|
                        0 <= t < k && hashes@[t].1 == x,
                forall|t: int|
                    0 <= t < k ==> entry_hashes(entries_view(entries@)).contains(
                        #[trigger] hashes@[t].1.0@,
                    ),
            decreases hashes@.len() - k,
        {
            let e = hashes[k].1;
            let ghost before = entries@;
            insert_entry(&mut entries, e);
            proof {
                let nh = entry_hashes(entries_view(entries@));
                assert forall|t: int| 0 <= t < k + 1 implies nh.contains(
                    #[trigger] hashes@[t].1.0@,
                ) by {
                    if t < k {
                        let oh = entry_hashes(entries_view(before));
                        assert(oh.contains(hashes@[t].1.0@));
                        let w = choose|w: int| 0 <= w < oh.len() && oh[w] == hashes@[t].1.0@;
                        assert(before.contains(before[w]));
                        assert(entries@.contains(before[w]));
                        let v = choose|v: int| 0 <= v < entries@.len() && entries@[v] == before[w];
                        assert(nh[v] == hashes@[t].1.0@);
                    }
                }
                assert forall|x: (Digest, u64)| #[trigger]
                    entries@.contains(x) implies x == (mh, ml) || exists|t: int|
                    0 <= t < k + 1 && hashes@[t].1 == x by {
                    if before.contains(x) {
                        if x != (mh, ml) {
                            let t = choose|t: int| 0 <= t < k && hashes@[t].1 == x;
                            assert(0 <= t < k + 1 && hashes@[t].1 == x);
                        }
                    } else {
                        assert(hashes@[k as int].1 == x);
                    }
                }
            }
            k = k + 1;
        }
        let ghost ev = entries_view(entries@);
        let ghost eh = entry_hashes(ev);
        proof {
            let t = choose|t: int| 0 <= t < entries@.len() && entries@[t] == (mh, ml);
            assert(eh[t] == mh@);
        }
        let index = position_of(&entries, &mh);
        proof {
            let t = choose|t: int| 0 <= t < entries@.len() && entries@[t] == (mh, ml);
            if t != index as int {
                assert(eh[t] == eh[index as int]);
                lemma_bytes_lt_irreflexive(eh[t]);
                if t < index as int {
                    assert(bytes_lt(eh[t], eh[index as int]));
                } else {
                    assert(bytes_lt(eh[index as int], eh[t]));
                }
            }
            assert(ev[index as int] == (mh@, ml));
            assert forall|i: int| 0 <= i < ev.len() && i != index implies input.contains(
                #[trigger] ev[i],
            ) by {
                assert(entries@.contains(entries@[i]));
                if entries@[i] == (mh, ml) {
                    assert(eh[i] == eh[index as int]);
                    lemma_bytes_lt_irreflexive(eh[i]);
                    if i < index {
                        assert(bytes_lt(eh[i], eh[index as int]));
                    } else {
                        assert(bytes_lt(eh[index as int], eh[i]));
                    }
                }
                let t = choose|t: int| 0 <= t < hashes@.len() && hashes@[t].1 == entries@[i];
                assert(input[t] == ev[i]);
            }
            assert forall|k: int| 0 <= k < input.len() implies eh.contains(#[trigger] input[k].0) by {
                assert(input[k].0 == hashes@[k].1.0@);
            }
        }
        let mut header = magic_bytes();
        push_u64(&mut header, index as u64);
        push_u64(&mut header, entries.len() as u64);
        let ghost start = header@;
        assert(ev.take(0) =~= Seq::<(Seq<u8>, u64)>::empty());
        assert(start + encode_entries(ev.take(0)) =~= start);
        let mut i: usize = 0;
        while i < entries.len()
            invariant
                i <= entries@.len(),
                ev == entries_view(entries@),
                header@ == start + encode_entries(ev.take(i as int)),
            decreases entries@.len() - i,
        {
            push_hash(&mut header, &entries[i].0);
            push_u64(&mut header, entries[i].1);
            proof {
                assert(ev.take(i + 1).drop_last() =~= ev.take(i as int));
                assert(ev.take(i + 1).last() == ev[i as int]);
            }
            i = i + 1;
            assert(header@ =~= start + encode_entries(ev.take(i as int)));
        }
        assert(ev.take(i as int) =~= ev);
        assert(header@ =~= header_bytes(index as nat, ev));
        SavePlan { header, manifest: mb, manifest_index: index, entries }
    }
}

/// In a strictly ascending sequence a value stands at one position only.
proof fn lemma_ascending_position_unique(s: Seq<Seq<u8>>, i: int, j: int)
    requires
        strictly_ascending(s),
        0 <= i < s.len(),
        0 <= j < s.len(),
        s[i] == s[j],
    ensures
        i == j,
{
    lemma_bytes_lt_irreflexive(s[i]);
    if i < j {
        assert(bytes_lt(s[i], s[j]));
    } else if j < i {
        assert(bytes_lt(s[j], s[i]));
    }
}

/// Two strictly ascending sequences that hold the same members are equal.
proof fn lemma_ascending_unique(s1: Seq<Seq<u8>>, s2: Seq<Seq<u8>>)
    requires
        strictly_ascending(s1),
        strictly_ascending(s2),
        forall|x: Seq<u8>| s1.contains(x) <==> s2.contains(x),
    ensures
        s1 == s2,
    decreases s1.len(),
{
    if s1.len() == 0 {
        if s2.len() > 0 {
            assert(s2.contains(s2[0]));
        }
        assert(s1 =~= s2);
    } else {
        assert(s1.contains(s1[0]));
        let j = choose|j: int| 0 <= j < s2.len() && s2[j] == s1[0];
        assert(s2.contains(s2[0]));
        let i = choose|i: int| 0 <= i < s1.len() && s1[i] == s2[0];
        if j > 0 {
            assert(bytes_lt(s2[0], s2[j]));
            if i > 0 {
                assert(bytes_lt(s1[0], s1[i]));
                lemma_bytes_lt_asymmetric(s1[0], s1[i]);
            } else {
                lemma_bytes_lt_irreflexive(s1[0]);
            }
        }
        assert(s1[0] == s2[0]);
        let r1 = s1.drop_first();
        let r2 = s2.drop_first();
        assert forall|x: Seq<u8>| r1.contains(x) implies r2.contains(x) by {
            let a = choose|a: int| 0 <= a < r1.len() && r1[a] == x;
            assert(s1[a + 1] == x);
            assert(s1.contains(x));
            let b = choose|b: int| 0 <= b < s2.len() && s2[b] == x;
            if b == 0 {
                lemma_ascending_position_unique(s1, 0, a + 1);
            }
            assert(r2[b - 1] == x);
        }
        assert forall|x: Seq<u8>| r2.contains(x) implies r1.contains(x) by {
            let a = choose|a: int| 0 <= a < r2.len() && r2[a] == x;
            assert(s2[a + 1] == x);
            assert(s2.contains(x));
            let b = choose|b: int| 0 <= b < s1.len() && s1[b] == x;
            if b == 0 {
                lemma_ascending_position_unique(s2, 0, a + 1);
            }
            assert(r1[b - 1] == x);
        }
        assert forall|a: int, b: int| 0 <= a < b < r1.len() implies bytes_lt(
            #[trigger] r1[a],
            #[trigger] r1[b],
        ) by {
            assert(r1[a] == s1[a + 1] && r1[b] == s1[b + 1]);
        }
        assert forall|a: int, b: int| 0 <= a < b < r2.len() implies bytes_lt(
            #[trigger] r2[a],
            #[trigger] r2[b],
        ) by {
            assert(r2[a] == s2[a + 1] && r2[b] == s2[b + 1]);
        }
        lemma_ascending_unique(r1, r2);
        assert(s1 =~= seq![s1[0]] + r1);
        assert(s2 =~= seq![s2[0]] + r2);
    }
}

/// The hashes of a canonical index are the manifest's and those of the input.
proof fn lemma_canonical_hashes(
    input: Seq<(Seq<u8>, u64)>,
    own: Seq<u8>,
    own_len: u64,
    es: Seq<(Seq<u8>, u64)>,
    index: int,
    h: Seq<u8>,
)
    requires
        canonical_index(input, own, own_len, es, index),
    ensures
        entry_hashes(es).contains(h) <==> (h == own || exists|k: int|
            0 <= k < input.len() && input[k].0 == h),
{
    let eh = entry_hashes(es);
    if eh.contains(h) {
        let i = choose|i: int| 0 <= i < eh.len() && eh[i] == h;
        if i != index {
            assert(input.contains(es[i]));
            let k = choose|k: int| 0 <= k < input.len() && input[k] == es[i];
            assert(input[k].0 == h);
        }
    }
    if h == own {
        assert(eh[index] == own);
    }
    if exists|k: int| 0 <= k < input.len() && input[k].0 == h {
        let k = choose|k: int| 0 <= k < input.len() && input[k].0 == h;
        assert(eh.contains(input[k].0));
    }
}

/// Saving does not depend on the order in which the blobs come: two inputs
/// holding the same (hash, length) pairs give, with the same manifest, the
/// same index with the manifest at the same position, hence the same header.
/// A hash must come with one length only, as it does when it is the hash of
/// the file's contents.
pub proof fn lemma_save_deterministic(
    in1: Seq<(Seq<u8>, u64)>,
    in2: Seq<(Seq<u8>, u64)>,
    own: Seq<u8>,
    own_len: u64,
    e1: Seq<(Seq<u8>, u64)>,
    i1: int,
    e2: Seq<(Seq<u8>, u64)>,
    i2: int,
)
    requires
        canonical_index(in1, own, own_len, e1, i1),
        canonical_index(in2, own, own_len, e2, i2),
        forall|x: (Seq<u8>, u64)| in1.contains(x) <==> in2.contains(x),
        forall|a: (Seq<u8>, u64), b: (Seq<u8>, u64)|
            in1.contains(a) && in1.contains(b) && a.0 == b.0 ==> a == b,
    ensures
        e1 == e2,
        i1 == i2,
        header_bytes(i1 as nat, e1) == header_bytes(i2 as nat, e2),
{
    let h1 = entry_hashes(e1);
    let h2 = entry_hashes(e2);
    assert forall|h: Seq<u8>| h1.contains(h) <==> h2.contains(h) by {
        lemma_canonical_hashes(in1, own, own_len, e1, i1, h);
        lemma_canonical_hashes(in2, own, own_len, e2, i2, h);
        if exists|k: int| 0 <= k < in1.len() && in1[k].0 == h {
            let k = choose|k: int| 0 <= k < in1.len() && in1[k].0 == h;
            assert(in1.contains(in1[k]));
            let m = choose|m: int| 0 <= m < in2.len() && in2[m] == in1[k];
            assert(in2[m].0 == h);
        }
        if exists|k: int| 0 <= k < in2.len() && in2[k].0 == h {
            let k = choose|k: int| 0 <= k < in2.len() && in2[k].0 == h;
            assert(in2.contains(in2[k]));
            let m = choose|m: int| 0 <= m < in1.len() && in1[m] == in2[k];
            assert(in1[m].0 == h);
        }
    }
    lemma_ascending_unique(h1, h2);
    assert(h1.len() == e1.len() && h2.len() == e2.len());
    assert(h2[i1] == own);
    lemma_ascending_position_unique(h2, i1, i2);
    assert forall|i: int| 0 <= i < e1.len() implies e1[i] == e2[i] by {
        assert(h1[i] == h2[i]);
        if i == i1 {
        } else {
            assert(in1.contains(e1[i]));
            assert(in2.contains(e2[i]));
            assert(in1.contains(e2[i]));
        }
    }
    assert(e1 =~= e2);
}

} // verus!
