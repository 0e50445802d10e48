//! The round trip between the writer and the loader.
use vstd::prelude::*;

use crate::codec::{
    bytes_lt, lemma_bytes_lt_asymmetric, lemma_bytes_lt_irreflexive, lemma_u64_le_round_trip, magic,
    strictly_ascending, u64_from_le, u64_le,
};
use crate::manifest::{encode_manifest, lemma_manifest_round_trip, ManifestView};
use crate::package::{
    blake3_of, blob, blob_start, blobs_error, count_extra, count_missing, entry_hash,
    entry_len, lens_sum, load_spec, table_error, PackageView,
};
use crate::resolve::blob_of;
use crate::writer::{canonical_index, encode_entries, entry_hashes, header_bytes};

verus! {

/// The bytes stored under hash `h`: the encoded manifest under its own hash,
/// else those of the first blob with that hash.
pub open spec fn stored(blobs: Seq<(Seq<u8>, Seq<u8>)>, mb: Seq<u8>, own: Seq<u8>, h: Seq<u8>) -> Seq<u8> {
    if h == own {
        mb
    } else {
        match blob_of(blobs, h) {
            Some(b) => b,
            None => Seq::empty(),
        }
    }
}

/// The blobs of a package file, back to back in index order.
pub open spec fn payload(
    es: Seq<(Seq<u8>, u64)>,
    blobs: Seq<(Seq<u8>, Seq<u8>)>,
    mb: Seq<u8>,
    own: Seq<u8>,
) -> Seq<u8>
    decreases es.len(),
{
    if es.len() == 0 {
        Seq::empty()
    } else {
        payload(es.drop_last(), blobs, mb, own) + stored(blobs, mb, own, es.last().0)
    }
}

/// Each blob as its hash and declared length.
pub open spec fn declared(blobs: Seq<(Seq<u8>, Seq<u8>)>) -> Seq<(Seq<u8>, u64)> {
    blobs.map_values(|b: (Seq<u8>, Seq<u8>)| (b.0, b.1.len() as u64))
}

proof fn lemma_encode_entries(es: Seq<(Seq<u8>, u64)>, i: int)
    requires
        forall|j: int| 0 <= j < es.len() ==> (#[trigger] es[j]).0.len() == 32,
        0 <= i < es.len(),
    ensures
        encode_entries(es).len() == 40 * es.len(),
        encode_entries(es).subrange(40 * i, 40 * i + 32) == es[i].0,
        encode_entries(es).subrange(40 * i + 32, 40 * i + 40) == u64_le(es[i].1),
    decreases es.len(),
{
    let init = es.drop_last();
    let e = encode_entries(es);
    let last = es.last();
    assert(e == encode_entries(init) + last.0 + u64_le(last.1));
    if init.len() > 0 {
        assert forall|j: int| 0 <= j < init.len() implies (#[trigger] init[j]).0.len() == 32 by {
            assert(init[j] == es[j]);
        }
        lemma_encode_entries(init, 0);
    } else {
        assert(encode_entries(init) =~= Seq::<u8>::empty());
    }
    assert(e.len() == 40 * es.len());
    if i < init.len() {
        lemma_encode_entries(init, i);
        assert(e.subrange(40 * i, 40 * i + 32) =~= encode_entries(init).subrange(40 * i, 40 * i + 32));
        assert(e.subrange(40 * i + 32, 40 * i + 40) =~= encode_entries(init).subrange(
            40 * i + 32,
            40 * i + 40,
        ));
        assert(init[i] == es[i]);
    } else {
        assert(e.subrange(40 * i, 40 * i + 32) =~= last.0);
        assert(e.subrange(40 * i + 32, 40 * i + 40) =~= u64_le(last.1));
    }
}

proof fn lemma_payload_prefix(
    es: Seq<(Seq<u8>, u64)>,
    blobs: Seq<(Seq<u8>, Seq<u8>)>,
    mb: Seq<u8>,
    own: Seq<u8>,
    n: int,
)
    requires
        0 <= n <= es.len(),
    ensures
        payload(es.take(n), blobs, mb, own).len() <= payload(es, blobs, mb, own).len(),
        payload(es, blobs, mb, own).subrange(0, payload(es.take(n), blobs, mb, own).len() as int)
            == payload(es.take(n), blobs, mb, own),
    decreases es.len() - n,
{
    if n == es.len() {
        assert(es.take(n) =~= es);
    } else {
        lemma_payload_prefix(es, blobs, mb, own, n + 1);
        assert(es.take(n + 1).drop_last() =~= es.take(n));
        let p = payload(es, blobs, mb, own);
        let q = payload(es.take(n + 1), blobs, mb, own);
        let r = payload(es.take(n), blobs, mb, own);
        assert(q == r + stored(blobs, mb, own, es.take(n + 1).last().0));
        assert(p.subrange(0, r.len() as int) =~= q.subrange(0, r.len() as int));
        assert(q.subrange(0, r.len() as int) =~= r);
    }
}

proof fn lemma_count_extra_zero(hashes: Seq<Seq<u8>>, refs: Seq<Seq<u8>>, own: Seq<u8>)
    requires
        forall|i: int| 0 <= i < hashes.len() ==> #[trigger] hashes[i] == own || refs.contains(hashes[i]),
    ensures
        count_extra(hashes, refs, own) == 0,
    decreases hashes.len(),
{
    if hashes.len() > 0 {
        let init = hashes.drop_last();
        assert forall|i: int| 0 <= i < init.len() implies #[trigger] init[i] == own || refs.contains(init[i]) by {
            assert(init[i] == hashes[i]);
        }
        lemma_count_extra_zero(init, refs, own);
        assert(hashes.last() == hashes[hashes.len() - 1]);
    }
}

proof fn lemma_count_missing_zero(refs: Seq<Seq<u8>>, hashes: Seq<Seq<u8>>)
    requires
        forall|i: int| 0 <= i < refs.len() ==> hashes.contains(#[trigger] refs[i]),
    ensures
        count_missing(refs, hashes) == 0,
    decreases refs.len(),
{
    if refs.len() > 0 {
        let init = refs.drop_last();
        assert forall|i: int| 0 <= i < init.len() implies hashes.contains(#[trigger] init[i]) by {
            assert(init[i] == refs[i]);
        }
        lemma_count_missing_zero(init, hashes);
        assert(refs.last() == refs[refs.len() - 1]);
    }
}

proof fn lemma_blob_of_found(blobs: Seq<(Seq<u8>, Seq<u8>)>, k: int)
    requires
        0 <= k < blobs.len(),
        forall|j: int| 0 <= j < blobs.len() && (#[trigger] blobs[j]).0 == blobs[k].0 ==> blobs[j].1 == blobs[k].1,
    ensures
        blob_of(blobs, blobs[k].0) == Some(blobs[k].1),
    decreases blobs.len(),
{
    if blobs[0].0 != blobs[k].0 {
        let rest = blobs.drop_first();
        assert(rest[k - 1] == blobs[k]);
        assert forall|j: int| 0 <= j < rest.len() && (#[trigger] rest[j]).0 == rest[k - 1].0 implies rest[j].1
            == rest[k - 1].1 by {
            assert(rest[j] == blobs[j + 1]);
        }
        lemma_blob_of_found(rest, k - 1);
    } else {
        assert(blobs[0].1 == blobs[k].1);
    }
}

proof fn lemma_table_ok(b: Seq<u8>, count: nat, n: nat)
    requires
        n <= count,
        25 + 40 * count <= b.len(),
        forall|i: int| 0 <= i < count ==> #[trigger] entry_len(b, i) <= usize::MAX,
        forall|i: int| 0 < i < count ==> bytes_lt_pair(b, i),
    ensures
        table_error(b, n) is None,
    decreases n,
{
    if n > 0 {
        lemma_table_ok(b, count, (n - 1) as nat);
        let i = n - 1;
        assert(entry_len(b, i) <= usize::MAX);
        if i > 0 {
            assert(bytes_lt_pair(b, i));
            lemma_bytes_lt_asymmetric(entry_hash(b, i - 1), entry_hash(b, i));
            lemma_bytes_lt_irreflexive(entry_hash(b, i));
        }
    }
}

/// Entry `i - 1` comes strictly before entry `i`.
spec fn bytes_lt_pair(b: Seq<u8>, i: int) -> bool {
    crate::codec::bytes_lt(entry_hash(b, i - 1), entry_hash(b, i))
}

proof fn lemma_lens_sum(
    b: Seq<u8>,
    es: Seq<(Seq<u8>, u64)>,
    blobs: Seq<(Seq<u8>, Seq<u8>)>,
    mb: Seq<u8>,
    own: Seq<u8>,
    n: int,
)
    requires
        0 <= n <= es.len(),
        forall|i: int|
            0 <= i < es.len() ==> #[trigger] entry_len(b, i) == stored(blobs, mb, own, es[i].0).len(),
    ensures
        lens_sum(b, n as nat) == payload(es.take(n), blobs, mb, own).len(),
    decreases n,
{
    if n > 0 {
        lemma_lens_sum(b, es, blobs, mb, own, n - 1);
        assert(es.take(n).drop_last() =~= es.take(n - 1));
        assert(es.take(n).last() == es[n - 1]);
        assert(entry_len(b, n - 1) == stored(blobs, mb, own, es[n - 1].0).len());
    } else {
        assert(es.take(0).len() == 0);
    }
}

proof fn lemma_blobs_ok(b: Seq<u8>, count: nat, n: nat)
    requires
        n <= count,
        forall|i: nat| i < count ==> #[trigger] blob_ok(b, count, i),
    ensures
        blobs_error(b, count, n) is None,
    decreases n,
{
    if n > 0 {
        lemma_blobs_ok(b, count, (n - 1) as nat);
        assert(blob_ok(b, count, (n - 1) as nat));
    }
}

/// Blob `i` lies within the file and hashes to its entry's hash.
spec fn blob_ok(b: Seq<u8>, count: nat, i: nat) -> bool {
    &&& blob_start(b, count, i) + entry_len(b, i as int) <= b.len()
    &&& blake3_of(blob(b, count, i)) == entry_hash(b, i as int)
}

/// What the main law asks of its inputs.
spec fn saved(
    blobs: Seq<(Seq<u8>, Seq<u8>)>,
    m: ManifestView,
    own: Seq<u8>,
    es: Seq<(Seq<u8>, u64)>,
    index: int,
) -> bool {
    &&& m.encodable()
    &&& own == blake3_of(encode_manifest(m))
    &&& own.len() == 32
    &&& encode_manifest(m).len() <= usize::MAX
    &&& es.len() <= usize::MAX
    &&& forall|k: int|
        0 <= k < blobs.len() ==> (#[trigger] blobs[k]).0 == blake3_of(blobs[k].1) && blobs[k].0.len()
            == 32 && blobs[k].1.len() <= usize::MAX
    &&& forall|j: int, k: int|
        0 <= j < blobs.len() && 0 <= k < blobs.len() && (#[trigger] blobs[j]).0 == (
        #[trigger] blobs[k]).0 ==> blobs[j].1 == blobs[k].1
    &&& forall|k: int|
        0 <= k < blobs.len() && (#[trigger] blobs[k]).0 == own ==> blobs[k].1 == encode_manifest(m)
    &&& forall|k: int| 0 <= k < blobs.len() ==> m.references().contains(#[trigger] blobs[k].0)
    &&& forall|r: Seq<u8>|
        #[trigger] m.references().contains(r) ==> exists|k: int|
            0 <= k < blobs.len() && blobs[k].0 == r
    &&& canonical_index(declared(blobs), own, encode_manifest(m).len() as u64, es, index)
}

proof fn lemma_entry_contents(
    blobs: Seq<(Seq<u8>, Seq<u8>)>,
    m: ManifestView,
    own: Seq<u8>,
    es: Seq<(Seq<u8>, u64)>,
    index: int,
)
    requires
        saved(blobs, m, own, es, index),
    ensures
        forall|j: int|
            0 <= j < es.len() ==> (#[trigger] es[j]).0.len() == 32 && es[j].1 as int == stored(
                blobs,
                encode_manifest(m),
                own,
                es[j].0,
            ).len() && blake3_of(stored(blobs, encode_manifest(m), own, es[j].0)) == es[j].0
                && es[j].1 <= usize::MAX,
{
    let mb = encode_manifest(m);
    let input = declared(blobs);
    let eh = entry_hashes(es);
    assert(usize::MAX <= u64::MAX);
    assert forall|j: int| 0 <= j < es.len() implies (#[trigger] es[j]).0.len() == 32 && es[j].1 as int
        == stored(blobs, mb, own, es[j].0).len() && blake3_of(stored(blobs, mb, own, es[j].0))
        == es[j].0 && es[j].1 <= usize::MAX by {
        if j != index {
            assert(input.contains(es[j]));
            let k = choose|k: int| 0 <= k < input.len() && input[k] == es[j];
            assert(input[k] == (blobs[k].0, blobs[k].1.len() as u64));
            if es[j].0 == own {
                assert(eh[j] == eh[index]);
                lemma_bytes_lt_irreflexive(eh[j]);
                if j < index {
                    assert(bytes_lt(eh[j], eh[index]));
                } else {
                    assert(bytes_lt(eh[index], eh[j]));
                }
            }
            lemma_blob_of_found(blobs, k);
        }
    }
}

proof fn lemma_image_header(es: Seq<(Seq<u8>, u64)>, index: int, pl: Seq<u8>)
    requires
        forall|j: int| 0 <= j < es.len() ==> (#[trigger] es[j]).0.len() == 32,
        0 <= index < es.len(),
        es.len() <= u64::MAX,
    ensures
        header_bytes(index as nat, es).len() == 25 + 40 * es.len(),
        (header_bytes(index as nat, es) + pl).take(9) == magic(),
        u64_from_le((header_bytes(index as nat, es) + pl).subrange(9, 17)) == index,
        u64_from_le((header_bytes(index as nat, es) + pl).subrange(17, 25)) == es.len(),
        forall|i: int|
            #![trigger entry_hash(header_bytes(index as nat, es) + pl, i)]
            #![trigger entry_len(header_bytes(index as nat, es) + pl, i)]
            0 <= i < es.len() ==> entry_hash(header_bytes(index as nat, es) + pl, i) == es[i].0
                && entry_len(header_bytes(index as nat, es) + pl, i) == es[i].1,
{
    let hb = header_bytes(index as nat, es);
    let b = hb + pl;
    lemma_encode_entries(es, 0);
    assert(b.take(9) =~= magic());
    assert(b.subrange(9, 17) =~= u64_le(index as u64));
    assert(b.subrange(17, 25) =~= u64_le(es.len() as u64));
    lemma_u64_le_round_trip(index as u64);
    lemma_u64_le_round_trip(es.len() as u64);
    assert forall|i: int|
        #![trigger entry_hash(b, i)]
        #![trigger entry_len(b, i)]
        0 <= i < es.len() implies entry_hash(b, i) == es[i].0 && entry_len(b, i) == es[i].1 by {
        lemma_encode_entries(es, i);
        assert(entry_hash(b, i) =~= encode_entries(es).subrange(40 * i, 40 * i + 32));
        assert(b.subrange(25 + 40 * i + 32, 25 + 40 * i + 40) =~= encode_entries(es).subrange(
            40 * i + 32,
            40 * i + 40,
        ));
        lemma_u64_le_round_trip(es[i].1);
    }
}

proof fn lemma_image_blobs(
    b: Seq<u8>,
    hb: Seq<u8>,
    es: Seq<(Seq<u8>, u64)>,
    blobs: Seq<(Seq<u8>, Seq<u8>)>,
    mb: Seq<u8>,
    own: Seq<u8>,
)
    requires
        hb.len() == 25 + 40 * es.len(),
        b == hb + payload(es, blobs, mb, own),
        forall|i: int|
            0 <= i < es.len() ==> #[trigger] entry_len(b, i) == stored(blobs, mb, own, es[i].0).len()
                && entry_hash(b, i) == es[i].0 && blake3_of(stored(blobs, mb, own, es[i].0))
                == es[i].0,
    ensures
        blobs_error(b, es.len(), es.len()) is None,
        blob_start(b, es.len(), es.len()) == b.len(),
        forall|i: nat| i < es.len() ==> #[trigger] blob(b, es.len(), i) == stored(blobs, mb, own, es[i as int].0),
{
    let count = es.len();
    let pl = payload(es, blobs, mb, own);
    assert forall|i: nat|
        #![trigger blob_ok(b, count, i)]
        #![trigger blob(b, count, i)]
        i < count implies blob_ok(b, count, i) && blob(b, count, i) == stored(
        blobs,
        mb,
        own,
        es[i as int].0,
    ) by {
        let ii = i as int;
        lemma_lens_sum(b, es, blobs, mb, own, ii);
        lemma_payload_prefix(es, blobs, mb, own, ii + 1);
        assert(es.take(ii + 1).drop_last() =~= es.take(ii));
        assert(es.take(ii + 1).last() == es[ii]);
        let before = payload(es.take(ii), blobs, mb, own);
        let upto = payload(es.take(ii + 1), blobs, mb, own);
        let st = stored(blobs, mb, own, es[ii].0);
        let x = before.len() as int;
        let y = x + st.len();
        let h = hb.len() as int;
        assert(upto == before + st);
        assert(entry_len(b, ii) == st.len());
        assert(blob_start(b, count, i) == h + x);
        assert(b.subrange(h + x, h + y) =~= pl.subrange(x, y));
        assert(pl.subrange(0, upto.len() as int) == upto);
        assert(pl.subrange(x, y) =~= upto.subrange(x, upto.len() as int));
        assert(upto.subrange(x, upto.len() as int) =~= st);
        assert(blob(b, count, i) == st);
    }
    lemma_blobs_ok(b, count, count);
    lemma_lens_sum(b, es, blobs, mb, own, count as int);
    assert(es.take(count as int) =~= es);
}

proof fn lemma_image_table(b: Seq<u8>, es: Seq<(Seq<u8>, u64)>)
    requires
        strictly_ascending(entry_hashes(es)),
        25 + 40 * es.len() <= b.len(),
        forall|i: int|
            #![trigger entry_hash(b, i)]
            #![trigger entry_len(b, i)]
            0 <= i < es.len() ==> entry_hash(b, i) == es[i].0 && entry_len(b, i) == es[i].1,
        forall|j: int| 0 <= j < es.len() ==> (#[trigger] es[j]).1 <= usize::MAX,
    ensures
        table_error(b, es.len()) is None,
{
    let eh = entry_hashes(es);
    assert forall|i: int| 0 < i < es.len() implies bytes_lt_pair(b, i) by {
        assert(entry_hash(b, i - 1) == es[i - 1].0 && entry_hash(b, i) == es[i].0);
        assert(eh[i - 1] == es[i - 1].0 && eh[i] == es[i].0);
    }
    assert forall|i: int| 0 <= i < es.len() implies #[trigger] entry_len(b, i) <= usize::MAX by {
        assert(entry_len(b, i) == es[i].1);
    }
    lemma_table_ok(b, es.len(), es.len());
}

proof fn lemma_image_consistent(
    blobs: Seq<(Seq<u8>, Seq<u8>)>,
    m: ManifestView,
    own: Seq<u8>,
    es: Seq<(Seq<u8>, u64)>,
    index: int,
)
    requires
        saved(blobs, m, own, es, index),
    ensures
        count_extra(entry_hashes(es), m.references(), own) == 0,
        count_missing(m.references(), entry_hashes(es)) == 0,
{
    let input = declared(blobs);
    let eh = entry_hashes(es);
    let refs = m.references();
    assert forall|i: int| 0 <= i < eh.len() implies #[trigger] eh[i] == own || refs.contains(eh[i]) by {
        if i != index {
            assert(input.contains(es[i]));
            let k = choose|k: int| 0 <= k < input.len() && input[k] == es[i];
            assert(input[k].0 == blobs[k].0);
            assert(refs.contains(blobs[k].0));
        }
    }
    lemma_count_extra_zero(eh, refs, own);
    assert forall|i: int| 0 <= i < refs.len() implies eh.contains(#[trigger] refs[i]) by {
        assert(refs.contains(refs[i]));
        let k = choose|k: int| 0 <= k < blobs.len() && blobs[k].0 == refs[i];
        assert(input[k].0 == blobs[k].0);
        assert(eh.contains(input[k].0));
    }
    lemma_count_missing_zero(refs, eh);
}

/// Loading a package that the writer planned gives back what was saved.
///
/// `blobs` are the files, each with the hash of its bytes; `m` is the
/// manifest, whose references are exactly those hashes; `es` and `index` are
/// the canonical index that saving produced for them, with `own` the hash of
/// the encoded manifest. The file is the header followed by the stored bytes
/// of each entry in index order. Loading it gives, for each entry, its hash
/// with the bytes stored under it (the encoded manifest under `own`, each
/// file's bytes under its hash), and the manifest `m`. Files with equal
/// hashes must hold equal bytes, and lengths must fit a native size.
pub proof fn lemma_round_trip(
    blobs: Seq<(Seq<u8>, Seq<u8>)>,
    m: ManifestView,
    own: Seq<u8>,
    es: Seq<(Seq<u8>, u64)>,
    index: int,
)
    requires
        m.encodable(),
        own == blake3_of(encode_manifest(m)),
        own.len() == 32,
        encode_manifest(m).len() <= usize::MAX,
        es.len() <= usize::MAX,
        forall|k: int|
            0 <= k < blobs.len() ==> (#[trigger] blobs[k]).0 == blake3_of(blobs[k].1) && blobs[k].0.len()
                == 32 && blobs[k].1.len() <= usize::MAX,
        forall|j: int, k: int|
            0 <= j < blobs.len() && 0 <= k < blobs.len() && (#[trigger] blobs[j]).0 == (
            #[trigger] blobs[k]).0 ==> blobs[j].1 == blobs[k].1,
        forall|k: int|
            0 <= k < blobs.len() && (#[trigger] blobs[k]).0 == own ==> blobs[k].1 == encode_manifest(m),
        forall|k: int| 0 <= k < blobs.len() ==> m.references().contains(#[trigger] blobs[k].0),
        forall|r: Seq<u8>|
            #[trigger] m.references().contains(r) ==> exists|k: int|
                0 <= k < blobs.len() && blobs[k].0 == r,
        canonical_index(declared(blobs), own, encode_manifest(m).len() as u64, es, index),
    ensures
        load_spec(header_bytes(index as nat, es) + payload(es, blobs, encode_manifest(m), own))
            == Ok::<PackageView, crate::package::ErrorView>(
            PackageView {
                files: es.map_values(
                    |e: (Seq<u8>, u64)| (e.0, stored(blobs, encode_manifest(m), own, e.0)),
                ),
                manifest: m,
            },
        ),
{
    let mb = encode_manifest(m);
    let input = declared(blobs);
    let count = es.len();
    let eh = entry_hashes(es);
    let hb = header_bytes(index as nat, es);
    let pl = payload(es, blobs, mb, own);
    let b = hb + pl;
    assert(saved(blobs, m, own, es, index));
    lemma_entry_contents(blobs, m, own, es, index);
    assert(usize::MAX <= u64::MAX);
    lemma_image_header(es, index, pl);
    lemma_image_table(b, es);
    assert forall|i: int| 0 <= i < count implies #[trigger] entry_len(b, i) == stored(
        blobs,
        mb,
        own,
        es[i].0,
    ).len() && entry_hash(b, i) == es[i].0 && blake3_of(stored(blobs, mb, own, es[i].0)) == es[i].0 by {
        assert(entry_len(b, i) == es[i].1);
    }
    lemma_image_blobs(b, hb, es, blobs, mb, own);
    assert(blob(b, count, index as nat) == mb);
    lemma_manifest_round_trip(m);
    let files = crate::package::blobs(b, count, count);
    assert(files.map_values(|f: (Seq<u8>, Seq<u8>)| f.0) =~= eh);
    lemma_image_consistent(blobs, m, own, es, index);
    assert(entry_hash(b, index) == own);
    assert(files =~= es.map_values(|e: (Seq<u8>, u64)| (e.0, stored(blobs, mb, own, e.0))));
}

} // verus!
