//! Archive building: the selected files become one gzip-compressed tar blob,
//! built entirely in memory.
//!
//! The tar container and the gzip compressor are outside codecs; their byte
//! output is named, not restated, and everything around the calls is verified:
//! which entries go in, in what order, and that the blob is exactly the
//! compression of exactly those entries.

use vstd::prelude::*;
use crate::selector::{FsNode, SourceFile, distinct_names, entries_view, spec_select, select_tree};

verus! {

/// A failure while building the archive; any failure aborts the build,
/// since a broken archive must never be embedded. `Append` is returned
/// exactly when tar refuses an entry name; `Finish` maps the codecs'
/// finalization error type, which the in-memory writer never produces.
#[derive(Debug, Clone, Copy, PartialEq, Eq, Structural)]
pub enum ArchiveError {
    Append,
    Finish,
}

/// An in-memory archive writer: a tar container builder layered over a gzip
/// compressor that writes into a byte buffer. Opaque to verification; what it
/// holds is spoken of only through [`tar_entries`].
#[verifier::external_body]
pub struct ArchiveWriter {
    inner: tar::Builder<flate2::write::GzEncoder<Vec<u8>>>,
}

/// The entries appended so far to an in-memory tar-over-gzip writer, in
/// order: entry name and raw content.
pub uninterp spec fn tar_entries(w: ArchiveWriter) -> Seq<(Seq<char>, Seq<u8>)>;

/// The serialized tar container holding the given entries in order, each
/// under a GNU header with the fixed permission bits and the header checksum.
pub uninterp spec fn tar_bytes(entries: Seq<(Seq<char>, Seq<u8>)>) -> Seq<u8>;

/// The gzip stream, at the best compression level, of the given bytes.
pub uninterp spec fn gzip_bytes(data: Seq<u8>) -> Seq<u8>;

/// Whether tar accepts `name` as an archive entry path. Acceptance is a
/// fixed function of the name alone: a relative path with no `..` component,
/// no NUL byte and at least one component passes; anything else is refused
/// before a single byte is written.
pub uninterp spec fn tar_name_ok(name: Seq<char>) -> bool;

/// The extracted view of an entry sequence: the map from entry name to
/// content, a later entry of the same name overriding an earlier one, as
/// extraction to a file system would.
pub open spec fn entry_map(s: Seq<(Seq<char>, Seq<u8>)>) -> Map<Seq<char>, Seq<u8>>
    decreases s.len(),
{
    if s.len() == 0 {
        Map::empty()
    } else {
        entry_map(s.drop_last()).insert(s.last().0, s.last().1)
    }
}

proof fn lemma_entry_map_contains(s: Seq<(Seq<char>, Seq<u8>)>, n: Seq<char>)
    ensures
        entry_map(s).contains_key(n) <==> exists|i: int| 0 <= i < s.len() && s[i].0 == n,
    decreases s.len(),
{
    if s.len() > 0 {
        lemma_entry_map_contains(s.drop_last(), n);
        assert(forall|i: int| 0 <= i < s.len() - 1 ==> s.drop_last()[i] == s[i]);
        if s.last().0 == n {
            assert(s[s.len() - 1].0 == n);
        } else {
            if exists|i: int| 0 <= i < s.len() && s[i].0 == n {
                let i = choose|i: int| 0 <= i < s.len() && s[i].0 == n;
                assert(s.drop_last()[i].0 == n);
            }
        }
    }
}

proof fn lemma_entry_map_value(s: Seq<(Seq<char>, Seq<u8>)>, i: int)
    requires
        distinct_names(s),
        0 <= i < s.len(),
    ensures
        entry_map(s).contains_key(s[i].0),
        entry_map(s)[s[i].0] == s[i].1,
    decreases s.len(),
{
    if i < s.len() - 1 {
        assert(forall|k: int| 0 <= k < s.len() - 1 ==> s.drop_last()[k] == s[k]);
        lemma_entry_map_value(s.drop_last(), i);
        assert(s.last().0 != s[i].0);
    }
}

/// Running the pipeline twice on an unchanged tree extracts to the same
/// files: two entry sequences holding the same entries — in whatever order
/// the walk yielded them — have the same entry map, name for name and byte
/// for byte.
pub proof fn lemma_entry_map_order_independent(
    s1: Seq<(Seq<char>, Seq<u8>)>,
    s2: Seq<(Seq<char>, Seq<u8>)>,
)
    requires
        s1.to_multiset() == s2.to_multiset(),
        distinct_names(s1),
        distinct_names(s2),
    ensures
        entry_map(s1) == entry_map(s2),
{
    broadcast use vstd::seq_lib::group_to_multiset_ensures;

    assert forall|n: Seq<char>| entry_map(s1).contains_key(n) implies entry_map(
        s2,
    ).contains_key(n) by {
        lemma_entry_map_contains(s1, n);
        lemma_entry_map_contains(s2, n);
        let i = choose|i: int| 0 <= i < s1.len() && s1[i].0 == n;
        vstd::seq_lib::to_multiset_contains(s1, s1[i]);
        vstd::seq_lib::to_multiset_contains(s2, s1[i]);
        assert(s1.contains(s1[i]));
        assert(s2.contains(s1[i]));
        let j = choose|j: int| 0 <= j < s2.len() && s2[j] == s1[i];
        assert(s2[j].0 == n);
    }
    assert forall|n: Seq<char>| entry_map(s2).contains_key(n) implies entry_map(
        s1,
    ).contains_key(n) by {
        lemma_entry_map_contains(s1, n);
        lemma_entry_map_contains(s2, n);
        let j = choose|j: int| 0 <= j < s2.len() && s2[j].0 == n;
        vstd::seq_lib::to_multiset_contains(s2, s2[j]);
        vstd::seq_lib::to_multiset_contains(s1, s2[j]);
        assert(s2.contains(s2[j]));
        assert(s1.contains(s2[j]));
        let i = choose|i: int| 0 <= i < s1.len() && s1[i] == s2[j];
        assert(s1[i].0 == n);
    }
    assert forall|n: Seq<char>|
        entry_map(s1).contains_key(n) && entry_map(s2).contains_key(n) implies entry_map(s1)[n]
        == entry_map(s2)[n] by {
        lemma_entry_map_contains(s1, n);
        lemma_entry_map_contains(s2, n);
        let i = choose|i: int| 0 <= i < s1.len() && s1[i].0 == n;
        let j = choose|j: int| 0 <= j < s2.len() && s2[j].0 == n;
        vstd::seq_lib::to_multiset_contains(s1, s1[i]);
        vstd::seq_lib::to_multiset_contains(s2, s1[i]);
        assert(s1.contains(s1[i]));
        assert(s2.contains(s1[i]));
        let j2 = choose|k: int| 0 <= k < s2.len() && s2[k] == s1[i];
        assert(s2[j2].0 == n);
        assert(j2 == j);
        lemma_entry_map_value(s1, i);
        lemma_entry_map_value(s2, j);
    }
    assert(entry_map(s1) =~= entry_map(s2));
}

proof fn lemma_distinct_names_transfer(
    s1: Seq<(Seq<char>, Seq<u8>)>,
    s2: Seq<(Seq<char>, Seq<u8>)>,
)
    requires
        s1.to_multiset() == s2.to_multiset(),
        distinct_names(s1),
    ensures
        distinct_names(s2),
{
    assert(s1.no_duplicates()) by {
        assert forall|i: int, j: int|
            0 <= i < s1.len() && 0 <= j < s1.len() && i != j implies s1[i] != s1[j] by {
            if i < j {
                assert(s1[i].0 != s1[j].0);
            } else {
                assert(s1[j].0 != s1[i].0);
            }
        }
    }
    s1.lemma_multiset_has_no_duplicates();
    s2.lemma_multiset_has_no_duplicates_conv();
    assert forall|i: int, j: int| 0 <= i < j < s2.len() implies s2[i].0 != s2[j].0 by {
        if s2[i].0 == s2[j].0 {
            vstd::seq_lib::to_multiset_contains(s2, s2[i]);
            vstd::seq_lib::to_multiset_contains(s2, s2[j]);
            vstd::seq_lib::to_multiset_contains(s1, s2[i]);
            vstd::seq_lib::to_multiset_contains(s1, s2[j]);
            assert(s2.contains(s2[i]) && s2.contains(s2[j]));
            assert(s1.contains(s2[i]) && s1.contains(s2[j]));
            let k1 = choose|k: int| 0 <= k < s1.len() && s1[k] == s2[i];
            let k2 = choose|k: int| 0 <= k < s1.len() && s1[k] == s2[j];
            assert(s2[i] != s2[j]);
            assert(k1 != k2);
            assert(s1[k1].0 == s1[k2].0);
            assert(false);
        }
    }
}

/// Rebuilding from the same unchanged well-formed siblings extracts to the
/// same files, in whatever order a walk yields the same selection: any
/// reordering of the selected entries has the entry map of the selection
/// itself.
pub proof fn lemma_rebuild_extracts_identically(
    nodes: Seq<FsNode>,
    prefix: Seq<char>,
    reordered: Seq<(Seq<char>, Seq<u8>)>,
)
    requires
        crate::selector::wf_siblings(nodes),
        reordered.to_multiset() == crate::selector::spec_select_seq(nodes, prefix).to_multiset(),
    ensures
        entry_map(reordered) == entry_map(crate::selector::spec_select_seq(nodes, prefix)),
{
    let s = crate::selector::spec_select_seq(nodes, prefix);
    crate::selector::lemma_select_seq_distinct(nodes, prefix);
    lemma_distinct_names_transfer(s, reordered);
    lemma_entry_map_order_independent(reordered, s);
}

/// Relies on flate2's `GzEncoder::new` (over a fresh in-memory buffer, at
/// `Compression::best`) and tar's `Builder::new`: a fresh writer holds no
/// entries.
#[verifier::external_body]
fn new_archive_writer() -> (w: ArchiveWriter)
    ensures
        tar_entries(w) == Seq::<(Seq<char>, Seq<u8>)>::empty(),
{
    ArchiveWriter {
        inner: tar::Builder::new(
            flate2::write::GzEncoder::new(Vec::new(), flate2::Compression::best()),
        ),
    }
}

/// Relies on tar's `Builder::append_data`: on success the archive holds one
/// more entry, named `name`, with content `data`, under a GNU header whose
/// size field is the content length, whose permission bits are fixed at
/// owner read/write and group/other read, and whose checksum is set. The
/// call fails exactly when tar refuses the entry name — it validates the
/// path before writing anything, and writes into the in-memory encoder
/// cannot fail — and a refused append leaves the archive untouched.
#[verifier::external_body]
fn append_entry(w: &mut ArchiveWriter, name: &str, data: &Vec<u8>) -> (r: Result<
    (),
    ArchiveError,
>)
    ensures
        r is Ok <==> tar_name_ok(name@),
        r is Ok ==> tar_entries(*final(w)) == tar_entries(*old(w)).push((name@, data@)),
        r is Err ==> tar_entries(*final(w)) == tar_entries(*old(w)),
{
    let mut header = tar::Header::new_gnu();
    header.set_size(data.len() as u64);
    header.set_mode(0o644);
    header.set_cksum();
    match w.inner.append_data(&mut header, name, data.as_slice()) {
        Ok(()) => Ok(()),
        Err(_) => Err(ArchiveError::Append),
    }
}

/// Relies on tar's `Builder::into_inner`, which closes the container
/// (writing the end-of-archive blocks) before flate2's `GzEncoder::finish`
/// flushes the compressor and writes the gzip trailer — in that order.
/// Both finalization steps only write into the in-memory buffer, which
/// cannot fail, so the call always succeeds; the result is the gzip stream
/// of the tar serialization of the appended entries, and a gzip stream
/// opens with the magic bytes 0x1f, 0x8b.
#[verifier::external_body]
fn finish_archive(w: ArchiveWriter) -> (r: Result<Vec<u8>, ArchiveError>)
    ensures
        r is Ok,
        r matches Ok(blob) ==> blob@ == gzip_bytes(tar_bytes(tar_entries(w))) && blob@.len() >= 2
            && blob@[0] == 0x1f && blob@[1] == 0x8b,
{
    let enc = match w.inner.into_inner() {
        Ok(enc) => enc,
        Err(_) => {
            return Err(ArchiveError::Finish);
        },
    };
    match enc.finish() {
        Ok(buf) => Ok(buf),
        Err(_) => Err(ArchiveError::Finish),
    }
}

/// Build one compressed archive blob from the selected files, in the order
/// given. Success is owed whenever tar accepts every entry name — as it
/// does for every name the selector produces from a real tree — and then
/// the blob is exactly the gzip compression of the tar container of exactly
/// those entries; a refused entry name is the only failure.
pub fn build_archive(files: &Vec<SourceFile>) -> (r: Result<Vec<u8>, ArchiveError>)
    ensures
        (forall|i: int|
            0 <= i < files@.len() ==> tar_name_ok(#[trigger] files@[i].name@)) ==> r is Ok,
        r matches Ok(blob) ==> blob@ == gzip_bytes(tar_bytes(entries_view(files@)))
            && blob@.len() >= 2 && blob@[0] == 0x1f && blob@[1] == 0x8b,
{
    let mut w = new_archive_writer();
    let mut i: usize = 0;
    while i < files.len()
        invariant
            0 <= i <= files.len(),
            tar_entries(w) == entries_view(files@.take(i as int)),
        decreases files.len() - i,
    {
        let res = append_entry(&mut w, files[i].name.as_str(), &files[i].content);
        match res {
            Ok(()) => {},
            Err(e) => {
                proof {
                    assert(!tar_name_ok(files@[i as int].name@));
                }
                return Err(e);
            },
        }
        proof {
            assert(entries_view(files@.take(i + 1)) =~= entries_view(files@.take(i as int)).push(
                files@[i as int]@,
            ));
        }
        i += 1;
    }
    proof {
        assert(files@.take(files@.len() as int) =~= files@);
    }
    finish_archive(w)
}

/// The whole build pipeline on a source tree: select the files, then build
/// the blob. Success is owed whenever tar accepts every selected entry
/// name, and then the blob is exactly the compression of exactly the
/// selected entries, opening with the gzip magic bytes.
pub fn collect_sources(root: &FsNode) -> (r: Result<Vec<u8>, ArchiveError>)
    ensures
        (forall|k: int|
            0 <= k < spec_select(*root, Seq::<char>::empty()).len() ==> tar_name_ok(
                #[trigger] spec_select(*root, Seq::<char>::empty())[k].0,
            )) ==> r is Ok,
        r matches Ok(blob) ==> blob@ == gzip_bytes(
            tar_bytes(spec_select(*root, Seq::<char>::empty())),
        ) && blob@.len() >= 2 && blob@[0] == 0x1f && blob@[1] == 0x8b,
{
    let files = select_tree(root);
    let r = build_archive(&files);
    proof {
        let sel = spec_select(*root, Seq::<char>::empty());
        if forall|k: int| 0 <= k < sel.len() ==> tar_name_ok(#[trigger] sel[k].0) {
            assert forall|i: int| 0 <= i < files@.len() implies tar_name_ok(
                #[trigger] files@[i].name@,
            ) by {
                assert(entries_view(files@)[i] == files@[i]@);
                assert(sel[i].0 == files@[i].name@);
                assert(tar_name_ok(sel[i].0));
            }
        }
    }
    r
}

} // verus!
