//! The patches that are applied to a codebase before it is rewritten, kept in a `tar`+`zstd`
//! archive.

use std::io::Read;
use vstd::prelude::*;

use crate::text::copy;
use crate::text::ends_with;
use crate::text::is_before;
use crate::text::precedes;
use crate::text::precedes_is_asymmetric;
use crate::text::precedes_is_total;
use crate::text::precedes_is_transitive;

verus! {

/// One entry of an archive.
#[derive(Debug)]
pub struct ArchiveEntry {
    /// Its path in the archive.
    pub name: String,
    /// Whether it is a regular file.
    pub is_file: bool,
    pub contents: Vec<u8>,
}

/// One entry of an archive, as plain values.
pub struct EntryView {
    pub name: Seq<char>,
    pub is_file: bool,
    pub contents: Seq<u8>,
}

impl View for ArchiveEntry {
    type V = EntryView;

    open spec fn view(&self) -> EntryView {
        EntryView { name: self.name@, is_file: self.is_file, contents: self.contents@ }
    }
}

/// Some entries, as plain values.
pub open spec fn entry_views(entries: Seq<ArchiveEntry>) -> Seq<EntryView> {
    Seq::new(entries.len(), |i: int| entries[i]@)
}

/// What some zstd-compressed bytes decompress to; nothing if they are not valid.
pub uninterp spec fn zstd_decoded(bytes: Seq<u8>) -> Option<Seq<u8>>;

/// Calls `zstd::decode_all`. The claim is that the decompressed bytes, or that there is an error,
/// depend on the compressed bytes alone; nothing is said of the message of an error.
#[verifier::external_body]
fn decompress(bytes: &[u8]) -> (r: Result<Vec<u8>, String>)
    ensures
        match r {
            Ok(decoded) => zstd_decoded(bytes@) == Some(decoded@),
            Err(_) => zstd_decoded(bytes@) is None,
        },
{
    zstd::decode_all(bytes).map_err(|error| error.to_string())
}

/// The entries of a tar archive, in order; nothing if it is not valid.
pub uninterp spec fn tar_entries(bytes: Seq<u8>) -> Option<Seq<EntryView>>;

/// Calls `tar::Archive::entries` and reads each entry: its path (`Entry::path_bytes`, decoded lossily),
/// whether it is a regular file, and its contents. The claim is that the entries, or that there is an error, depend on the bytes
/// alone; nothing is said of the message of an error.
#[verifier::external_body]
fn unpack(bytes: &[u8]) -> (r: Result<Vec<ArchiveEntry>, String>)
    ensures
        match r {
            Ok(entries) => tar_entries(bytes@) == Some(entry_views(entries@)),
            Err(_) => tar_entries(bytes@) is None,
        },
{
    let mut archive = tar::Archive::new(bytes);
    let entries = archive.entries().map_err(|error| error.to_string())?;
    entries.map(|entry| {
        let mut entry = entry?;
        let mut contents = Vec::new();
        entry.read_to_end(&mut contents)?;
        let name = String::from_utf8_lossy(&entry.path_bytes()).into_owned();
        Ok(ArchiveEntry { name, is_file: entry.header().entry_type().is_file(), contents })
    }).collect::<std::io::Result<_>>().map_err(|error| error.to_string())
}

/// One `.patch` file's contents, together with the path it lives at (used to identify it in error
/// messages), e.g. `generic/course-lib.patch`.
#[derive(Debug)]
pub struct Patch {
    pub name: String,
    pub contents: Vec<u8>,
}

/// One patch, as plain values.
pub struct PatchView {
    pub name: Seq<char>,
    pub contents: Seq<u8>,
}

impl View for Patch {
    type V = PatchView;

    open spec fn view(&self) -> PatchView {
        PatchView { name: self.name@, contents: self.contents@ }
    }
}

/// Some patches, as plain values.
pub open spec fn patch_views(patches: Seq<Patch>) -> Seq<PatchView> {
    Seq::new(patches.len(), |i: int| patches[i]@)
}

/// Whether an entry of the archive is a patch: a regular file with a name that ends in '.patch'.
pub open spec fn is_patch(entry: EntryView) -> bool {
    entry.is_file && ".patch"@.is_suffix_of(entry.name)
}

/// A patch put at its place among patches in the order of their names, behind those of the same
/// name.
pub open spec fn put_in_order(patches: Seq<PatchView>, patch: PatchView) -> Seq<PatchView>
    decreases patches.len(),
{
    if patches.len() > 0 && precedes(patch.name, patches.last().name) {
        put_in_order(patches.drop_last(), patch).push(patches.last())
    } else {
        patches.push(patch)
    }
}

/// The patches among some entries, in the order of their names.
pub open spec fn patches_in(entries: Seq<EntryView>) -> Seq<PatchView>
    decreases entries.len(),
{
    if entries.len() == 0 {
        Seq::<PatchView>::empty()
    } else {
        let before = patches_in(entries.drop_last());
        let entry = entries.last();
        if is_patch(entry) {
            put_in_order(before, PatchView { name: entry.name, contents: entry.contents })
        } else {
            before
        }
    }
}

/// Puts a patch at its place.
fn insert_in_order(patches: &mut Vec<Patch>, patch: Patch)
    ensures
        patch_views(final(patches)@) == put_in_order(patch_views(old(patches)@), patch@),
{
    let ghost before = patch_views(patches@);
    let ghost had = patches@;
    let ghost view = patch@;
    let mut place: usize = patches.len();
    assert(before.take(place as int) =~= before);
    assert(put_in_order(before, view) =~= put_in_order(before.take(place as int), view) + before.skip(place as int));
    while place > 0 && is_before(&patch.name, &patches[place - 1].name)
        invariant
            place <= patches.len(),
            patches@ == had,
            before == patch_views(patches@),
            view == patch@,
            put_in_order(before, view) == put_in_order(before.take(place as int), view) + before.skip(place as int),
        decreases place,
    {
        let ghost front = before.take(place as int);
        assert(front.last() == patches@[place - 1]@);
        assert(front.drop_last() =~= before.take(place - 1));
        assert(put_in_order(front, view) + before.skip(place as int) =~= put_in_order(before.take(place - 1), view)
            + before.skip(place - 1));
        place -= 1;
    }
    patches.insert(place, patch);
    assert(patch_views(patches@) =~= before.take(place as int).push(view) + before.skip(place as int));
}

/// The `.patch` files among some entries, in the order of their names, so that applying them in
/// this order is reproducible run to run. Other files are skipped.
pub fn select(entries: &Vec<ArchiveEntry>) -> (patches: Vec<Patch>)
    ensures
        patch_views(patches@) == patches_in(entry_views(entries@)),
{
    let ghost all = entry_views(entries@);
    let mut patches: Vec<Patch> = Vec::new();
    let mut i: usize = 0;
    assert(patch_views(patches@) =~= patches_in(all.take(0)));
    while i < entries.len()
        invariant
            i <= entries.len(),
            all == entry_views(entries@),
            patch_views(patches@) == patches_in(all.take(i as int)),
        decreases entries.len() - i,
    {
        let entry = &entries[i];
        assert(all.take(i + 1).drop_last() =~= all.take(i as int));
        assert(all.take(i + 1).last() == entry@);
        if entry.is_file && ends_with(&entry.name, ".patch") {
            let contents = vstd::slice::slice_to_vec(entry.contents.as_slice());
            insert_in_order(&mut patches, Patch { name: copy(&entry.name), contents });
        }
        i += 1;
    }
    assert(all.take(i as int) =~= all);
    patches
}

/// The entries of an archive; nothing if it is not valid.
pub open spec fn archive_entries(archive: Seq<u8>) -> Option<Seq<EntryView>> {
    match zstd_decoded(archive) {
        Some(bytes) => tar_entries(bytes),
        None => None,
    }
}

/// Every `.patch` file in the archive (across subfolders), in the order of their names.
pub fn all(archive: &[u8]) -> (r: Result<Vec<Patch>, String>)
    ensures
        r is Ok == archive_entries(archive@) is Some,
        r matches Ok(patches) ==> patch_views(patches@) == patches_in(archive_entries(archive@)->0),
{
    match decompress(archive) {
        Ok(bytes) => match unpack(bytes.as_slice()) {
            Ok(entries) => Ok(select(&entries)),
            Err(error) => Err(error),
        },
        Err(error) => Err(error),
    }
}

/// Whether each of some patches has a name that does not come after those behind it.
pub open spec fn in_name_order(patches: Seq<PatchView>) -> bool {
    forall|i: int, j: int|
        0 <= i < j < patches.len() ==> !precedes((#[trigger] patches[j]).name, (#[trigger] patches[i]).name)
}

proof fn put_in_order_keeps_order(patches: Seq<PatchView>, patch: PatchView)
    requires
        in_name_order(patches),
    ensures
        in_name_order(put_in_order(patches, patch)),
        put_in_order(patches, patch).len() == patches.len() + 1,
        forall|x: PatchView| #[trigger]
            put_in_order(patches, patch).contains(x) == (x == patch || patches.contains(x)),
    decreases patches.len(),
{
    let after = put_in_order(patches, patch);
    if patches.len() > 0 && precedes(patch.name, patches.last().name) {
        let front = patches.drop_last();
        let last = patches.last();
        assert forall|i: int, j: int| 0 <= i < j < front.len() implies !precedes(
            (#[trigger] front[j]).name,
            (#[trigger] front[i]).name,
        ) by {
            assert(!precedes(patches[j].name, patches[i].name));
        }
        put_in_order_keeps_order(front, patch);
        let inner = put_in_order(front, patch);
        assert forall|i: int| 0 <= i < inner.len() implies !precedes(last.name, (#[trigger] inner[i]).name) by {
            assert(inner.contains(inner[i]));
            if inner[i] == patch {
                precedes_is_asymmetric(patch.name, last.name);
            } else {
                let k = choose|k: int| 0 <= k < front.len() && front[k] == inner[i];
                assert(!precedes(patches[patches.len() - 1].name, patches[k].name));
            }
        }
        assert forall|x: PatchView| #[trigger] after.contains(x) == (x == patch || patches.contains(x)) by {
            if after.contains(x) {
                let k = choose|k: int| 0 <= k < after.len() && after[k] == x;
                if k < inner.len() {
                    assert(inner.contains(inner[k]));
                    if x != patch {
                        let m = choose|m: int| 0 <= m < front.len() && front[m] == x;
                        assert(patches[m] == x);
                    }
                } else {
                    assert(patches[patches.len() - 1] == x);
                }
            }
            if x == patch || patches.contains(x) {
                if x == last && x != patch {
                    assert(after[inner.len() as int] == x);
                } else {
                    if x != patch {
                        let m = choose|m: int| 0 <= m < patches.len() && patches[m] == x;
                        assert(front[m] == x);
                    }
                    assert(inner.contains(x));
                    let k = choose|k: int| 0 <= k < inner.len() && inner[k] == x;
                    assert(after[k] == x);
                }
            }
        }
    } else {
        assert forall|i: int, j: int| 0 <= i < j < after.len() implies !precedes(
            (#[trigger] after[j]).name,
            (#[trigger] after[i]).name,
        ) by {
            if j < patches.len() {
                assert(!precedes(patches[j].name, patches[i].name));
            } else if i < patches.len() - 1 {
                assert(!precedes(patches[patches.len() - 1].name, patches[i].name));
                if precedes(patch.name, patches[i].name) {
                    precedes_is_total(patches.last().name, patch.name);
                    if precedes(patches.last().name, patch.name) {
                        precedes_is_transitive(patches.last().name, patch.name, patches[i].name);
                    }
                }
            }
        }
        assert forall|x: PatchView| #[trigger] after.contains(x) == (x == patch || patches.contains(x)) by {
            if after.contains(x) && x != patch {
                let k = choose|k: int| 0 <= k < after.len() && after[k] == x;
                assert(patches[k] == x);
            }
            if x == patch {
                assert(after[patches.len() as int] == x);
            } else if patches.contains(x) {
                let k = choose|k: int| 0 <= k < patches.len() && patches[k] == x;
                assert(after[k] == x);
            }
        }
    }
}

/// The patches come in the order of their names, and are those of the archive, no more and no less.
pub proof fn patches_are_ordered_and_complete(entries: Seq<EntryView>)
    ensures
        in_name_order(patches_in(entries)),
        forall|patch: PatchView| #[trigger]
            patches_in(entries).contains(patch) == exists|i: int|
                0 <= i < entries.len() && is_patch(#[trigger] entries[i]) && entries[i].name == patch.name
                    && entries[i].contents == patch.contents,
    decreases entries.len(),
{
    if entries.len() > 0 {
        let front = entries.drop_last();
        let last = entries.last();
        patches_are_ordered_and_complete(front);
        if is_patch(last) {
            put_in_order_keeps_order(
                patches_in(front),
                PatchView { name: last.name, contents: last.contents },
            );
        }
        assert forall|patch: PatchView| #[trigger] patches_in(entries).contains(patch) == exists|i: int|
            0 <= i < entries.len() && is_patch(#[trigger] entries[i]) && entries[i].name == patch.name
                && entries[i].contents == patch.contents by {
            if patches_in(front).contains(patch) {
                let i = choose|i: int|
                    0 <= i < front.len() && is_patch(#[trigger] front[i]) && front[i].name == patch.name
                        && front[i].contents == patch.contents;
                assert(is_patch(entries[i]));
            }
            if exists|i: int|
                0 <= i < entries.len() && is_patch(#[trigger] entries[i]) && entries[i].name == patch.name
                    && entries[i].contents == patch.contents {
                let i = choose|i: int|
                    0 <= i < entries.len() && is_patch(#[trigger] entries[i]) && entries[i].name == patch.name
                        && entries[i].contents == patch.contents;
                if i < front.len() {
                    assert(is_patch(front[i]));
                    assert(patches_in(front).contains(patch));
                } else {
                    assert(patch == (PatchView { name: last.name, contents: last.contents }));
                }
            }
            if is_patch(last) && patch == (PatchView { name: last.name, contents: last.contents }) {
                assert(is_patch(entries[entries.len() - 1]));
            }
        }
    }
}

} // verus!
