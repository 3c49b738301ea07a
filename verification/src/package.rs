//! The in-memory package model.
//!
//! A [`Package`] maps unique archive keys to owned byte buffers and carries a
//! format version and a compression tag. It is created either from collected
//! files or by the container decoder, queried with [`Package::has`] and
//! [`Package::get_data`], mutated with [`Package::insert`] and
//! [`Package::remove`], and finally consumed by the encoder or an unpacker.

use vstd::prelude::*;

use crate::err::PathError;
use crate::key::{check_key, valid_key};

verus! {

/// The view of one entry: the key's characters and the content's bytes.
pub type EntryView = (Seq<char>, Seq<u8>);

/// The format version of a package: major, minor, tweak and patch components,
/// each one byte wide in the container.
#[derive(Debug, Clone, Copy)]
pub struct PackageVersion {
    pub ver: (u8, u8, u8, u8),
}

/// The compression tag of a package. The container reserves a two-byte field
/// for it, but only the uncompressed layout is implemented; every other bit
/// pattern is rejected by the decoder.
#[derive(Debug, Clone, Copy, PartialEq, Eq, Structural)]
pub enum Compression {
    /// Entry bytes are stored verbatim.
    Uncompressed,
}

/// One collected file: an archive key paired with the file's bytes.
#[derive(Debug)]
pub struct FileInfo {
    path: String,
    data: Vec<u8>,
}

impl View for FileInfo {
    type V = EntryView;

    closed spec fn view(&self) -> EntryView {
        (self.path@, self.data@)
    }
}

impl FileInfo {
    /// Pairs an archive key with the bytes stored under it.
    pub fn new(path: String, data: Vec<u8>) -> (r: FileInfo)
        ensures
            r@ == (path@, data@),
    {
        FileInfo { path, data }
    }

    /// The entry's archive key.
    pub fn path(&self) -> (r: &String)
        ensures
            r@ == self@.0,
    {
        &self.path
    }

    /// The entry's bytes.
    pub fn data(&self) -> (r: &Vec<u8>)
        ensures
            r@ == self@.1,
    {
        &self.data
    }
}

/// One record of the container's name table: where an entry's bytes start
/// within the payload, and how many bytes they span.
#[derive(Debug, Clone, Copy)]
pub struct DataInfo {
    pub index: u64,
    pub size: u64,
}

impl DataInfo {
    /// Pairs a payload offset with a byte count.
    pub fn new(index: u64, size: u64) -> (r: DataInfo)
        ensures
            r.index == index,
            r.size == size,
    {
        DataInfo { index, size }
    }

    /// The record's fixed-width wire form: the offset's eight little-endian
    /// bytes followed by the size's eight little-endian bytes.
    pub fn to_le_bytes(&self) -> (r: Vec<u8>)
        ensures
            r@ == vstd::bytes::spec_u64_to_le_bytes(self.index) + vstd::bytes::spec_u64_to_le_bytes(
                self.size,
            ),
            r@.len() == 16,
    {
        proof {
            vstd::bytes::lemma_auto_spec_u64_to_from_le_bytes();
        }
        let mut r = vstd::bytes::u64_to_le_bytes(self.index);
        let mut s = vstd::bytes::u64_to_le_bytes(self.size);
        r.append(&mut s);
        r
    }
}

/// The views of a sequence of entries.
pub open spec fn views_of(s: Seq<FileInfo>) -> Seq<EntryView> {
    s.map_values(|f: FileInfo| f@)
}

/// True when some entry is stored under `name`.
pub open spec fn contains_name(entries: Seq<EntryView>, name: Seq<char>) -> bool {
    exists|i: int| 0 <= i < entries.len() && (#[trigger] entries[i]).0 == name
}

/// The bytes stored under `name`, assuming some entry carries that key.
pub open spec fn entry_data(entries: Seq<EntryView>, name: Seq<char>) -> Seq<u8>
    recommends
        contains_name(entries, name),
{
    let i = choose|i: int| 0 <= i < entries.len() && (#[trigger] entries[i]).0 == name;
    entries[i].1
}

/// The key-to-content mapping that a sequence of entries represents.
pub open spec fn entries_map(entries: Seq<EntryView>) -> Map<Seq<char>, Seq<u8>> {
    Map::new(
        |name: Seq<char>| contains_name(entries, name),
        |name: Seq<char>| entry_data(entries, name),
    )
}

/// True when no two entries share a key.
pub open spec fn unique_names(entries: Seq<EntryView>) -> bool {
    forall|i: int, j: int|
        0 <= i < j < entries.len() ==> (#[trigger] entries[i]).0 != (#[trigger] entries[j]).0
}

/// The package invariant: keys are unique and every key passes the path
/// policy.
pub open spec fn wf_entries(entries: Seq<EntryView>) -> bool {
    &&& unique_names(entries)
    &&& forall|i: int| 0 <= i < entries.len() ==> valid_key((#[trigger] entries[i]).0)
}

/// The entries after storing `data` under `name`: the first entry already
/// carrying `name` is replaced in place, or a new entry is appended at the
/// end. The last insertion under a key therefore wins.
pub open spec fn spec_insert(entries: Seq<EntryView>, name: Seq<char>, data: Seq<u8>) -> Seq<
    EntryView,
>
    decreases entries.len(),
{
    if entries.len() == 0 {
        seq![(name, data)]
    } else if entries[0].0 == name {
        seq![(name, data)] + entries.drop_first()
    } else {
        seq![entries[0]] + spec_insert(entries.drop_first(), name, data)
    }
}

/// The entries after removing the first entry stored under `name`, or the
/// entries unchanged when no entry carries that key.
pub open spec fn spec_remove(entries: Seq<EntryView>, name: Seq<char>) -> Seq<EntryView>
    decreases entries.len(),
{
    if entries.len() == 0 {
        entries
    } else if entries[0].0 == name {
        entries.drop_first()
    } else {
        seq![entries[0]] + spec_remove(entries.drop_first(), name)
    }
}

/// The result of building a package from collected files: the fold of
/// [`spec_insert`] over the files in order, or the path-policy error of the
/// first invalid key.
pub open spec fn spec_collect(files: Seq<EntryView>, acc: Seq<EntryView>) -> Result<
    Seq<EntryView>,
    PathError,
>
    decreases files.len(),
{
    if files.len() == 0 {
        Ok(acc)
    } else {
        match check_key(files[0].0) {
            Some(e) => Err(e),
            None => spec_collect(files.drop_first(), spec_insert(acc, files[0].0, files[0].1)),
        }
    }
}

/// When the first entry carrying `name` stands at position `k`, insertion is
/// replacement at `k`.
pub proof fn lemma_spec_insert_at(entries: Seq<EntryView>, name: Seq<char>, data: Seq<u8>, k: int)
    requires
        0 <= k < entries.len(),
        entries[k].0 == name,
        forall|l: int| 0 <= l < k ==> (#[trigger] entries[l]).0 != name,
    ensures
        spec_insert(entries, name, data) == entries.update(k, (name, data)),
    decreases k,
{
    if k == 0 {
        assert(spec_insert(entries, name, data) =~= entries.update(0, (name, data)));
    } else {
        assert(entries[0].0 != name);
        assert(forall|l: int|
            0 <= l < k - 1 ==> (#[trigger] entries.drop_first()[l]).0 == entries[l + 1].0);
        lemma_spec_insert_at(entries.drop_first(), name, data, k - 1);
        assert(spec_insert(entries, name, data) =~= entries.update(k, (name, data)));
    }
}

/// When no entry carries `name`, insertion appends a new entry.
pub proof fn lemma_spec_insert_absent(entries: Seq<EntryView>, name: Seq<char>, data: Seq<u8>)
    requires
        !contains_name(entries, name),
    ensures
        spec_insert(entries, name, data) == entries.push((name, data)),
    decreases entries.len(),
{
    if entries.len() == 0 {
        assert(spec_insert(entries, name, data) =~= entries.push((name, data)));
    } else {
        assert(entries[0].0 != name);
        assert(!contains_name(entries.drop_first(), name)) by {
            if contains_name(entries.drop_first(), name) {
                let i = choose|i: int|
                    0 <= i < entries.drop_first().len() && (#[trigger] entries.drop_first()[i]).0
                        == name;
                assert((entries[i + 1]).0 == name);
                assert(false);
            }
        }
        lemma_spec_insert_absent(entries.drop_first(), name, data);
        assert(spec_insert(entries, name, data) =~= entries.push((name, data)));
    }
}

/// Insertion of a valid key preserves the package invariant.
pub proof fn lemma_spec_insert_wf(entries: Seq<EntryView>, name: Seq<char>, data: Seq<u8>)
    requires
        wf_entries(entries),
        valid_key(name),
    ensures
        wf_entries(spec_insert(entries, name, data)),
{
    let post = spec_insert(entries, name, data);
    if contains_name(entries, name) {
        let k = choose|k: int| 0 <= k < entries.len() && (#[trigger] entries[k]).0 == name;
        assert(forall|l: int| 0 <= l < k ==> (#[trigger] entries[l]).0 != name);
        lemma_spec_insert_at(entries, name, data, k);
        assert(forall|i: int| 0 <= i < post.len() ==> (#[trigger] post[i]).0 == entries[i].0);
    } else {
        lemma_spec_insert_absent(entries, name, data);
    }
}

/// Removal preserves the package invariant.
pub proof fn lemma_spec_remove_wf(entries: Seq<EntryView>, name: Seq<char>, k: int)
    requires
        wf_entries(entries),
        0 <= k < entries.len(),
    ensures
        wf_entries(entries.remove(k)),
{
    let post = entries.remove(k);
    assert(forall|i: int|
        0 <= i < post.len() ==> #[trigger] post[i] == entries[if i < k {
            i
        } else {
            i + 1
        }]);
}

/// When the first entry carrying `name` stands at position `k`, removal
/// deletes exactly that position.
pub proof fn lemma_spec_remove_at(entries: Seq<EntryView>, name: Seq<char>, k: int)
    requires
        0 <= k < entries.len(),
        entries[k].0 == name,
        forall|l: int| 0 <= l < k ==> (#[trigger] entries[l]).0 != name,
    ensures
        spec_remove(entries, name) == entries.remove(k),
    decreases k,
{
    if k == 0 {
        assert(spec_remove(entries, name) =~= entries.remove(0));
    } else {
        assert(entries[0].0 != name);
        assert(forall|l: int|
            0 <= l < k - 1 ==> (#[trigger] entries.drop_first()[l]).0 == entries[l + 1].0);
        lemma_spec_remove_at(entries.drop_first(), name, k - 1);
        assert(spec_remove(entries, name) =~= entries.remove(k));
    }
}

/// When no entry carries `name`, removal changes nothing.
pub proof fn lemma_spec_remove_absent(entries: Seq<EntryView>, name: Seq<char>)
    requires
        !contains_name(entries, name),
    ensures
        spec_remove(entries, name) == entries,
    decreases entries.len(),
{
    if entries.len() == 0 {
    } else {
        assert(entries[0].0 != name);
        assert(!contains_name(entries.drop_first(), name)) by {
            if contains_name(entries.drop_first(), name) {
                let i = choose|i: int|
                    0 <= i < entries.drop_first().len() && (#[trigger] entries.drop_first()[i]).0
                        == name;
                assert((entries[i + 1]).0 == name);
                assert(false);
            }
        }
        lemma_spec_remove_absent(entries.drop_first(), name);
        assert(spec_remove(entries, name) =~= entries);
    }
}

/// Presence after insertion: storing `data` under `name` makes the package's
/// mapping carry exactly `name` to `data` on top of what it carried before,
/// so a later lookup of `name` finds `data`, and no other key is disturbed.
pub proof fn lemma_insert_presence(entries: Seq<EntryView>, name: Seq<char>, data: Seq<u8>)
    requires
        unique_names(entries),
    ensures
        unique_names(spec_insert(entries, name, data)),
        entries_map(spec_insert(entries, name, data)) == entries_map(entries).insert(name, data),
{
    let post = spec_insert(entries, name, data);
    let n = entries.len() as int;
    if contains_name(entries, name) {
        let k = choose|k: int| 0 <= k < entries.len() && (#[trigger] entries[k]).0 == name;
        assert(forall|l: int| 0 <= l < k ==> (#[trigger] entries[l]).0 != name);
        lemma_spec_insert_at(entries, name, data, k);
        assert(forall|i: int|
            0 <= i < n ==> (#[trigger] post[i]).0 == entries[i].0 && (i != k ==> post[i]
                == entries[i]));
        assert(unique_names(post));
        assert forall|q: Seq<char>| true implies #[trigger] contains_name(post, q) == (q == name
            || contains_name(entries, q)) by {
            if contains_name(post, q) {
                let i = choose|i: int| 0 <= i < post.len() && (#[trigger] post[i]).0 == q;
                assert(entries[i].0 == q);
            }
            if q == name || contains_name(entries, q) {
                if q == name {
                    assert(post[k].0 == name);
                } else {
                    let i = choose|i: int|
                        0 <= i < entries.len() && (#[trigger] entries[i]).0 == q;
                    assert(post[i].0 == q);
                }
            }
        }
        assert(entry_data(post, name) == data) by {
            assert(contains_name(post, name));
            let i = choose|i: int| 0 <= i < post.len() && (#[trigger] post[i]).0 == name;
            assert(i == k);
        }
        assert forall|q: Seq<char>| q != name && contains_name(entries, q) implies entry_data(
            post,
            q,
        ) == entry_data(entries, q) by {
            assert(contains_name(post, q));
            let i1 = choose|i: int| 0 <= i < entries.len() && (#[trigger] entries[i]).0 == q;
            let i2 = choose|i: int| 0 <= i < post.len() && (#[trigger] post[i]).0 == q;
            assert(entries[i2].0 == q);
            assert(i1 == i2);
            assert(i1 != k);
        }
    } else {
        lemma_spec_insert_absent(entries, name, data);
        assert(forall|i: int| 0 <= i < n ==> #[trigger] post[i] == entries[i]);
        assert(post[n].0 == name);
        assert forall|i: int, j: int| 0 <= i < j < post.len() implies (#[trigger] post[i]).0 != (
        #[trigger] post[j]).0 by {
            if j < n {
                assert(entries[i].0 != entries[j].0);
            } else {
                assert(entries[i].0 != name);
            }
        }
        assert forall|q: Seq<char>| true implies #[trigger] contains_name(post, q) == (q == name
            || contains_name(entries, q)) by {
            if contains_name(post, q) {
                let i = choose|i: int| 0 <= i < post.len() && (#[trigger] post[i]).0 == q;
                if i < n {
                    assert(entries[i].0 == q);
                }
            }
            if q == name {
                assert(post[n].0 == name);
            } else if contains_name(entries, q) {
                let i = choose|i: int| 0 <= i < entries.len() && (#[trigger] entries[i]).0 == q;
                assert(post[i].0 == q);
            }
        }
        assert(entry_data(post, name) == data) by {
            assert(contains_name(post, name));
            let i = choose|i: int| 0 <= i < post.len() && (#[trigger] post[i]).0 == name;
            assert(i == n);
        }
        assert forall|q: Seq<char>| q != name && contains_name(entries, q) implies entry_data(
            post,
            q,
        ) == entry_data(entries, q) by {
            assert(contains_name(post, q));
            let i1 = choose|i: int| 0 <= i < entries.len() && (#[trigger] entries[i]).0 == q;
            let i2 = choose|i: int| 0 <= i < post.len() && (#[trigger] post[i]).0 == q;
            assert(i2 != n);
            assert(entries[i2].0 == q);
            assert(i1 == i2);
        }
    }
    assert(entries_map(post) =~= entries_map(entries).insert(name, data));
}

/// Absence after removal: removing `name` takes exactly that key out of the
/// package's mapping, so a later lookup of `name` finds nothing, and no other
/// key is disturbed.
pub proof fn lemma_remove_absence(entries: Seq<EntryView>, name: Seq<char>)
    requires
        unique_names(entries),
    ensures
        unique_names(spec_remove(entries, name)),
        entries_map(spec_remove(entries, name)) == entries_map(entries).remove(name),
{
    let post = spec_remove(entries, name);
    if contains_name(entries, name) {
        let k = choose|k: int| 0 <= k < entries.len() && (#[trigger] entries[k]).0 == name;
        assert(forall|l: int| 0 <= l < k ==> (#[trigger] entries[l]).0 != name);
        lemma_spec_remove_at(entries, name, k);
        assert(forall|i: int|
            0 <= i < post.len() ==> #[trigger] post[i] == entries[if i < k {
                i
            } else {
                i + 1
            }]);
        assert(unique_names(post));
        assert forall|q: Seq<char>| true implies #[trigger] contains_name(post, q) == (q != name
            && contains_name(entries, q)) by {
            if contains_name(post, q) {
                let i = choose|i: int| 0 <= i < post.len() && (#[trigger] post[i]).0 == q;
                if i < k {
                    assert(entries[i].0 == q);
                    assert(q != name);
                } else {
                    assert(entries[i + 1].0 == q);
                    assert(q != name);
                }
            }
            if q != name && contains_name(entries, q) {
                let i = choose|i: int| 0 <= i < entries.len() && (#[trigger] entries[i]).0 == q;
                assert(i != k);
                if i < k {
                    assert(post[i].0 == q);
                } else {
                    assert(post[i - 1].0 == q);
                }
            }
        }
        assert forall|q: Seq<char>| q != name && contains_name(entries, q) implies entry_data(
            post,
            q,
        ) == entry_data(entries, q) by {
            assert(contains_name(post, q));
            let i1 = choose|i: int| 0 <= i < entries.len() && (#[trigger] entries[i]).0 == q;
            let i2 = choose|i: int| 0 <= i < post.len() && (#[trigger] post[i]).0 == q;
            if i2 < k {
                assert(entries[i2].0 == q);
                assert(i1 == i2);
            } else {
                assert(entries[i2 + 1].0 == q);
                assert(i1 == i2 + 1);
            }
        }
    } else {
        lemma_spec_remove_absent(entries, name);
    }
    assert(entries_map(post) =~= entries_map(entries).remove(name));
}

/// The mathematical content of a [`Package`]: its entries in storage order,
/// its version, and its compression tag.
pub ghost struct PackageView {
    pub entries: Seq<EntryView>,
    pub version: PackageVersion,
    pub compression: Compression,
}

/// The package model: a mapping of unique archive keys to owned byte buffers,
/// stamped with a format version and a compression tag. Entries keep their
/// insertion order, so encoding a given package is deterministic.
#[derive(Debug)]
pub struct Package {
    entries: Vec<FileInfo>,
    version: PackageVersion,
    compression: Compression,
}

impl View for Package {
    type V = PackageView;

    closed spec fn view(&self) -> PackageView {
        PackageView {
            entries: views_of(self.entries@),
            version: self.version,
            compression: self.compression,
        }
    }
}

impl Package {
    /// The package invariant; every constructor of this library establishes
    /// it and every method preserves it.
    pub open spec fn wf(&self) -> bool {
        wf_entries(self@.entries)
    }

    /// The key-to-content mapping this package represents.
    pub open spec fn as_map(&self) -> Map<Seq<char>, Seq<u8>> {
        entries_map(self@.entries)
    }

    /// The package's format version.
    pub fn version(&self) -> (r: PackageVersion)
        ensures
            r == self@.version,
    {
        self.version
    }

    /// The package's compression tag.
    pub fn compression(&self) -> (r: Compression)
        ensures
            r == self@.compression,
    {
        self.compression
    }

    /// The package's entries, in storage order.
    pub(crate) fn raw_entries(&self) -> (r: &Vec<FileInfo>)
        ensures
            views_of(r@) == self@.entries,
    {
        &self.entries
    }

    /// Assembles a package directly from its parts; the caller answers for
    /// the invariant of the entry list.
    pub(crate) fn raw_package(
        entries: Vec<FileInfo>,
        version: PackageVersion,
        compression: Compression,
    ) -> (r: Package)
        ensures
            r@.entries == views_of(entries@),
            r@.version == version,
            r@.compression == compression,
    {
        Package { entries, version, compression }
    }

    /// Finds the position of the first entry stored under `name`.
    fn find_entry(&self, name: &String) -> (r: Option<usize>)
        ensures
            match r {
                Some(k) => {
                    &&& 0 <= k < self@.entries.len()
                    &&& self@.entries[k as int].0 == name@
                    &&& forall|l: int| 0 <= l < k ==> (#[trigger] self@.entries[l]).0 != name@
                },
                None => !contains_name(self@.entries, name@),
            },
    {
        let n = self.entries.len();
        let mut k: usize = 0;
        while k < n
            invariant
                n == self@.entries.len(),
                k <= n,
                forall|l: int| 0 <= l < k ==> (#[trigger] self@.entries[l]).0 != name@,
            decreases n - k,
        {
            if self.entries[k].path == *name {
                return Some(k);
            }
            k = k + 1;
        }
        None
    }

    /// True exactly when some entry is stored under `name`.
    pub fn has(&self, name: &str) -> (r: bool)
        ensures
            r == self.as_map().contains_key(name@),
    {
        let key = name.to_owned();
        self.find_entry(&key).is_some()
    }

    /// A copy of the bytes stored under `name`, or `None` when no entry
    /// carries that key.
    pub fn get_data(&self, name: &str) -> (r: Option<Vec<u8>>)
        requires
            self.wf(),
        ensures
            match r {
                Some(d) => self.as_map().contains_key(name@) && d@ == self.as_map()[name@],
                None => !self.as_map().contains_key(name@),
            },
    {
        let key = name.to_owned();
        match self.find_entry(&key) {
            Some(k) => {
                proof {
                    let i = choose|i: int|
                        0 <= i < self@.entries.len() && (#[trigger] self@.entries[i]).0 == name@;
                    assert(i == k as int);
                }
                Some(vstd::slice::slice_to_vec(self.entries[k].data.as_slice()))
            },
            None => None,
        }
    }

    /// A borrowed view of the bytes stored under `name`, or `None` when no
    /// entry carries that key.
    pub fn get_data_ref<'a>(&'a self, name: &str) -> (r: Option<&'a [u8]>)
        requires
            self.wf(),
        ensures
            match r {
                Some(d) => self.as_map().contains_key(name@) && d@ == self.as_map()[name@],
                None => !self.as_map().contains_key(name@),
            },
    {
        let key = name.to_owned();
        match self.find_entry(&key) {
            Some(k) => {
                proof {
                    let i = choose|i: int|
                        0 <= i < self@.entries.len() && (#[trigger] self@.entries[i]).0 == name@;
                    assert(i == k as int);
                }
                Some(self.entries[k].data.as_slice())
            },
            None => None,
        }
    }

    /// Stores `data` under `name`, overwriting the entry that already carried
    /// that key, or rejects the key with the path policy's reason and leaves
    /// the package unchanged.
    pub fn insert(&mut self, name: &str, data: Vec<u8>) -> (r: Result<(), PathError>)
        requires
            old(self).wf(),
        ensures
            final(self).wf(),
            final(self)@.version == old(self)@.version,
            final(self)@.compression == old(self)@.compression,
            match r {
                Ok(_) => check_key(name@) is None && final(self)@.entries == spec_insert(
                    old(self)@.entries,
                    name@,
                    data@,
                ),
                Err(e) => check_key(name@) == Some(e) && final(self)@ == old(self)@,
            },
    {
        match crate::key::validate_key(name) {
            Some(e) => Err(e),
            None => {
                let key = name.to_owned();
                insert_entry(&mut self.entries, key, data);
                proof {
                    lemma_spec_insert_wf(old(self)@.entries, name@, data@);
                }
                Ok(())
            },
        }
    }

    /// Removes the entry stored under `name`; a key that is absent is no
    /// error, the package is simply left unchanged.
    pub fn remove(&mut self, name: &str)
        requires
            old(self).wf(),
        ensures
            final(self).wf(),
            final(self)@.version == old(self)@.version,
            final(self)@.compression == old(self)@.compression,
            final(self)@.entries == spec_remove(old(self)@.entries, name@),
    {
        let key = name.to_owned();
        match self.find_entry(&key) {
            Some(k) => {
                self.entries.remove(k);
                proof {
                    lemma_spec_remove_at(old(self)@.entries, name@, k as int);
                    lemma_spec_remove_wf(old(self)@.entries, name@, k as int);
                    assert(views_of(self.entries@) =~= old(self)@.entries.remove(k as int));
                }
            },
            None => {
                proof {
                    lemma_spec_remove_absent(old(self)@.entries, name@);
                }
            },
        }
    }

    /// A snapshot of every key, in the package's storage order.
    pub fn get_names(&self) -> (r: Vec<String>)
        ensures
            r@.len() == self@.entries.len(),
            forall|i: int| 0 <= i < r@.len() ==> (#[trigger] r@[i])@ == self@.entries[i].0,
    {
        let n = self.entries.len();
        let mut r: Vec<String> = Vec::new();
        let mut k: usize = 0;
        while k < n
            invariant
                n == self@.entries.len(),
                k <= n,
                r@.len() == k,
                forall|i: int| 0 <= i < k ==> (#[trigger] r@[i])@ == self@.entries[i].0,
            decreases n - k,
        {
            r.push(self.entries[k].path.clone());
            k = k + 1;
        }
        r
    }

    /// Builds a package from collected files: each file is inserted in turn,
    /// later files overwriting earlier ones that share a key. The first file
    /// whose key violates the path policy fails the whole build with that
    /// key's rejection reason.
    #[verifier::loop_isolation(false)]
    pub fn from_file_info(
        files: Vec<FileInfo>,
        version: PackageVersion,
        compression: Compression,
    ) -> (r: Result<Package, PathError>)
        ensures
            match r {
                Ok(p) => {
                    &&& spec_collect(views_of(files@), Seq::empty()) == Ok::<_, PathError>(
                        p@.entries,
                    )
                    &&& p.wf()
                    &&& p@.version == version
                    &&& p@.compression == compression
                },
                Err(e) => spec_collect(views_of(files@), Seq::empty()) == Err::<
                    Seq<EntryView>,
                    _,
                >(e),
            },
    {
        let ghost orig = views_of(files@);
        let mut files = files;
        let mut entries: Vec<FileInfo> = Vec::new();
        proof {
            assert(views_of(entries@) =~= Seq::<EntryView>::empty());
        }
        while files.len() > 0
            invariant
                wf_entries(views_of(entries@)),
                spec_collect(orig, Seq::empty()) == spec_collect(
                    views_of(files@),
                    views_of(entries@),
                ),
            decreases files@.len(),
        {
            let ghost pre_files = views_of(files@);
            let ghost pre_entries = views_of(entries@);
            let f = files.remove(0);
            proof {
                assert(views_of(files@) =~= pre_files.drop_first());
                assert(f@ == pre_files[0]);
            }
            let FileInfo { path, data } = f;
            match crate::key::validate_key(path.as_str()) {
                Some(e) => {
                    proof {
                        assert(spec_collect(pre_files, pre_entries) == Err::<Seq<EntryView>, _>(
                            e,
                        ));
                    }
                    return Err(e);
                },
                None => {
                    proof {
                        lemma_spec_insert_wf(pre_entries, path@, data@);
                    }
                    insert_entry(&mut entries, path, data);
                },
            }
        }
        Ok(Package { entries, version, compression })
    }
}

/// Stores `data` under `name` in a raw entry list: the first entry already
/// carrying `name` is replaced in place, otherwise a new entry is appended.
#[verifier::loop_isolation(false)]
pub(crate) fn insert_entry(entries: &mut Vec<FileInfo>, name: String, data: Vec<u8>)
    ensures
        views_of(final(entries)@) == spec_insert(views_of(old(entries)@), name@, data@),
{
    let ghost pre = views_of(entries@);
    let n = entries.len();
    let mut k: usize = 0;
    while k < n
        invariant
            n == entries@.len(),
            k <= n,
            entries@ == old(entries)@,
            forall|l: int| 0 <= l < k ==> (#[trigger] views_of(entries@)[l]).0 != name@,
        decreases n - k,
    {
        if entries[k].path == name {
            let ghost key = name@;
            let ghost content = data@;
            entries.remove(k);
            entries.insert(k, FileInfo::new(name, data));
            proof {
                lemma_spec_insert_at(pre, key, content, k as int);
                assert(views_of(entries@) =~= pre.update(k as int, (key, content)));
            }
            return ;
        }
        k = k + 1;
    }
    entries.push(FileInfo::new(name, data));
    proof {
        assert(!contains_name(pre, name@));
        lemma_spec_insert_absent(pre, name@, data@);
        assert(views_of(entries@) =~= pre.push((name@, data@)));
    }
}

} // verus!
