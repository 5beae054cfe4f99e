//! Versioned results and the record of what was read from them.
//!
//! A pass that reads the result of another pass remembers, for every segment
//! it works on, which entries it looked at and in which version.  When the
//! pass is run again it can skip the segment if every such entry is still in
//! that version.  A version changes only when what the entry shows changes:
//! running a pass again over unchanged sources changes no version.

use vstd::prelude::*;
use crate::segment::StatementAddress;
use crate::segment_order::SegmentId;
use crate::source::{bytes_equal, copy_bytes};

verus! {

/// A counter that is raised whenever what an entry shows changes.
pub type Version = u64;

/// An entry of a versioned index: a key, the statement it stands for, if it
/// stands for one at present, and the version of the entry.
pub struct Entry {
    key: Vec<u8>,
    address: Option<StatementAddress>,
    version: Version,
}

/// What a lookup shows: the statement that the key stands for, if any, and
/// the version of the entry; version 0 where the key was never entered.
pub struct Shown {
    pub address: Option<StatementAddress>,
    pub version: Version,
}

/// An index from keys to statements in which every entry has a version.
pub struct VersionedIndex {
    entries: Vec<Entry>,
}

/// The mathematical content of a versioned index: for every key that was
/// ever entered what its entry shows.
pub type IndexView = Map<Seq<u8>, Shown>;

/// The version after a change.  The counter stops at its highest value.
pub open spec fn raised(version: Version) -> Version {
    if version < u64::MAX {
        (version + 1) as u64
    } else {
        version
    }
}

/// What `key` shows in `index`.
pub open spec fn shown(index: IndexView, key: Seq<u8>) -> Shown {
    if index.dom().contains(key) {
        index[key]
    } else {
        Shown { address: None, version: 0 }
    }
}

/// The version of the entry of `key`, if `key` stands for a statement of
/// `segment`; else 0.
pub open spec fn version_in(index: IndexView, key: Seq<u8>, segment: SegmentId) -> Version {
    match shown(index, key).address {
        Some(at) => if at.segment_id == segment {
            shown(index, key).version
        } else {
            0
        },
        None => 0,
    }
}

/// The index after `key` was made to stand for `address`; for nothing, where
/// `address` is `None`.  The version is raised if that changes what the
/// entry shows, and only then.  A new entry starts at version 1.
pub open spec fn with_entry(
    index: IndexView,
    key: Seq<u8>,
    address: Option<StatementAddress>,
) -> IndexView {
    if shown(index, key).address == address && index.dom().contains(key) {
        index
    } else {
        index.insert(key, Shown { address, version: raised(shown(index, key).version) })
    }
}

impl VersionedIndex {
    /// No key occurs twice.
    pub closed spec fn wf(&self) -> bool {
        forall|i: int, j: int|
            0 <= i < j < self.entries@.len() ==> self.entries@[i].key@ != self.entries@[j].key@
    }

    /// For every key that was ever entered what its entry shows.
    pub closed spec fn view(&self) -> IndexView {
        Map::new(
            |key: Seq<u8>| exists|i: int| 0 <= i < self.entries@.len() && self.entries@[i].key@ == key,
            |key: Seq<u8>|
                {
                    let i = choose|i: int| 0 <= i < self.entries@.len() && self.entries@[i].key@ == key;
                    Shown { address: self.entries@[i].address, version: self.entries@[i].version }
                },
        )
    }

    /// An index without entries.
    pub fn new() -> (index: Self)
        ensures
            index.wf(),
            index@ == Map::<Seq<u8>, Shown>::empty(),
    {
        let index = VersionedIndex { entries: Vec::new() };
        assert(index@ =~= Map::<Seq<u8>, Shown>::empty());
        index
    }

    /// The position of the entry of `key`.
    fn find(&self, key: &Vec<u8>) -> (at: Option<usize>)
        requires
            self.wf(),
        ensures
            match at {
                Some(i) => i < self.entries@.len() && self.entries@[i as int].key@ == key@
                    && self@.dom().contains(key@) && self@[key@] == (Shown {
                    address: self.entries@[i as int].address,
                    version: self.entries@[i as int].version,
                }),
                None => !self@.dom().contains(key@) && forall|i: int|
                    0 <= i < self.entries@.len() ==> self.entries@[i].key@ != key@,
            },
    {
        let mut i: usize = 0;
        while i < self.entries.len()
            invariant
                self.wf(),
                i <= self.entries@.len(),
                forall|k: int| 0 <= k < i ==> self.entries@[k].key@ != key@,
            decreases self.entries@.len() - i,
        {
            if bytes_equal(&self.entries[i].key, key) {
                proof {
                    assert(self@.dom().contains(key@));
                    let j = choose|j: int|
                        0 <= j < self.entries@.len() && self.entries@[j].key@ == key@;
                    assert(j == i);
                }
                return Some(i);
            }
            i += 1;
        }
        None
    }

    /// What `key` shows: the statement it stands for, if any, and the
    /// version of its entry.
    pub fn show(&self, key: &Vec<u8>) -> (seen: Shown)
        requires
            self.wf(),
        ensures
            seen == shown(self@, key@),
    {
        match self.find(key) {
            Some(i) => Shown { address: self.entries[i].address, version: self.entries[i].version },
            None => Shown { address: None, version: 0 },
        }
    }

    /// The statement that `key` stands for.
    pub fn lookup(&self, key: &Vec<u8>) -> (address: Option<StatementAddress>)
        requires
            self.wf(),
        ensures
            address == shown(self@, key@).address,
    {
        self.show(key).address
    }

    /// The version of the entry of `key`, if `key` stands for a statement of
    /// `segment`; else 0.
    pub fn version_of(&self, key: &Vec<u8>, segment: SegmentId) -> (version: Version)
        requires
            self.wf(),
        ensures
            version == version_in(self@, key@, segment),
    {
        let seen = self.show(key);
        match seen.address {
            Some(at) => if at.segment_id == segment {
                seen.version
            } else {
                0
            },
            None => 0,
        }
    }

    /// Makes `key` stand for `address`; for nothing, where `address` is
    /// `None`.  Tells whether that changed what the entry shows.
    pub fn set(&mut self, key: &Vec<u8>, address: Option<StatementAddress>) -> (changed: bool)
        requires
            old(self).wf(),
        ensures
            final(self).wf(),
            final(self)@ == with_entry(old(self)@, key@, address),
            changed == (final(self)@ != old(self)@),
            shown(final(self)@, key@).version >= shown(old(self)@, key@).version,
    {
        let ghost before = self@;
        match self.find(key) {
            Some(i) => {
                let entry = &self.entries[i];
                let same = match (entry.address, address) {
                    (Some(a), Some(b)) => a == b,
                    (None, None) => true,
                    _ => false,
                };
                if same {
                    return false;
                }
                let version = if entry.version < u64::MAX {
                    entry.version + 1
                } else {
                    entry.version
                };
                let key = copy_bytes(&entry.key, 0, entry.key.len());
                assert(key@ =~= entry.key@);
                let ghost stored = self.entries@;
                self.entries.set(i, Entry { key, address, version });
                proof {
                    assert forall|k: Seq<u8>| #[trigger]
                        self@.dom().contains(k) == with_entry(before, key@, address).dom().contains(
                            k,
                        ) by {
                        if self@.dom().contains(k) {
                            let j = choose|j: int|
                                0 <= j < self.entries@.len() && self.entries@[j].key@ == k;
                            assert(stored[j].key@ == k);
                        }
                        if before.dom().contains(k) {
                            let j = choose|j: int| 0 <= j < stored.len() && stored[j].key@ == k;
                            assert(self.entries@[j].key@ == k);
                        }
                    }
                    assert forall|k: Seq<u8>| #[trigger] self@.dom().contains(k) implies self@[k]
                        == with_entry(before, key@, address)[k] by {
                        let j = choose|j: int|
                            0 <= j < self.entries@.len() && self.entries@[j].key@ == k;
                        let j0 = choose|j0: int| 0 <= j0 < stored.len() && stored[j0].key@ == k;
                        assert(stored[j].key@ == k);
                        assert(j == j0);
                    }
                    assert(self@ =~= with_entry(before, key@, address));
                    assert(self@[key@] != before[key@] || version == entry.version);
                }
                true
            },
            None => {
                let ghost stored = self.entries@;
                let copy = copy_bytes(key, 0, key.len());
                assert(copy@ =~= key@);
                self.entries.push(Entry { key: copy, address, version: 1 });
                proof {
                    let n = stored.len() as int;
                    assert(self.entries@[n].key@ == key@);
                    assert forall|k: Seq<u8>| #[trigger]
                        self@.dom().contains(k) == with_entry(before, key@, address).dom().contains(
                            k,
                        ) by {
                        if self@.dom().contains(k) {
                            let j = choose|j: int|
                                0 <= j < self.entries@.len() && self.entries@[j].key@ == k;
                            if j < n {
                                assert(stored[j].key@ == k);
                            }
                        }
                        if before.dom().contains(k) {
                            let j = choose|j: int| 0 <= j < stored.len() && stored[j].key@ == k;
                            assert(self.entries@[j].key@ == k);
                        }
                    }
                    assert forall|k: Seq<u8>| #[trigger] self@.dom().contains(k) implies self@[k]
                        == with_entry(before, key@, address)[k] by {
                        let j = choose|j: int|
                            0 <= j < self.entries@.len() && self.entries@[j].key@ == k;
                        if k != key@ {
                            assert(stored[j].key@ == k);
                            let j0 = choose|j0: int| 0 <= j0 < stored.len() && stored[j0].key@ == k;
                            assert(j == j0);
                        } else {
                            assert(j == n);
                        }
                    }
                    assert(self@ =~= with_entry(before, key@, address));
                    assert(self@.dom().contains(key@));
                }
                true
            },
        }
    }
}

/// One lookup as a usage remembers it: the key, and what it showed.
pub struct Looked {
    pub key: Vec<u8>,
    pub segment: Option<SegmentId>,
    pub version: Version,
}

/// The keys that were consulted, each with what it showed.
pub struct Usage {
    records: Vec<Looked>,
}

/// What a usage remembers of a lookup that showed `seen`: the segment of the
/// statement, if there was one, and the version.
pub open spec fn remembered(seen: Shown) -> (Option<SegmentId>, Version) {
    (
        match seen.address {
            Some(at) => Some(at.segment_id),
            None => None,
        },
        seen.version,
    )
}

/// Every lookup of `records` would show in `index` what it showed when it
/// was recorded.
pub open spec fn all_valid(records: Seq<Looked>, index: IndexView) -> bool {
    forall|i: int|
        0 <= i < records.len() ==> remembered(shown(index, (#[trigger] records[i]).key@)) == (
            records[i].segment,
            records[i].version,
        )
}

impl Usage {
    /// The lookups, in the order in which they were made.
    pub closed spec fn view(&self) -> Seq<Looked> {
        self.records@
    }

    /// A usage without lookups.
    pub fn new() -> (usage: Self)
        ensures
            usage@.len() == 0,
    {
        Usage { records: Vec::new() }
    }

    /// The number of lookups.
    pub fn len(&self) -> (n: usize)
        ensures
            n == self@.len(),
    {
        self.records.len()
    }

    /// Whether every key that was consulted still shows in `index` what it
    /// showed: for every lookup that touched an entry of a segment in some
    /// version, the key is still in that segment and that version; and what
    /// was missing is still missing.
    pub fn still_valid(&self, index: &VersionedIndex) -> (valid: bool)
        requires
            index.wf(),
        ensures
            valid == all_valid(self@, index@),
            valid ==> forall|i: int|
                0 <= i < self@.len() && (#[trigger] self@[i]).segment is Some ==> version_in(
                    index@,
                    self@[i].key@,
                    self@[i].segment->0,
                ) == self@[i].version,
    {
        let mut i: usize = 0;
        while i < self.records.len()
            invariant
                index.wf(),
                i <= self.records@.len(),
                all_valid(self.records@.subrange(0, i as int), index@),
            decreases self.records@.len() - i,
        {
            let record = &self.records[i];
            let seen = index.show(&record.key);
            let segment = match seen.address {
                Some(at) => Some(at.segment_id),
                None => None,
            };
            let same = seen.version == record.version && match (segment, record.segment) {
                (Some(a), Some(b)) => a == b,
                (None, None) => true,
                _ => false,
            };
            if !same {
                return false;
            }
            i += 1;
            proof {
                let upto = self.records@.subrange(0, i as int);
                assert forall|k: int| 0 <= k < upto.len() implies remembered(
                    shown(index@, (#[trigger] upto[k]).key@),
                ) == (upto[k].segment, upto[k].version) by {
                    if k < i - 1 {
                        assert(self.records@.subrange(0, i - 1)[k] == upto[k]);
                    }
                }
            }
        }
        proof {
            assert(self.records@.subrange(0, self.records@.len() as int) =~= self.records@);
        }
        true
    }
}

/// A view over a versioned index that records every key that is asked for.
pub struct Reader<'a> {
    index: &'a VersionedIndex,
    usage: Usage,
}

impl<'a> Reader<'a> {
    /// The index that is read.
    pub closed spec fn index(&self) -> VersionedIndex {
        *self.index
    }

    /// The lookups made so far.
    pub closed spec fn usage(&self) -> Seq<Looked> {
        self.usage@
    }

    /// The index is well-formed, and what was recorded is valid for it.
    pub open spec fn wf(&self) -> bool {
        self.index().wf() && all_valid(self.usage(), self.index()@)
    }

    /// A reader of `index` that has recorded nothing yet.
    pub fn new(index: &'a VersionedIndex) -> (reader: Self)
        requires
            index.wf(),
        ensures
            reader.wf(),
            reader.index() == *index,
            reader.usage().len() == 0,
    {
        Reader { index, usage: Usage::new() }
    }

    /// Looks `key` up and records the lookup.
    pub fn lookup(&mut self, key: &Vec<u8>) -> (address: Option<StatementAddress>)
        requires
            old(self).wf(),
        ensures
            final(self).wf(),
            final(self).index() == old(self).index(),
            address == shown(old(self).index()@, key@).address,
            final(self).usage().len() == old(self).usage().len() + 1,
            final(self).usage().drop_last() == old(self).usage(),
            final(self).usage().last().key@ == key@,
            (final(self).usage().last().segment, final(self).usage().last().version) == remembered(
                shown(old(self).index()@, key@),
            ),
    {
        let seen = self.index.show(key);
        let segment = match seen.address {
            Some(at) => Some(at.segment_id),
            None => None,
        };
        let copy = copy_bytes(key, 0, key.len());
        assert(copy@ =~= key@);
        let ghost before = self.usage@;
        self.usage.records.push(Looked { key: copy, segment, version: seen.version });
        proof {
            assert(self.usage@.drop_last() =~= before);
            lemma_fresh_usage_valid(before, self.usage@, self.index@);
        }
        seen.address
    }

    /// Ends the reading and hands out what was recorded: a usage that is
    /// valid for the index as it was read.
    pub fn into_usage(self) -> (usage: Usage)
        requires
            self.wf(),
        ensures
            usage@ == self.usage(),
            all_valid(usage@, self.index()@),
    {
        self.usage
    }
}

/// What a reader has recorded is valid for the index it read.
pub proof fn lemma_fresh_usage_valid(before: Seq<Looked>, after: Seq<Looked>, index: IndexView)
    requires
        all_valid(before, index),
        after.len() == before.len() + 1,
        after.drop_last() == before,
        (after.last().segment, after.last().version) == remembered(
            shown(index, after.last().key@),
        ),
    ensures
        all_valid(after, index),
{
    assert forall|i: int| 0 <= i < after.len() implies remembered(
        shown(index, (#[trigger] after[i]).key@),
    ) == (after[i].segment, after[i].version) by {
        if i < before.len() {
            assert(after[i] == before[i]);
        }
    }
}

} // verus!
