//! The blob index of a segment: which blob starts at which offset.

use crate::error::Error;
use std::collections::BTreeMap;
use vstd::prelude::*;
use vstd::std_specs::cmp::OrdSpec;
use vstd::std_specs::iter::IteratorSpec;

verus! {

/// One blob of a segment.
#[derive(Clone, Copy, Debug, PartialEq, Eq)]
pub struct SegmentIndexEntry {
    /// Where the blob starts.
    pub offset: u64,
    /// Its length in bytes.
    pub length: u32,
    /// Hash of the blob's key.
    pub blob_key_hash: [u8; 32],
}

/// The blobs of a segment by offset.
#[derive(Debug)]
pub struct SegmentIndex {
    entries: BTreeMap<u64, SegmentIndexEntry>,
}

impl View for SegmentIndex {
    type V = Map<u64, SegmentIndexEntry>;

    closed spec fn view(&self) -> Map<u64, SegmentIndexEntry> {
        self.entries@
    }
}

/// `m` holds exactly the entries of `s`, each under its offset.
pub open spec fn indexes(m: Map<u64, SegmentIndexEntry>, s: Seq<SegmentIndexEntry>) -> bool {
    &&& forall|i: int|
        0 <= i < s.len() ==> m.contains_key((#[trigger] s[i]).offset) && m[s[i].offset] == s[i]
    &&& forall|o: u64| #[trigger]
        m.contains_key(o) ==> exists|i: int| 0 <= i < s.len() && (#[trigger] s[i]).offset == o
}

/// No two entries start at the same offset.
pub open spec fn distinct_offsets(s: Seq<SegmentIndexEntry>) -> bool {
    forall|i: int, j: int|
        0 <= i < j < s.len() ==> (#[trigger] s[i]).offset != (#[trigger] s[j]).offset
}

/// No blob starts within another.
pub open spec fn no_overlap(s: Seq<SegmentIndexEntry>) -> bool {
    forall|i: int, j: int|
        #![trigger s[i], s[j]]
        0 <= i < s.len() && 0 <= j < s.len() && s[i].offset < s[j].offset ==> s[i].offset
            + s[i].length <= s[j].offset
}

/// A blob that starts at `offset` starts within another.
pub open spec fn overlapped(s: Seq<SegmentIndexEntry>, offset: u64) -> bool {
    exists|i: int, j: int|
        #![trigger s[i], s[j]]
        0 <= i < s.len() && 0 <= j < s.len() && s[j].offset == offset && s[i].offset < offset
            && s[i].offset + s[i].length > offset
}

impl SegmentIndex {
    /// Every entry stands under its own offset.
    pub open spec fn wf(&self) -> bool {
        forall|o: u64| #[trigger] self@.contains_key(o) ==> self@[o].offset == o
    }

    /// Builds the index of a list of entries. Fails at the first offset that
    /// occurs a second time, and when a blob starts within another.
    pub fn new(entries: Vec<SegmentIndexEntry>) -> (r: Result<Self, Error>)
        ensures
            r is Ok <==> distinct_offsets(entries@) && no_overlap(entries@),
            match r {
                Ok(index) => indexes(index@, entries@) && index.wf(),
                Err(Error::DuplicateOffset(offset)) => exists|k: int|
                    0 <= k < entries@.len() && distinct_offsets(entries@.take(k))
                        && !distinct_offsets(entries@.take(k + 1)) && (
                    #[trigger] entries@[k]).offset == offset,
                Err(Error::OverlappingBlob(offset)) => distinct_offsets(entries@) && overlapped(
                    entries@,
                    offset,
                ),
                Err(_) => false,
            },
    {
        let mut map: BTreeMap<u64, SegmentIndexEntry> = BTreeMap::new();
        let n: usize = entries.len();
        let mut i: usize = 0;
        while i < n
            invariant
                i <= n == entries@.len(),
                distinct_offsets(entries@.take(i as int)),
                indexes(map@, entries@.take(i as int)),
            decreases n - i,
        {
            let entry = entries[i];
            let ghost done = entries@.take(i as int);
            let ghost next = entries@.take(i + 1);
            proof {
                assert(next =~= done.push(entry));
                assert(forall|k: int| 0 <= k < i ==> next[k] == done[k]);
                assert(next[i as int] == entry);
            }
            if map.contains_key(&entry.offset) {
                proof {
                    let k = choose|k: int|
                        0 <= k < done.len() && (#[trigger] done[k]).offset == entry.offset;
                    assert(next[k].offset == next[i as int].offset);
                    assert(entries@[i as int].offset == entry.offset);
                    assert(entries@[k].offset == entries@[i as int].offset);
                }
                return Err(Error::DuplicateOffset(entry.offset));
            }
            let ghost before = map@;
            map.insert(entry.offset, entry);
            proof {
                assert forall|k: int| 0 <= k < next.len() implies map@.contains_key(
                    (#[trigger] next[k]).offset,
                ) && map@[next[k].offset] == next[k] by {
                    if k < i {
                        assert(before.contains_key(done[k].offset));
                    }
                }
                assert forall|o: u64| #[trigger] map@.contains_key(o) implies exists|k: int|
                    0 <= k < next.len() && (#[trigger] next[k]).offset == o by {
                    if before.contains_key(o) {
                        let k = choose|k: int|
                            0 <= k < done.len() && (#[trigger] done[k]).offset == o;
                        assert(next[k].offset == o);
                    }
                }
                assert forall|a: int, b: int| 0 <= a < b < next.len() implies (
                #[trigger] next[a]).offset != (#[trigger] next[b]).offset by {
                    if b == i {
                        assert(before.contains_key(done[a].offset));
                    } else {
                        assert(done[a].offset != done[b].offset);
                    }
                }
            }
            i = i + 1;
        }
        assert(entries@.take(n as int) =~= entries@);
        let index = SegmentIndex { entries: map };
        proof {
            assert forall|o: u64| #[trigger] index@.contains_key(o) implies index@[o].offset == o by {
                let k = choose|k: int|
                    0 <= k < entries@.len() && (#[trigger] entries@[k]).offset == o;
                assert(index@[entries@[k].offset] == entries@[k]);
            }
        }
        let list = index.entries();
        let count: usize = list.len();
        let mut at: usize = 1;
        while at < count
            invariant
                count == list@.len(),
                1 <= at,
                at <= count || at == 1,
                distinct_offsets(entries@),
                indexes(index@, entries@),
                indexes(index@, list@),
                forall|a: int, b: int|
                    0 <= a < b < list@.len() ==> (#[trigger] list@[a]).offset < (
                    #[trigger] list@[b]).offset,
                forall|a: int|
                    0 <= a < at - 1 ==> (#[trigger] list@[a]).offset + list@[a].length <= list@[a
                        + 1].offset,
            decreases count - at,
        {
            let before = list[at - 1];
            let this = list[at];
            if before.offset as u128 + before.length as u128 > this.offset as u128 {
                proof {
                    assert(index@.contains_key(list@[at - 1].offset));
                    assert(index@.contains_key(list@[at as int].offset));
                    let i = choose|i: int|
                        0 <= i < entries@.len() && (#[trigger] entries@[i]).offset == before.offset;
                    let j = choose|j: int|
                        0 <= j < entries@.len() && (#[trigger] entries@[j]).offset == this.offset;
                    assert(entries@[i] == before && entries@[j] == this);
                    assert(list@[at - 1].offset < list@[at as int].offset);
                }
                return Err(Error::OverlappingBlob(this.offset));
            }
            at = at + 1;
        }
        proof {
            assert forall|i: int, j: int|
                #![trigger entries@[i], entries@[j]]
                0 <= i < entries@.len() && 0 <= j < entries@.len() && entries@[i].offset
                    < entries@[j].offset implies entries@[i].offset + entries@[i].length
                <= entries@[j].offset by {
                assert(index@.contains_key(entries@[i].offset));
                assert(index@.contains_key(entries@[j].offset));
                let a = choose|a: int|
                    0 <= a < list@.len() && (#[trigger] list@[a]).offset == entries@[i].offset;
                let b = choose|b: int|
                    0 <= b < list@.len() && (#[trigger] list@[b]).offset == entries@[j].offset;
                assert(list@[a] == entries@[i] && list@[b] == entries@[j]);
                if b <= a {
                    assert(b == a || list@[b].offset < list@[a].offset);
                }
                assert(list@[a].offset + list@[a].length <= list@[a + 1].offset);
                assert(a + 1 == b || list@[a + 1].offset < list@[b].offset);
            }
        }
        Ok(index)
    }

    /// The blob that starts at `offset`, if one does.
    pub fn lookup(&self, offset: u64) -> (entry: Option<&SegmentIndexEntry>)
        ensures
            match entry {
                Some(e) => self@.contains_key(offset) && self@[offset] == *e,
                None => !self@.contains_key(offset),
            },
    {
        self.entries.get(&offset)
    }

    /// Number of blobs.
    pub fn len(&self) -> (n: usize)
        ensures
            n == self@.dom().len(),
    {
        self.entries.len()
    }

    /// Whether the index has no blob.
    pub fn is_empty(&self) -> (r: bool)
        ensures
            r == (self@ == Map::<u64, SegmentIndexEntry>::empty()),
    {
        let r = self.entries.is_empty();
        proof {
            if r {
                assert(self@ =~= Map::<u64, SegmentIndexEntry>::empty());
            }
        }
        r
    }

    /// The entries in order of their offsets.
    pub fn entries(&self) -> (list: Vec<SegmentIndexEntry>)
        requires
            self.wf(),
        ensures
            indexes(self@, list@),
            forall|i: int, j: int|
                0 <= i < j < list@.len() ==> (#[trigger] list@[i]).offset < (
                #[trigger] list@[j]).offset,
    {
        broadcast use vstd::laws_cmp::group_laws_cmp;

        let mut list: Vec<SegmentIndexEntry> = Vec::new();
        let ghost all = vstd::std_specs::btree::spec_btree_map_iter(&self.entries).remaining();
        let ghost keys = all.map_values(|kv: (&u64, &SegmentIndexEntry)| *kv.0);
        for kv in it: self.entries.iter()
            invariant
                list@.len() == it.index(),
                it.seq() == all,
                keys == all.map_values(|kv: (&u64, &SegmentIndexEntry)| *kv.0),
                vstd::std_specs::btree::increasing_seq(keys),
                forall|i: int| 0 <= i < list@.len() ==> #[trigger] list@[i] == *all[i].1,
        {
            list.push(*kv.1);
        }
        proof {
            assert forall|i: int| 0 <= i < list@.len() implies self@.contains_key(
                (#[trigger] list@[i]).offset,
            ) && self@[list@[i].offset] == list@[i] && list@[i].offset == keys[i] by {
                assert(self.entries@.contains_key(*all[i].0));
                assert(self.entries@[*all[i].0] == *all[i].1);
            }
            assert forall|i: int, j: int| 0 <= i < j < list@.len() implies (
            #[trigger] list@[i]).offset < (#[trigger] list@[j]).offset by {
                assert(keys[i].cmp_spec(&keys[j]) is Less);
            }
            assert forall|o: u64| #[trigger] self@.contains_key(o) implies exists|i: int|
                0 <= i < list@.len() && (#[trigger] list@[i]).offset == o by {
                assert(all.contains((&o, &self.entries@[o])));
                let i = choose|i: int| 0 <= i < all.len() && all[i] == (&o, &self.entries@[o]);
                assert(list@[i].offset == o);
            }
        }
        list
    }
}

} // verus!
