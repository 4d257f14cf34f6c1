//! The records kept for buckets and objects.

use vstd::prelude::*;
use crate::time::{now, Timestamp};

verus! {

/// Information about a bucket.
#[derive(Clone, Debug)]
pub struct BucketInfo {
    /// Bucket name.
    pub name: String,
    /// When the bucket was created.
    pub creation_date: Timestamp,
}

impl BucketInfo {
    /// A bucket record named `name`, created now.
    pub fn new(name: String) -> (b: BucketInfo)
        ensures
            b.name@ == name@,
    {
        BucketInfo { name, creation_date: now() }
    }

    /// A bucket record with a given creation time.
    pub fn created_at(name: String, creation_date: Timestamp) -> (b: BucketInfo)
        ensures
            b.name@ == name@,
            b.creation_date == creation_date,
    {
        BucketInfo { name, creation_date }
    }

    /// A copy of this record.
    pub fn duplicate(&self) -> (b: BucketInfo)
        ensures
            b.name@ == self.name@,
            b.creation_date == self.creation_date,
    {
        BucketInfo { name: self.name.clone(), creation_date: self.creation_date }
    }
}

/// Statistics about a bucket.
pub struct BucketStats {
    /// Number of objects in the bucket.
    pub object_count: u64,
    /// Total size of all objects in bytes.
    pub total_size: u64,
}

impl Default for BucketStats {
    fn default() -> (s: BucketStats)
        ensures
            s.object_count == 0,
            s.total_size == 0,
    {
        BucketStats { object_count: 0, total_size: 0 }
    }
}

/// Information about an object, as listings report it.
#[derive(Clone, Debug)]
pub struct ObjectInfo {
    /// Object key.
    pub key: String,
    /// Last modification time.
    pub last_modified: Timestamp,
    /// ETag (the quoted MD5 of the body).
    pub etag: String,
    /// Size in bytes.
    pub size: u64,
    /// Storage class (always `STANDARD` here).
    pub storage_class: String,
}

/// The map that a list of key/value pairs describes, later pairs overriding earlier ones.
pub open spec fn pairs_map(s: Seq<(String, String)>) -> Map<Seq<char>, Seq<char>>
    decreases s.len(),
{
    if s.len() == 0 {
        Map::empty()
    } else {
        pairs_map(s.drop_last()).insert(s.last().0@, s.last().1@)
    }
}

/// Metadata of an object.
#[derive(Clone, Debug)]
pub struct ObjectMetadata {
    /// Content type (MIME type).
    pub content_type: Option<String>,
    /// Content length in bytes.
    pub content_length: u64,
    /// ETag (the quoted MD5 of the body).
    pub etag: String,
    /// Last modification time.
    pub last_modified: Timestamp,
    /// User-defined metadata (`x-amz-meta-*`), as name/value pairs without repeated names.
    pub metadata: Vec<(String, String)>,
}

/// Whether no two pairs share a name.
pub open spec fn distinct_names(s: Seq<(String, String)>) -> bool {
    forall|i: int, j: int| 0 <= i < j < s.len() ==> s[i].0@ != s[j].0@
}

impl ObjectMetadata {
    /// The user-defined metadata as a map.
    pub open spec fn meta_map(&self) -> Map<Seq<char>, Seq<char>> {
        pairs_map(self.metadata@)
    }

    /// Metadata with the given length and ETag, modified now, with no content type
    /// and no user metadata.
    pub fn new(content_length: u64, etag: String) -> (m: ObjectMetadata)
        ensures
            m.content_type is None,
            m.content_length == content_length,
            m.etag@ == etag@,
            m.metadata@.len() == 0,
    {
        ObjectMetadata {
            content_type: None,
            content_length,
            etag,
            last_modified: now(),
            metadata: Vec::new(),
        }
    }

    /// The same metadata with the content type set.
    pub fn with_content_type(self, content_type: String) -> (m: ObjectMetadata)
        ensures
            m.content_type matches Some(c) && c@ == content_type@,
            m.content_length == self.content_length,
            m.etag == self.etag,
            m.last_modified == self.last_modified,
            m.metadata == self.metadata,
    {
        let mut m = self;
        m.content_type = Some(content_type);
        m
    }

    /// The same metadata with one user entry added, replacing an entry of that name.
    pub fn with_metadata(self, key: String, value: String) -> (m: ObjectMetadata)
        requires
            distinct_names(self.metadata@),
        ensures
            m.meta_map() == self.meta_map().insert(key@, value@),
            distinct_names(m.metadata@),
            m.content_type == self.content_type,
            m.content_length == self.content_length,
            m.etag == self.etag,
            m.last_modified == self.last_modified,
    {
        let mut m = self;
        let metadata = set_pair(m.metadata, key, value);
        m.metadata = metadata;
        m
    }
}

/// Replaces the value of `key` in `pairs`, or appends the pair.
fn set_pair(pairs: Vec<(String, String)>, key: String, value: String) -> (r: Vec<(String, String)>)
    requires
        distinct_names(pairs@),
    ensures
        pairs_map(r@) == pairs_map(pairs@).insert(key@, value@),
        distinct_names(r@),
{
    let mut out: Vec<(String, String)> = Vec::new();
    let mut found = false;
    let mut i: usize = 0;
    while i < pairs.len()
        invariant
            i <= pairs.len(),
            distinct_names(pairs@),
            out@.len() == i,
            forall|j: int| 0 <= j < i ==> (#[trigger] out@[j]).0@ == pairs@[j].0@,
            forall|j: int| 0 <= j < i ==> (#[trigger] out@[j]).1@ == (if pairs@[j].0@ == key@ { value@ } else { pairs@[j].1@ }),
            found == (exists|j: int| 0 <= j < i && (#[trigger] pairs@[j]).0@ == key@),
        decreases pairs.len() - i,
    {
        let (k, v) = (pairs[i].0.clone(), pairs[i].1.clone());
        if k == key {
            out.push((k, value.clone()));
            found = true;
        } else {
            out.push((k, v));
        }
        i = i + 1;
    }
    proof { lemma_replace_map(pairs@, out@, key@, value@); }
    if !found {
        let ghost before = out@;
        out.push((key, value));
        proof {
            assert(out@.drop_last() =~= before);
            assert forall|j: int, l: int| 0 <= j < l < out@.len() implies out@[j].0@ != out@[l].0@ by {
                if l == out@.len() - 1 {
                    assert(pairs@[j].0@ == out@[j].0@);
                }
            }
        }
    }
    out
}

/// Replacing the value of one name in a list without repeated names sets it in the map,
/// if the name occurs.
proof fn lemma_replace_map(
    pairs: Seq<(String, String)>,
    out: Seq<(String, String)>,
    key: Seq<char>,
    value: Seq<char>,
)
    requires
        distinct_names(pairs),
        out.len() == pairs.len(),
        forall|j: int| 0 <= j < pairs.len() ==> (#[trigger] out[j]).0@ == pairs[j].0@,
        forall|j: int| 0 <= j < pairs.len() ==> (#[trigger] out[j]).1@ == (if pairs[j].0@ == key { value } else { pairs[j].1@ }),
    ensures
        distinct_names(out),
        (exists|j: int| 0 <= j < pairs.len() && (#[trigger] pairs[j]).0@ == key)
            ==> pairs_map(out) == pairs_map(pairs).insert(key, value),
        !(exists|j: int| 0 <= j < pairs.len() && (#[trigger] pairs[j]).0@ == key)
            ==> pairs_map(out) == pairs_map(pairs) && !pairs_map(pairs).dom().contains(key),
    decreases pairs.len(),
{
    if pairs.len() > 0 {
        let p2 = pairs.drop_last();
        let o2 = out.drop_last();
        assert forall|j: int| 0 <= j < p2.len() implies (#[trigger] o2[j]).0@ == p2[j].0@ by {
            assert(o2[j] == out[j] && p2[j] == pairs[j]);
        }
        assert forall|j: int| 0 <= j < p2.len() implies (#[trigger] o2[j]).1@ == (if p2[j].0@ == key { value } else { p2[j].1@ }) by {
            assert(o2[j] == out[j] && p2[j] == pairs[j]);
        }
        lemma_replace_map(p2, o2, key, value);
        let n = pairs.len() - 1;
        assert(out[n].0@ == pairs[n].0@);
        if pairs[n].0@ == key {
            assert forall|j: int| 0 <= j < p2.len() implies (#[trigger] p2[j]).0@ != key by {
                assert(p2[j] == pairs[j]);
            }
            assert(pairs_map(out) =~= pairs_map(pairs).insert(key, value));
        } else {
            if exists|j: int| 0 <= j < pairs.len() && (#[trigger] pairs[j]).0@ == key {
                let j = choose|j: int| 0 <= j < pairs.len() && (#[trigger] pairs[j]).0@ == key;
                assert(p2[j] == pairs[j]);
                assert(pairs_map(out) =~= pairs_map(pairs).insert(key, value));
            } else {
                assert forall|j: int| 0 <= j < p2.len() implies (#[trigger] p2[j]).0@ != key by {
                    assert(p2[j] == pairs[j]);
                }
                assert(pairs_map(out) =~= pairs_map(pairs));
            }
        }
    }
}

impl Default for ObjectMetadata {
    /// Metadata of length zero with an empty ETag, modified at the Unix epoch,
    /// with no content type and no user metadata.
    fn default() -> (m: ObjectMetadata)
        ensures
            m.content_type is None,
            m.content_length == 0,
            m.etag@.len() == 0,
            m.last_modified.secs == 0,
            m.last_modified.nanos == 0,
            m.metadata@.len() == 0,
    {
        ObjectMetadata {
            content_type: None,
            content_length: 0,
            etag: String::new(),
            last_modified: Timestamp::epoch(),
            metadata: Vec::new(),
        }
    }
}

} // verus!
