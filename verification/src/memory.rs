//! The in-memory storage backend.

use vstd::prelude::*;
use crate::backend::{
    CompletedPart, CompleteMultipartResult, CopyObjectResult, GetObjectResult, ListObjectsParams,
    ListObjectsResult, PartInfo, PutObjectResult, Range, StorageStats, apply_range, range_message,
    range_ok, ranged, valid_bucket_name,
    valid_object_key, validate_bucket_name, validate_object_key,
};
use crate::digest::{calculate_etag, etag_of};
use crate::error::{err_of, StorageError, StorageErrorView, StorageResult};
use crate::keyed::{
    has_key, keyed_map, keys_unique, lemma_keyed_absent, lemma_keyed_empty, lemma_keyed_insert,
    lemma_keyed_lookup, lemma_keyed_push, lemma_keyed_remove, lemma_keyed_update, sorted_seq_of, strictly_sorted,
};
use crate::model::{BucketInfo, ObjectInfo, ObjectMetadata, pairs_map};
use crate::paging::{first_after, lemma_first_after_bounds, next_token, page_len, page_truncated, take_page};
use crate::text::{chars_of, find_from, is_prefix, lex_less, lex_lt, lemma_lex_irreflexive, lemma_lex_total, lemma_lex_transitive};
use crate::time::{now, opt_view, Timestamp};

verus! {

/// What object metadata says, with user metadata as a map.
pub struct MetaView {
    pub content_type: Option<Seq<char>>,
    pub content_length: u64,
    pub etag: Seq<char>,
    pub last_modified: Timestamp,
    pub user: Map<Seq<char>, Seq<char>>,
}

impl View for ObjectMetadata {
    type V = MetaView;

    open spec fn view(&self) -> MetaView {
        MetaView {
            content_type: crate::time::opt_view(self.content_type),
            content_length: self.content_length,
            etag: self.etag@,
            last_modified: self.last_modified,
            user: pairs_map(self.metadata@),
        }
    }
}

/// A stored object: its bytes and its metadata.
pub struct StoredView {
    pub data: Seq<u8>,
    pub meta: MetaView,
}

/// A bucket: when it was created and its objects by key.
pub struct BucketView {
    pub creation_date: Timestamp,
    pub objects: Map<Seq<char>, StoredView>,
}

/// A multipart upload in progress: where it was started, the metadata it will
/// store, and the bytes of each uploaded part by part number.
pub struct UploadView {
    pub bucket: Seq<char>,
    pub key: Seq<char>,
    pub meta: MetaView,
    pub parts: Map<u32, Seq<u8>>,
}

/// The whole backend: buckets by name and uploads by upload id.
pub struct BackendView {
    pub buckets: Map<Seq<char>, BucketView>,
    pub uploads: Map<Seq<char>, UploadView>,
}

struct StoredObject {
    key: String,
    data: Vec<u8>,
    metadata: ObjectMetadata,
}

struct BucketEntry {
    info: BucketInfo,
    objects: Vec<StoredObject>,
}

struct UploadedPart {
    data: Vec<u8>,
    info: PartInfo,
}

struct MultipartUpload {
    bucket: String,
    key: String,
    upload_id: String,
    metadata: ObjectMetadata,
    parts: Vec<UploadedPart>,
}

/// In-memory storage backend.
pub struct MemoryBackend {
    buckets: Vec<BucketEntry>,
    uploads: Vec<MultipartUpload>,
}

spec fn obj_key() -> spec_fn(StoredObject) -> Seq<char> {
    |o: StoredObject| o.key@
}

spec fn obj_val() -> spec_fn(StoredObject) -> StoredView {
    |o: StoredObject| StoredView { data: o.data@, meta: o.metadata@ }
}

spec fn bucket_key() -> spec_fn(BucketEntry) -> Seq<char> {
    |b: BucketEntry| b.info.name@
}

spec fn bucket_val() -> spec_fn(BucketEntry) -> BucketView {
    |b: BucketEntry| BucketView {
        creation_date: b.info.creation_date,
        objects: keyed_map(b.objects@, obj_key(), obj_val()),
    }
}

spec fn part_key() -> spec_fn(UploadedPart) -> u32 {
    |p: UploadedPart| p.info.part_number
}

spec fn part_val() -> spec_fn(UploadedPart) -> Seq<u8> {
    |p: UploadedPart| p.data@
}

spec fn upload_key() -> spec_fn(MultipartUpload) -> Seq<char> {
    |u: MultipartUpload| u.upload_id@
}

spec fn upload_val() -> spec_fn(MultipartUpload) -> UploadView {
    |u: MultipartUpload| UploadView {
        bucket: u.bucket@,
        key: u.key@,
        meta: u.metadata@,
        parts: keyed_map(u.parts@, part_key(), part_val()),
    }
}

/// The keys of a list of objects, in order.
spec fn object_keys(objs: Seq<StoredObject>) -> Seq<Seq<char>> {
    objs.map_values(|o: StoredObject| o.key@)
}

/// Objects are kept in ascending key order.
spec fn objects_wf(objs: Seq<StoredObject>) -> bool {
    strictly_sorted(object_keys(objs))
}

/// Each object's recorded ETag and length match its bytes.
spec fn objects_consistent(objs: Seq<StoredObject>) -> bool {
    forall|i: int| 0 <= i < objs.len() ==> {
        &&& (#[trigger] objs[i]).metadata.etag@ == etag_of(objs[i].data@)
        &&& objs[i].metadata.content_length == objs[i].data@.len()
    }
}

/// A part's recorded information matches its bytes.
spec fn part_wf(p: UploadedPart) -> bool {
    &&& p.info.etag@ == etag_of(p.data@)
    &&& p.info.size == p.data@.len()
}

/// Parts are kept in ascending part-number order, each with matching information.
spec fn parts_wf(parts: Seq<UploadedPart>) -> bool {
    &&& forall|i: int, j: int| 0 <= i < j < parts.len() ==> (#[trigger] parts[i]).info.part_number < (#[trigger] parts[j]).info.part_number
    &&& forall|i: int| 0 <= i < parts.len() ==> part_wf(#[trigger] parts[i])
}

/// Ascending keys are distinct keys.
proof fn lemma_sorted_objects_unique(objs: Seq<StoredObject>)
    requires
        objects_wf(objs),
    ensures
        keys_unique(objs, obj_key()),
{
    assert forall|i: int, j: int| 0 <= i < objs.len() && 0 <= j < objs.len() && i != j
        implies obj_key()(objs[i]) != obj_key()(objs[j]) by {
        let ks = object_keys(objs);
        assert(ks[i] == objs[i].key@ && ks[j] == objs[j].key@);
        if i < j {
            assert(lex_lt(ks[i], ks[j]));
        } else {
            assert(lex_lt(ks[j], ks[i]));
        }
        lemma_lex_irreflexive(ks[i]);
    }
}

/// Ascending part numbers are distinct.
proof fn lemma_sorted_parts_unique(parts: Seq<UploadedPart>)
    requires
        parts_wf(parts),
    ensures
        keys_unique(parts, part_key()),
{
    assert forall|i: int, j: int| 0 <= i < parts.len() && 0 <= j < parts.len() && i != j
        implies part_key()(parts[i]) != part_key()(parts[j]) by {
        if i < j {
            assert(parts[i].info.part_number < parts[j].info.part_number);
        } else {
            assert(parts[j].info.part_number < parts[i].info.part_number);
        }
    }
}

impl View for MemoryBackend {
    type V = BackendView;

    closed spec fn view(&self) -> BackendView {
        BackendView {
            buckets: keyed_map(self.buckets@, bucket_key(), bucket_val()),
            uploads: keyed_map(self.uploads@, upload_key(), upload_val()),
        }
    }
}

impl MemoryBackend {
    /// The backend's internal consistency: distinct bucket names, objects in ascending
    /// key order, distinct upload ids, parts in ascending number order with information
    /// that matches their bytes.
    pub closed spec fn wf(&self) -> bool {
        &&& keys_unique(self.buckets@, bucket_key())
        &&& forall|i: int| 0 <= i < self.buckets@.len() ==> objects_wf(#[trigger] self.buckets@[i].objects@)
        &&& forall|i: int| 0 <= i < self.buckets@.len() ==> objects_consistent(#[trigger] self.buckets@[i].objects@)
        &&& keys_unique(self.uploads@, upload_key())
        &&& forall|i: int| 0 <= i < self.uploads@.len() ==> parts_wf(#[trigger] self.uploads@[i].parts@)
    }

    /// The bucket names in the order `list_buckets` reports them.
    pub closed spec fn bucket_order(&self) -> Seq<Seq<char>> {
        self.buckets@.map_values(|b: BucketEntry| b.info.name@)
    }

    /// The order of bucket names lists each bucket exactly once.
    pub proof fn lemma_bucket_order(&self)
        requires
            self.wf(),
        ensures
            self.bucket_order().no_duplicates(),
            forall|n: Seq<char>| self@.buckets.dom().contains(n) <==> self.bucket_order().contains(n),
            self.bucket_order().len() == self@.buckets.dom().len(),
    {
        let o = self.bucket_order();
        assert forall|i: int, j: int| 0 <= i < o.len() && 0 <= j < o.len() && i != j implies o[i] != o[j] by {
            assert(bucket_key()(self.buckets@[i]) != bucket_key()(self.buckets@[j]));
        }
        assert forall|n: Seq<char>| self@.buckets.dom().contains(n) <==> o.contains(n) by {
            if self@.buckets.dom().contains(n) {
                let i = choose|i: int| 0 <= i < self.buckets@.len() && bucket_key()(#[trigger] self.buckets@[i]) == n;
                assert(o[i] == n);
            }
            if o.contains(n) {
                let i = choose|i: int| 0 <= i < o.len() && o[i] == n;
                assert(bucket_key()(self.buckets@[i]) == n);
            }
        }
        assert(self@.buckets.dom() =~= o.to_set());
        o.unique_seq_to_set();
    }

    /// An empty backend.
    pub fn new() -> (m: MemoryBackend)
        ensures
            m.wf(),
            m@.buckets == Map::<Seq<char>, BucketView>::empty(),
            m@.uploads == Map::<Seq<char>, UploadView>::empty(),
    {
        let m = MemoryBackend { buckets: Vec::new(), uploads: Vec::new() };
        proof {
            assert(m@.buckets =~= Map::<Seq<char>, BucketView>::empty());
            assert(m@.uploads =~= Map::<Seq<char>, UploadView>::empty());
        }
        m
    }

    fn find_bucket(&self, name: &str) -> (r: Option<usize>)
        requires
            self.wf(),
        ensures
            match r {
                Some(i) => i < self.buckets@.len() && self.buckets@[i as int].info.name@ == name@,
                None => !has_key(self.buckets@, bucket_key(), name@),
            },
    {
        let target = String::from_str(name);
        let mut i: usize = 0;
        while i < self.buckets.len()
            invariant
                i <= self.buckets@.len(),
                target@ == name@,
                forall|j: int| 0 <= j < i ==> (#[trigger] self.buckets@[j]).info.name@ != name@,
            decreases self.buckets.len() - i,
        {
            if self.buckets[i].info.name == target {
                return Some(i);
            }
            i = i + 1;
        }
        None
    }

    fn find_upload(&self, upload_id: &str) -> (r: Option<usize>)
        requires
            self.wf(),
        ensures
            match r {
                Some(i) => i < self.uploads@.len() && self.uploads@[i as int].upload_id@ == upload_id@,
                None => !has_key(self.uploads@, upload_key(), upload_id@),
            },
    {
        let target = String::from_str(upload_id);
        let mut i: usize = 0;
        while i < self.uploads.len()
            invariant
                i <= self.uploads@.len(),
                target@ == upload_id@,
                forall|j: int| 0 <= j < i ==> (#[trigger] self.uploads@[j]).upload_id@ != upload_id@,
            decreases self.uploads.len() - i,
        {
            if self.uploads[i].upload_id == target {
                return Some(i);
            }
            i = i + 1;
        }
        None
    }

    /// Creates an empty bucket named `bucket`, created at `created`.
    pub fn create_bucket_at(&mut self, bucket: &str, created: Timestamp) -> (r: StorageResult<()>)
        requires
            old(self).wf(),
        ensures
            final(self).wf(),
            r is Ok <==> (valid_bucket_name(bucket@) && !old(self)@.buckets.dom().contains(bucket@)),
            r is Ok ==> final(self)@.buckets == old(self)@.buckets.insert(
                bucket@,
                BucketView { creation_date: created, objects: Map::empty() },
            ),
            r is Err ==> final(self)@ == old(self)@,
            !valid_bucket_name(bucket@) ==> err_of(r) == Some(StorageErrorView::InvalidBucketName(bucket@)),
            valid_bucket_name(bucket@) && old(self)@.buckets.dom().contains(bucket@)
                ==> err_of(r) == Some(StorageErrorView::BucketAlreadyExists(bucket@)),
            final(self)@.uploads == old(self)@.uploads,
    {
        validate_bucket_name(bucket)?;
        if let Some(i) = self.find_bucket(bucket) {
            proof { lemma_keyed_lookup(self.buckets@, bucket_key(), bucket_val(), i as int); }
            return Err(StorageError::BucketAlreadyExists(String::from_str(bucket)));
        }
        let entry = BucketEntry {
            info: BucketInfo::created_at(String::from_str(bucket), created),
            objects: Vec::new(),
        };
        let ghost old_buckets = self.buckets@;
        proof {
            lemma_keyed_absent(self.buckets@, bucket_key(), bucket_val(), bucket@);
            lemma_keyed_push(old_buckets, bucket_key(), bucket_val(), entry);
            assert(keyed_map(entry.objects@, obj_key(), obj_val()) =~= Map::<Seq<char>, StoredView>::empty());
        }
        self.buckets.push(entry);
        proof {
            assert(self.buckets@ == old_buckets.push(entry));
            assert forall|i: int| 0 <= i < self.buckets@.len() implies objects_wf(#[trigger] self.buckets@[i].objects@) by {
                if i < old_buckets.len() {
                    assert(self.buckets@[i] == old_buckets[i]);
                } else {
                    assert(object_keys(self.buckets@[i].objects@) =~= Seq::<Seq<char>>::empty());
                }
            }
        }
        Ok(())
    }

    /// Creates an empty bucket named `bucket`, created now.
    pub fn create_bucket(&mut self, bucket: &str) -> (r: StorageResult<()>)
        requires
            old(self).wf(),
        ensures
            final(self).wf(),
            r is Ok <==> (valid_bucket_name(bucket@) && !old(self)@.buckets.dom().contains(bucket@)),
            r is Ok ==> final(self)@.buckets == old(self)@.buckets.insert(
                bucket@,
                BucketView { creation_date: final(self)@.buckets[bucket@].creation_date, objects: Map::empty() },
            ),
            r is Err ==> final(self)@ == old(self)@,
            !valid_bucket_name(bucket@) ==> err_of(r) == Some(StorageErrorView::InvalidBucketName(bucket@)),
            valid_bucket_name(bucket@) && old(self)@.buckets.dom().contains(bucket@)
                ==> err_of(r) == Some(StorageErrorView::BucketAlreadyExists(bucket@)),
            final(self)@.uploads == old(self)@.uploads,
    {
        self.create_bucket_at(bucket, now())
    }

    /// Deletes the empty bucket named `bucket`.
    pub fn delete_bucket(&mut self, bucket: &str) -> (r: StorageResult<()>)
        requires
            old(self).wf(),
        ensures
            final(self).wf(),
            r is Ok <==> (old(self)@.buckets.dom().contains(bucket@)
                && old(self)@.buckets[bucket@].objects.dom() == Set::<Seq<char>>::empty()),
            r is Ok ==> final(self)@.buckets == old(self)@.buckets.remove(bucket@),
            r is Err ==> final(self)@ == old(self)@,
            !old(self)@.buckets.dom().contains(bucket@)
                ==> err_of(r) == Some(StorageErrorView::BucketNotFound(bucket@)),
            old(self)@.buckets.dom().contains(bucket@) && old(self)@.buckets[bucket@].objects.dom() != Set::<Seq<char>>::empty()
                ==> err_of(r) == Some(StorageErrorView::BucketNotEmpty(bucket@)),
            final(self)@.uploads == old(self)@.uploads,
    {
        let i = match self.find_bucket(bucket) {
            Some(i) => i,
            None => {
                proof { lemma_keyed_absent(self.buckets@, bucket_key(), bucket_val(), bucket@); }
                return Err(StorageError::BucketNotFound(String::from_str(bucket)));
            },
        };
        proof {
            lemma_keyed_lookup(self.buckets@, bucket_key(), bucket_val(), i as int);
            lemma_keyed_empty(self.buckets@[i as int].objects@, obj_key(), obj_val());
        }
        if self.buckets[i].objects.len() > 0 {
            return Err(StorageError::BucketNotEmpty(String::from_str(bucket)));
        }
        let ghost old_buckets = self.buckets@;
        proof { lemma_keyed_remove(old_buckets, bucket_key(), bucket_val(), i as int); }
        self.buckets.remove(i);
        proof {
            assert(self.buckets@ == old_buckets.remove(i as int));
            assert forall|j: int| 0 <= j < self.buckets@.len() implies objects_wf(#[trigger] self.buckets@[j].objects@) by {
                if j < i {
                    assert(self.buckets@[j] == old_buckets[j]);
                } else {
                    assert(self.buckets@[j] == old_buckets[j + 1]);
                }
            }
        }
        Ok(())
    }

    /// All buckets, each once, in `bucket_order`.
    pub fn list_buckets(&self) -> (r: StorageResult<Vec<BucketInfo>>)
        requires
            self.wf(),
        ensures
            r matches Ok(v) && v@.len() == self.bucket_order().len()
                && (forall|i: int| 0 <= i < v@.len() ==> (#[trigger] v@[i]).name@ == self.bucket_order()[i]
                    && v@[i].creation_date == self@.buckets[v@[i].name@].creation_date),
    {
        let mut v: Vec<BucketInfo> = Vec::new();
        let mut i: usize = 0;
        while i < self.buckets.len()
            invariant
                self.wf(),
                i <= self.buckets@.len(),
                v@.len() == i,
                forall|j: int| 0 <= j < i ==> (#[trigger] v@[j]).name@ == self.bucket_order()[j]
                    && v@[j].creation_date == self@.buckets[v@[j].name@].creation_date,
            decreases self.buckets.len() - i,
        {
            let b = self.buckets[i].info.duplicate();
            proof { lemma_keyed_lookup(self.buckets@, bucket_key(), bucket_val(), i as int); }
            v.push(b);
            i = i + 1;
        }
        Ok(v)
    }

    /// Whether a bucket named `bucket` exists.
    pub fn bucket_exists(&self, bucket: &str) -> (r: StorageResult<bool>)
        requires
            self.wf(),
        ensures
            r matches Ok(b) && b == self@.buckets.dom().contains(bucket@),
    {
        match self.find_bucket(bucket) {
            Some(i) => {
                proof { lemma_keyed_lookup(self.buckets@, bucket_key(), bucket_val(), i as int); }
                Ok(true)
            },
            None => {
                proof { lemma_keyed_absent(self.buckets@, bucket_key(), bucket_val(), bucket@); }
                Ok(false)
            },
        }
    }

    /// The record of bucket `bucket`.
    pub fn get_bucket_info(&self, bucket: &str) -> (r: StorageResult<BucketInfo>)
        requires
            self.wf(),
        ensures
            r is Ok <==> self@.buckets.dom().contains(bucket@),
            r matches Ok(b) ==> b.name@ == bucket@ && b.creation_date == self@.buckets[bucket@].creation_date,
            r is Err ==> err_of(r) == Some(StorageErrorView::BucketNotFound(bucket@)),
    {
        match self.find_bucket(bucket) {
            Some(i) => {
                proof { lemma_keyed_lookup(self.buckets@, bucket_key(), bucket_val(), i as int); }
                Ok(self.buckets[i].info.duplicate())
            },
            None => {
                proof { lemma_keyed_absent(self.buckets@, bucket_key(), bucket_val(), bucket@); }
                Err(StorageError::BucketNotFound(String::from_str(bucket)))
            },
        }
    }

    /// Reads object `key` of bucket `bucket`, cut to `range` if one is given.
    pub fn get_object(&self, bucket: &str, key: &str, range: Option<Range>) -> (r: StorageResult<GetObjectResult>)
        requires
            self.wf(),
        ensures
            err_of(r) == get_error(self@, bucket@, key@, range),
            r matches Ok(g) ==> {
                let s = self@.buckets[bucket@].objects[key@];
                &&& Some(g.data@) == ranged(s.data, range)
                &&& g.metadata@ == s.meta
                &&& g.range == range
            },
    {
        let bi = match self.find_bucket(bucket) {
            Some(i) => i,
            None => {
                proof { lemma_keyed_absent(self.buckets@, bucket_key(), bucket_val(), bucket@); }
                return Err(StorageError::BucketNotFound(String::from_str(bucket)));
            },
        };
        proof {
            lemma_keyed_lookup(self.buckets@, bucket_key(), bucket_val(), bi as int);
            lemma_sorted_objects_unique(self.buckets@[bi as int].objects@);
        }
        let objs = &self.buckets[bi].objects;
        let oi = match find_object(objs, key) {
            Ok(j) => j,
            Err(_) => {
                proof { lemma_keyed_absent(objs@, obj_key(), obj_val(), key@); }
                return Err(StorageError::ObjectNotFound { bucket: String::from_str(bucket), key: String::from_str(key) });
            },
        };
        proof { lemma_keyed_lookup(objs@, obj_key(), obj_val(), oi as int); }
        let data = apply_range(objs[oi].data.as_slice(), &range)?;
        Ok(GetObjectResult { data, metadata: copy_metadata(&objs[oi].metadata), range })
    }

    /// The metadata of object `key` of bucket `bucket`.
    pub fn head_object(&self, bucket: &str, key: &str) -> (r: StorageResult<ObjectMetadata>)
        requires
            self.wf(),
        ensures
            err_of(r) == get_error(self@, bucket@, key@, None),
            r matches Ok(m) ==> m@ == self@.buckets[bucket@].objects[key@].meta,
    {
        let bi = match self.find_bucket(bucket) {
            Some(i) => i,
            None => {
                proof { lemma_keyed_absent(self.buckets@, bucket_key(), bucket_val(), bucket@); }
                return Err(StorageError::BucketNotFound(String::from_str(bucket)));
            },
        };
        proof {
            lemma_keyed_lookup(self.buckets@, bucket_key(), bucket_val(), bi as int);
            lemma_sorted_objects_unique(self.buckets@[bi as int].objects@);
        }
        let objs = &self.buckets[bi].objects;
        let oi = match find_object(objs, key) {
            Ok(j) => j,
            Err(_) => {
                proof { lemma_keyed_absent(objs@, obj_key(), obj_val(), key@); }
                return Err(StorageError::ObjectNotFound { bucket: String::from_str(bucket), key: String::from_str(key) });
            },
        };
        proof { lemma_keyed_lookup(objs@, obj_key(), obj_val(), oi as int); }
        Ok(copy_metadata(&objs[oi].metadata))
    }

    /// Stores `data` as object `key` of bucket `bucket`, replacing any object of that key,
    /// with the metadata's ETag, length and modification time set from the data and `modified`.
    pub fn put_object_at(
        &mut self,
        bucket: &str,
        key: &str,
        data: Vec<u8>,
        metadata: ObjectMetadata,
        modified: Timestamp,
    ) -> (r: StorageResult<PutObjectResult>)
        requires
            old(self).wf(),
        ensures
            final(self).wf(),
            err_of(r) == put_error(old(self)@, bucket@, key@),
            r is Err ==> final(self)@ == old(self)@,
            r matches Ok(p) ==> p.etag@ == etag_of(data@)
                && final(self)@ == put_outcome(old(self)@, bucket@, key@, data@, metadata@, modified),
    {
        validate_object_key(key)?;
        let bi = match self.find_bucket(bucket) {
            Some(i) => i,
            None => {
                proof { lemma_keyed_absent(self.buckets@, bucket_key(), bucket_val(), bucket@); }
                return Err(StorageError::BucketNotFound(String::from_str(bucket)));
            },
        };
        proof {
            lemma_keyed_lookup(self.buckets@, bucket_key(), bucket_val(), bi as int);
            lemma_sorted_objects_unique(self.buckets@[bi as int].objects@);
        }
        let ghost given = metadata@;
        let (metadata, etag) = crate::backend::finalize_metadata(metadata, data.as_slice(), modified);
        let obj = StoredObject { key: String::from_str(key), data, metadata };
        assert(obj_val()(obj) == StoredView { data: obj.data@, meta: put_meta(given, obj.data@, modified) });
        let ghost old_buckets = self.buckets@;
        let ghost old_entry = self.buckets@[bi as int];
        let ghost old_objs = old_entry.objects@;
        let pos = find_object(&self.buckets[bi].objects, key);
        let mut entry = self.buckets.remove(bi);
        assert(entry == old_entry);
        match pos {
            Ok(j) => {
                proof { lemma_keyed_update(old_objs, obj_key(), obj_val(), j as int, obj); }
                entry.objects.set(j, obj);
                proof {
                    assert(object_keys(entry.objects@) =~= object_keys(old_objs));
                }
            },
            Err(p) => {
                proof {
                    lemma_keyed_absent(old_objs, obj_key(), obj_val(), key@);
                    lemma_keyed_insert(old_objs, obj_key(), obj_val(), p as int, obj);
                }
                entry.objects.insert(p, obj);
                proof { lemma_insert_sorted(old_objs, p as int, obj); }
            },
        }
        let ghost new_entry = entry;
        self.buckets.insert(bi, entry);
        proof {
            assert(self.buckets@ =~= old_buckets.update(bi as int, new_entry));
            lemma_keyed_update(old_buckets, bucket_key(), bucket_val(), bi as int, new_entry);
            assert forall|i: int| 0 <= i < self.buckets@.len() implies objects_wf(#[trigger] self.buckets@[i].objects@) by {
                if i != bi {
                    assert(self.buckets@[i] == old_buckets[i]);
                }
            }
        }
        Ok(PutObjectResult { etag })
    }

    /// Stores `data` as object `key` of bucket `bucket`, modified now.
    pub fn put_object(&mut self, bucket: &str, key: &str, data: Vec<u8>, metadata: ObjectMetadata) -> (r: StorageResult<PutObjectResult>)
        requires
            old(self).wf(),
        ensures
            final(self).wf(),
            err_of(r) == put_error(old(self)@, bucket@, key@),
            r is Err ==> final(self)@ == old(self)@,
            r matches Ok(p) ==> p.etag@ == etag_of(data@)
                && final(self)@ == put_outcome(old(self)@, bucket@, key@, data@, metadata@,
                    final(self)@.buckets[bucket@].objects[key@].meta.last_modified),
    {
        let t = now();
        let r = self.put_object_at(bucket, key, data, metadata, t);
        proof {
            if r is Ok {
                assert(final(self)@.buckets[bucket@].objects[key@].meta.last_modified == t);
            }
        }
        r
    }

    /// Deletes object `key` of bucket `bucket`.
    pub fn delete_object(&mut self, bucket: &str, key: &str) -> (r: StorageResult<()>)
        requires
            old(self).wf(),
        ensures
            final(self).wf(),
            err_of(r) == get_error(old(self)@, bucket@, key@, None),
            r is Err ==> final(self)@ == old(self)@,
            r is Ok ==> final(self)@ == delete_outcome(old(self)@, bucket@, key@),
    {
        let bi = match self.find_bucket(bucket) {
            Some(i) => i,
            None => {
                proof { lemma_keyed_absent(self.buckets@, bucket_key(), bucket_val(), bucket@); }
                return Err(StorageError::BucketNotFound(String::from_str(bucket)));
            },
        };
        proof {
            lemma_keyed_lookup(self.buckets@, bucket_key(), bucket_val(), bi as int);
            lemma_sorted_objects_unique(self.buckets@[bi as int].objects@);
        }
        let oi = match find_object(&self.buckets[bi].objects, key) {
            Ok(j) => j,
            Err(_) => {
                proof { lemma_keyed_absent(self.buckets@[bi as int].objects@, obj_key(), obj_val(), key@); }
                return Err(StorageError::ObjectNotFound { bucket: String::from_str(bucket), key: String::from_str(key) });
            },
        };
        let ghost old_buckets = self.buckets@;
        let ghost old_objs = self.buckets@[bi as int].objects@;
        let mut entry = self.buckets.remove(bi);
        proof { lemma_keyed_remove(old_objs, obj_key(), obj_val(), oi as int); }
        entry.objects.remove(oi);
        proof { lemma_remove_sorted(old_objs, oi as int); }
        let ghost new_entry = entry;
        self.buckets.insert(bi, entry);
        proof {
            assert(self.buckets@ =~= old_buckets.update(bi as int, new_entry));
            lemma_keyed_update(old_buckets, bucket_key(), bucket_val(), bi as int, new_entry);
            assert forall|i: int| 0 <= i < self.buckets@.len() implies objects_wf(#[trigger] self.buckets@[i].objects@) by {
                if i != bi {
                    assert(self.buckets@[i] == old_buckets[i]);
                }
            }
        }
        Ok(())
    }
}


impl MemoryBackend {
    /// Lists the objects of bucket `bucket`: the keys selected by the prefix that the
    /// delimiter does not roll up, in ascending order, at most `max_keys` (1000 by default)
    /// of them, and the distinct rolled-up prefixes.
    pub fn list_objects(&self, bucket: &str, params: ListObjectsParams) -> (r: StorageResult<ListObjectsResult>)
        requires
            self.wf(),
        ensures
            err_of(r) == (if self@.buckets.dom().contains(bucket@) { None } else {
                Some(StorageErrorView::BucketNotFound(bucket@))
            }),
            r matches Ok(l) ==> listing_matches(l, self@.buckets[bucket@].objects, params),
    {
        let bi = match self.find_bucket(bucket) {
            Some(i) => i,
            None => {
                proof { lemma_keyed_absent(self.buckets@, bucket_key(), bucket_val(), bucket@); }
                return Err(StorageError::BucketNotFound(String::from_str(bucket)));
            },
        };
        proof {
            lemma_keyed_lookup(self.buckets@, bucket_key(), bucket_val(), bi as int);
            lemma_sorted_objects_unique(self.buckets@[bi as int].objects@);
        }
        Ok(list_sorted_objects(&self.buckets[bi].objects, params))
    }
}

/// The key is kept by the prefix filter.
pub open spec fn prefix_selects(prefix: Option<Seq<char>>, key: Seq<char>) -> bool {
    match prefix {
        Some(p) => is_prefix(p, key),
        None => true,
    }
}

/// Where the search for the delimiter starts: after the prefix.
pub open spec fn search_start(prefix: Option<Seq<char>>) -> int {
    match prefix {
        Some(p) => p.len() as int,
        None => 0,
    }
}

/// The prefix a key is rolled up into: the key up to and including the first
/// occurrence of the delimiter after the prefix.
pub open spec fn rolled_prefix(key: Seq<char>, prefix: Option<Seq<char>>, delimiter: Option<Seq<char>>) -> Option<Seq<char>> {
    match delimiter {
        None => None,
        Some(d) => match find_from(key, d, search_start(prefix)) {
            Some(i) => Some(key.subrange(0, i + d.len())),
            None => None,
        },
    }
}

/// The key is listed as an object: kept by the prefix and not rolled up.
pub open spec fn listed(key: Seq<char>, prefix: Option<Seq<char>>, delimiter: Option<Seq<char>>) -> bool {
    prefix_selects(prefix, key) && rolled_prefix(key, prefix, delimiter) is None
}

/// The keys a listing reports, in ascending order, before the limit is applied.
pub open spec fn listing_keys(
    objs: Map<Seq<char>, StoredView>,
    prefix: Option<Seq<char>>,
    delimiter: Option<Seq<char>>,
) -> Seq<Seq<char>> {
    sorted_seq_of(objs.dom().filter(|k: Seq<char>| listed(k, prefix, delimiter)))
}

/// The prefixes a listing reports.
pub open spec fn common_prefix_set(
    objs: Map<Seq<char>, StoredView>,
    prefix: Option<Seq<char>>,
    delimiter: Option<Seq<char>>,
) -> Set<Seq<char>> {
    Set::new(|cp: Seq<char>| exists|k: Seq<char>| #[trigger] objs.dom().contains(k) && prefix_selects(prefix, k)
        && rolled_prefix(k, prefix, delimiter) == Some(cp))
}

/// The limit on listed keys.
pub open spec fn max_keys_of(m: Option<usize>) -> int {
    match m {
        Some(n) => n as int,
        None => 1000,
    }
}

/// A listing entry reports a stored object.
pub open spec fn info_of(info: ObjectInfo, key: Seq<char>, s: StoredView) -> bool {
    &&& info.key@ == key
    &&& info.last_modified == s.meta.last_modified
    &&& info.etag@ == s.meta.etag
    &&& info.size == s.meta.content_length
    &&& info.storage_class@ == "STANDARD"@
}

/// A listing result reports the objects `objs` under `params`.
pub open spec fn listing_matches(l: ListObjectsResult, objs: Map<Seq<char>, StoredView>, params: ListObjectsParams) -> bool {
    let prefix = opt_view(params.prefix);
    let delimiter = opt_view(params.delimiter);
    let keys = listing_keys(objs, prefix, delimiter);
    let max = max_keys_of(params.max_keys);
    let t = opt_view(params.continuation_token);
    let start = first_after(keys, t);
    &&& l.objects@.len() == page_len(keys, t, max)
    &&& forall|i: int| 0 <= i < l.objects@.len()
        ==> info_of(#[trigger] l.objects@[i], keys[start + i], objs[keys[start + i]])
    &&& l.is_truncated == page_truncated(keys, t, max)
    &&& forall|i: int, j: int| 0 <= i < j < l.common_prefixes@.len() ==> (#[trigger] l.common_prefixes@[i])@ != (#[trigger] l.common_prefixes@[j])@
    &&& forall|cp: Seq<char>| common_prefix_set(objs, prefix, delimiter).contains(cp)
        <==> exists|i: int| 0 <= i < l.common_prefixes@.len() && (#[trigger] l.common_prefixes@[i])@ == cp
    &&& opt_view(l.next_continuation_token) == next_token(keys, t, max)
}

/// Some string of `v` reads `s`.
pub open spec fn string_in(v: Seq<String>, s: Seq<char>) -> bool {
    exists|i: int| 0 <= i < v.len() && (#[trigger] v[i])@ == s
}

/// One of the first `n` objects is kept by the prefix and rolled up into `cp`.
spec fn rolled_up_by_some(objs: Seq<StoredObject>, n: int, prefix: Option<Seq<char>>, delimiter: Option<Seq<char>>, cp: Seq<char>) -> bool {
    exists|q: int| 0 <= q < n && prefix_selects(prefix, (#[trigger] objs[q]).key@)
        && rolled_prefix(objs[q].key@, prefix, delimiter) == Some(cp)
}

/// How a listing treats a key: skipped by the prefix (`None`), listed (`Some(None)`),
/// or rolled up into the prefix that ends at index `e` (`Some(Some(e))`).
pub(crate) fn classify_key(
    kc: &Vec<char>,
    prefix_chars: &Option<Vec<char>>,
    delim_chars: &Option<Vec<char>>,
    Ghost(prefix): Ghost<Option<Seq<char>>>,
    Ghost(delimiter): Ghost<Option<Seq<char>>>,
) -> (r: Option<Option<usize>>)
    requires
        match prefix_chars { Some(p) => prefix == Some(p@), None => prefix is None },
        match delim_chars { Some(d) => delimiter == Some(d@), None => delimiter is None },
    ensures
        r is None <==> !prefix_selects(prefix, kc@),
        r matches Some(None) ==> rolled_prefix(kc@, prefix, delimiter) is None,
        r matches Some(Some(e)) ==> e <= kc@.len() && rolled_prefix(kc@, prefix, delimiter) == Some(kc@.subrange(0, e as int)),
{
    let start: usize = match prefix_chars {
        Some(p) => {
            if !crate::text::starts_with(kc.as_slice(), p.as_slice()) {
                return None;
            }
            p.len()
        },
        None => 0,
    };
    match delim_chars {
        Some(d) => match crate::text::find(kc.as_slice(), d.as_slice(), start) {
            Some(pos) => {
                proof { crate::text::lemma_find_from_bounds(kc@, d@, start as int); }
                Some(Some(pos + d.len()))
            },
            None => Some(None),
        },
        None => Some(None),
    }
}

/// Whether some string of `v` reads `s`.
pub(crate) fn contains_string(v: &Vec<String>, s: &String) -> (b: bool)
    ensures
        b == string_in(v@, s@),
{
    let mut i: usize = 0;
    while i < v.len()
        invariant
            i <= v@.len(),
            forall|j: int| 0 <= j < i ==> (#[trigger] v@[j])@ != s@,
        decreases v.len() - i,
    {
        if v[i] == *s {
            return true;
        }
        i = i + 1;
    }
    false
}

/// The characters of an optional string.
pub(crate) fn opt_chars(s: &Option<String>) -> (r: Option<Vec<char>>)
    ensures
        match r { Some(c) => opt_view(*s) == Some(c@), None => s is None },
{
    match s {
        Some(p) => Some(chars_of(p.as_str())),
        None => None,
    }
}

/// The listed objects of ascending objects, in order, with the indices they come from.
fn listed_objects(
    objs: &Vec<StoredObject>,
    prefix_chars: &Option<Vec<char>>,
    delim_chars: &Option<Vec<char>>,
    Ghost(prefix): Ghost<Option<Seq<char>>>,
    Ghost(delimiter): Ghost<Option<Seq<char>>>,
) -> (r: (Vec<ObjectInfo>, Ghost<Seq<int>>))
    requires
        keys_unique(objs@, obj_key()),
        match prefix_chars { Some(p) => prefix == Some(p@), None => prefix is None },
        match delim_chars { Some(d) => delimiter == Some(d@), None => delimiter is None },
    ensures
        r.0@.len() == r.1@.len(),
        forall|j: int| 0 <= j < r.1@.len() ==> 0 <= #[trigger] r.1@[j] < objs@.len(),
        forall|j: int, k: int| 0 <= j < k < r.1@.len() ==> #[trigger] r.1@[j] < #[trigger] r.1@[k],
        forall|j: int| 0 <= j < r.1@.len() ==> info_of(#[trigger] r.0@[j], objs@[r.1@[j]].key@, obj_val()(objs@[r.1@[j]])),
        forall|j: int| 0 <= j < r.1@.len() ==> listed(objs@[#[trigger] r.1@[j]].key@, prefix, delimiter),
        forall|q: int| 0 <= q < objs@.len() && listed((#[trigger] objs@[q]).key@, prefix, delimiter)
            ==> exists|j: int| 0 <= j < r.1@.len() && r.1@[j] == q,
{
    let mut out: Vec<ObjectInfo> = Vec::new();
    let ghost mut idx: Seq<int> = Seq::empty();
    let mut i: usize = 0;
    while i < objs.len()
        invariant
            match prefix_chars { Some(p) => prefix == Some(p@), None => prefix is None },
            match delim_chars { Some(d) => delimiter == Some(d@), None => delimiter is None },
            i <= objs@.len(),
            out@.len() == idx.len(),
            forall|j: int| 0 <= j < idx.len() ==> 0 <= #[trigger] idx[j] < i,
            forall|j: int, k: int| 0 <= j < k < idx.len() ==> #[trigger] idx[j] < #[trigger] idx[k],
            forall|j: int| 0 <= j < idx.len() ==> info_of(#[trigger] out@[j], objs@[idx[j]].key@, obj_val()(objs@[idx[j]])),
            forall|j: int| 0 <= j < idx.len() ==> listed(objs@[#[trigger] idx[j]].key@, prefix, delimiter),
            forall|q: int| 0 <= q < i && listed((#[trigger] objs@[q]).key@, prefix, delimiter)
                ==> exists|j: int| 0 <= j < idx.len() && idx[j] == q,
        decreases objs.len() - i,
    {
        let ghost q = i as int;
        let kc = chars_of(objs[i].key.as_str());
        let class = classify_key(&kc, prefix_chars, delim_chars, Ghost(prefix), Ghost(delimiter));
        if let Some(None) = class {
            let info = ObjectInfo {
                key: objs[i].key.clone(),
                last_modified: objs[i].metadata.last_modified,
                etag: objs[i].metadata.etag.clone(),
                size: objs[i].metadata.content_length,
                storage_class: String::from_str("STANDARD"),
            };
            let ghost prev_out = out@;
            let ghost prev_idx = idx;
            out.push(info);
            proof {
                idx = idx.push(q);
                assert forall|j: int| 0 <= j < idx.len() implies info_of(#[trigger] out@[j], objs@[idx[j]].key@, obj_val()(objs@[idx[j]])) by {
                    if j < idx.len() - 1 {
                        assert(out@[j] == prev_out[j]);
                        assert(idx[j] == prev_idx[j]);
                    }
                }
                assert forall|q2: int| 0 <= q2 < i + 1 && listed((#[trigger] objs@[q2]).key@, prefix, delimiter)
                    implies exists|j: int| 0 <= j < idx.len() && idx[j] == q2 by {
                    if q2 == q {
                        assert(idx[prev_idx.len() as int] == q);
                    } else {
                        let j = choose|j: int| 0 <= j < prev_idx.len() && prev_idx[j] == q2;
                        assert(idx[j] == prev_idx[j]);
                    }
                }
            }
        } else {
            assert(!listed(objs@[q].key@, prefix, delimiter));
        }
        i = i + 1;
    }
    (out, Ghost(idx))
}

/// The distinct prefixes that ascending objects are rolled up into.
fn rolled_prefixes(
    objs: &Vec<StoredObject>,
    prefix_chars: &Option<Vec<char>>,
    delim_chars: &Option<Vec<char>>,
    Ghost(prefix): Ghost<Option<Seq<char>>>,
    Ghost(delimiter): Ghost<Option<Seq<char>>>,
) -> (cps: Vec<String>)
    requires
        match prefix_chars { Some(p) => prefix == Some(p@), None => prefix is None },
        match delim_chars { Some(d) => delimiter == Some(d@), None => delimiter is None },
    ensures
        forall|a: int, b: int| 0 <= a < b < cps@.len() ==> (#[trigger] cps@[a])@ != (#[trigger] cps@[b])@,
        forall|a: int| 0 <= a < cps@.len() ==> rolled_up_by_some(objs@, objs@.len() as int, prefix, delimiter, (#[trigger] cps@[a])@),
        forall|q: int| 0 <= q < objs@.len() && prefix_selects(prefix, (#[trigger] objs@[q]).key@)
            && rolled_prefix(objs@[q].key@, prefix, delimiter) is Some
            ==> string_in(cps@, rolled_prefix(objs@[q].key@, prefix, delimiter)->0),
{
    let mut cps: Vec<String> = Vec::new();
    let mut i: usize = 0;
    while i < objs.len()
        invariant
            match prefix_chars { Some(p) => prefix == Some(p@), None => prefix is None },
            match delim_chars { Some(d) => delimiter == Some(d@), None => delimiter is None },
            i <= objs@.len(),
            forall|a: int, b: int| 0 <= a < b < cps@.len() ==> (#[trigger] cps@[a])@ != (#[trigger] cps@[b])@,
            forall|a: int| 0 <= a < cps@.len() ==> rolled_up_by_some(objs@, i as int, prefix, delimiter, (#[trigger] cps@[a])@),
            forall|q: int| 0 <= q < i && prefix_selects(prefix, (#[trigger] objs@[q]).key@)
                && rolled_prefix(objs@[q].key@, prefix, delimiter) is Some
                ==> string_in(cps@, rolled_prefix(objs@[q].key@, prefix, delimiter)->0),
        decreases objs.len() - i,
    {
        let ghost q = i as int;
        let kc = chars_of(objs[i].key.as_str());
        let class = classify_key(&kc, prefix_chars, delim_chars, Ghost(prefix), Ghost(delimiter));
        let ghost prev_cps = cps@;
        if let Some(Some(end)) = class {
            let cp = crate::text::string_from_chars(crate::text::prefix_slice(kc.as_slice(), end));
            assert(rolled_prefix(objs@[q].key@, prefix, delimiter) == Some(cp@));
            if !contains_string(&cps, &cp) {
                cps.push(cp);
            }
            proof {
                assert forall|a: int| 0 <= a < cps@.len() implies rolled_up_by_some(objs@, i + 1, prefix, delimiter, (#[trigger] cps@[a])@) by {
                    if a < prev_cps.len() {
                        assert(cps@[a] == prev_cps[a]);
                        let w = choose|w: int| 0 <= w < i && prefix_selects(prefix, (#[trigger] objs@[w]).key@)
                            && rolled_prefix(objs@[w].key@, prefix, delimiter) == Some(prev_cps[a]@);
                        assert(0 <= w < i + 1);
                    } else {
                        assert(cps@[a]@ == cp@);
                        assert(prefix_selects(prefix, objs@[q].key@));
                    }
                }
                assert forall|q2: int| 0 <= q2 < i + 1 && prefix_selects(prefix, (#[trigger] objs@[q2]).key@)
                    && rolled_prefix(objs@[q2].key@, prefix, delimiter) is Some
                    implies string_in(cps@, rolled_prefix(objs@[q2].key@, prefix, delimiter)->0) by {
                    if q2 == q {
                        if cps@.len() > prev_cps.len() {
                            assert(cps@[prev_cps.len() as int]@ == cp@);
                        }
                    } else {
                        let a = choose|a: int| 0 <= a < prev_cps.len() && (#[trigger] prev_cps[a])@ == rolled_prefix(objs@[q2].key@, prefix, delimiter)->0;
                        assert(cps@[a] == prev_cps[a]);
                    }
                }
                assert forall|a: int, b: int| 0 <= a < b < cps@.len() implies (#[trigger] cps@[a])@ != (#[trigger] cps@[b])@ by {
                    if b == prev_cps.len() {
                        assert(cps@[a] == prev_cps[a]);
                    } else {
                        assert(cps@[a] == prev_cps[a] && cps@[b] == prev_cps[b]);
                    }
                }
            }
        } else {
            proof {
                assert forall|a: int| 0 <= a < cps@.len() implies rolled_up_by_some(objs@, i + 1, prefix, delimiter, (#[trigger] cps@[a])@) by {
                    let w = choose|w: int| 0 <= w < i && prefix_selects(prefix, (#[trigger] objs@[w]).key@)
                        && rolled_prefix(objs@[w].key@, prefix, delimiter) == Some(cps@[a]@);
                    assert(0 <= w < i + 1);
                }
            }
        }
        i = i + 1;
    }
    cps
}

/// The keys picked by ascending indices into ascending objects, when they are exactly the
/// listed keys, are the listing's keys.
proof fn lemma_listing_keys(
    objs: Seq<StoredObject>,
    idx: Seq<int>,
    prefix: Option<Seq<char>>,
    delimiter: Option<Seq<char>>,
)
    requires
        objects_wf(objs),
        keys_unique(objs, obj_key()),
        forall|j: int| 0 <= j < idx.len() ==> 0 <= #[trigger] idx[j] < objs.len(),
        forall|j: int, k: int| 0 <= j < k < idx.len() ==> #[trigger] idx[j] < #[trigger] idx[k],
        forall|j: int| 0 <= j < idx.len() ==> listed(objs[#[trigger] idx[j]].key@, prefix, delimiter),
        forall|q: int| 0 <= q < objs.len() && listed((#[trigger] objs[q]).key@, prefix, delimiter)
            ==> exists|j: int| 0 <= j < idx.len() && idx[j] == q,
    ensures
        listing_keys(keyed_map(objs, obj_key(), obj_val()), prefix, delimiter)
            == idx.map_values(|j: int| objs[j].key@),
{
    let m = keyed_map(objs, obj_key(), obj_val());
    let keys = idx.map_values(|j: int| objs[j].key@);
    assert forall|a: int, b: int| 0 <= a < b < keys.len() implies lex_lt(#[trigger] keys[a], #[trigger] keys[b]) by {
        let ks = object_keys(objs);
        assert(ks[idx[a]] == objs[idx[a]].key@ && ks[idx[b]] == objs[idx[b]].key@);
    }
    let fs = m.dom().filter(|k: Seq<char>| listed(k, prefix, delimiter));
    assert forall|k: Seq<char>| keys.to_set().contains(k) <==> fs.contains(k) by {
        if keys.to_set().contains(k) {
            let a = choose|a: int| 0 <= a < keys.len() && keys[a] == k;
            lemma_keyed_lookup(objs, obj_key(), obj_val(), idx[a]);
        }
        if fs.contains(k) {
            let q = choose|q: int| 0 <= q < objs.len() && obj_key()(#[trigger] objs[q]) == k;
            let j = choose|j: int| 0 <= j < idx.len() && idx[j] == q;
            assert(keys[j] == k);
            assert(keys.contains(k));
        }
    }
    assert(keys.to_set() =~= fs);
    crate::keyed::lemma_sorted_seq_of(keys, fs);
}

/// The rolled-up prefixes collected from all objects are the listing's common prefixes.
proof fn lemma_common_prefixes(
    objs: Seq<StoredObject>,
    cps: Seq<String>,
    prefix: Option<Seq<char>>,
    delimiter: Option<Seq<char>>,
)
    requires
        keys_unique(objs, obj_key()),
        forall|a: int| 0 <= a < cps.len() ==> rolled_up_by_some(objs, objs.len() as int, prefix, delimiter, (#[trigger] cps[a])@),
        forall|q: int| 0 <= q < objs.len() && prefix_selects(prefix, (#[trigger] objs[q]).key@)
            && rolled_prefix(objs[q].key@, prefix, delimiter) is Some
            ==> string_in(cps, rolled_prefix(objs[q].key@, prefix, delimiter)->0),
    ensures
        forall|cp: Seq<char>| common_prefix_set(keyed_map(objs, obj_key(), obj_val()), prefix, delimiter).contains(cp)
            <==> exists|i: int| 0 <= i < cps.len() && (#[trigger] cps[i])@ == cp,
{
    let m = keyed_map(objs, obj_key(), obj_val());
    assert forall|cp: Seq<char>| common_prefix_set(m, prefix, delimiter).contains(cp)
        <==> exists|i: int| 0 <= i < cps.len() && (#[trigger] cps[i])@ == cp by {
        if common_prefix_set(m, prefix, delimiter).contains(cp) {
            let k = choose|k: Seq<char>| #[trigger] m.dom().contains(k) && prefix_selects(prefix, k)
                && rolled_prefix(k, prefix, delimiter) == Some(cp);
            let q = choose|q: int| 0 <= q < objs.len() && obj_key()(#[trigger] objs[q]) == k;
            assert(prefix_selects(prefix, objs[q].key@));
            assert(string_in(cps, cp));
        }
        if exists|i: int| 0 <= i < cps.len() && (#[trigger] cps[i])@ == cp {
            let a = choose|a: int| 0 <= a < cps.len() && (#[trigger] cps[a])@ == cp;
            assert(rolled_up_by_some(objs, objs.len() as int, prefix, delimiter, cps[a]@));
            let q = choose|q: int| 0 <= q < objs.len() && prefix_selects(prefix, (#[trigger] objs[q]).key@)
                && rolled_prefix(objs[q].key@, prefix, delimiter) == Some(cps[a]@);
            lemma_keyed_lookup(objs, obj_key(), obj_val(), q);
            assert(m.dom().contains(objs[q].key@));
        }
    }
}

/// The listing of ascending objects.
fn list_sorted_objects(objs: &Vec<StoredObject>, params: ListObjectsParams) -> (l: ListObjectsResult)
    requires
        objects_wf(objs@),
        keys_unique(objs@, obj_key()),
    ensures
        listing_matches(l, keyed_map(objs@, obj_key(), obj_val()), params),
{
    let ghost m = keyed_map(objs@, obj_key(), obj_val());
    let ghost prefix = opt_view(params.prefix);
    let ghost delimiter = opt_view(params.delimiter);
    let prefix_chars = opt_chars(&params.prefix);
    let delim_chars = opt_chars(&params.delimiter);
    let (mut out, Ghost(idx)) = listed_objects(objs, &prefix_chars, &delim_chars, Ghost(prefix), Ghost(delimiter));
    let cps = rolled_prefixes(objs, &prefix_chars, &delim_chars, Ghost(prefix), Ghost(delimiter));
    proof {
        lemma_listing_keys(objs@, idx, prefix, delimiter);
        lemma_common_prefixes(objs@, cps@, prefix, delimiter);
        let keys = listing_keys(m, prefix, delimiter);
        assert forall|j: int| 0 <= j < out@.len() implies info_of(#[trigger] out@[j], keys[j], m[keys[j]]) by {
            lemma_keyed_lookup(objs@, obj_key(), obj_val(), idx[j]);
        }
    }
    let max: usize = match params.max_keys {
        Some(n) => n,
        None => 1000,
    };
    let ghost keys = listing_keys(m, prefix, delimiter);
    let ghost full = out@;
    proof {
        assert forall|j: int| 0 <= j < keys.len() implies (#[trigger] full[j]).key@ == keys[j] by {
            assert(info_of(full[j], keys[j], m[keys[j]]));
        }
    }
    let (page, is_truncated, next) = take_page(out, Ghost(keys), &params.continuation_token, max);
    proof {
        let t = opt_view(params.continuation_token);
        let start = first_after(keys, t);
        lemma_first_after_bounds(keys, t);
        assert forall|j: int| 0 <= j < page@.len() implies info_of(#[trigger] page@[j], keys[start + j], m[keys[start + j]]) by {
            assert(page@[j] == full[start + j]);
        }
    }
    ListObjectsResult {
        objects: page,
        common_prefixes: cps,
        is_truncated,
        next_continuation_token: next,
    }
}

/// The metadata a stored object gets: the given content type and user metadata,
/// the length and ETag of its bytes, and the time it was stored.
pub open spec fn put_meta(meta: MetaView, data: Seq<u8>, modified: Timestamp) -> MetaView {
    MetaView {
        content_type: meta.content_type,
        content_length: data.len() as u64,
        etag: etag_of(data),
        last_modified: modified,
        user: meta.user,
    }
}

/// Why a store of object `key` into bucket `bucket` fails, if it does: an invalid key first,
/// then a missing bucket.
pub open spec fn put_error(s: BackendView, bucket: Seq<char>, key: Seq<char>) -> Option<StorageErrorView> {
    if !valid_object_key(key) {
        Some(StorageErrorView::InvalidObjectKey(key))
    } else if !s.buckets.dom().contains(bucket) {
        Some(StorageErrorView::BucketNotFound(bucket))
    } else {
        None
    }
}

/// The backend after a successful store.
pub open spec fn put_outcome(
    s: BackendView,
    bucket: Seq<char>,
    key: Seq<char>,
    data: Seq<u8>,
    meta: MetaView,
    modified: Timestamp,
) -> BackendView {
    BackendView {
        buckets: s.buckets.insert(bucket, BucketView {
            creation_date: s.buckets[bucket].creation_date,
            objects: s.buckets[bucket].objects.insert(key, StoredView { data, meta: put_meta(meta, data, modified) }),
        }),
        uploads: s.uploads,
    }
}

/// Why a read of object `key` of bucket `bucket` fails, if it does: a missing bucket,
/// a missing object, then a range that cannot be served.
pub open spec fn get_error(s: BackendView, bucket: Seq<char>, key: Seq<char>, range: Option<Range>) -> Option<StorageErrorView> {
    if !s.buckets.dom().contains(bucket) {
        Some(StorageErrorView::BucketNotFound(bucket))
    } else if !s.buckets[bucket].objects.dom().contains(key) {
        Some(StorageErrorView::ObjectNotFound { bucket, key })
    } else {
        match range {
            Some(rg) => if range_ok(rg, s.buckets[bucket].objects[key].data.len()) {
                None
            } else {
                Some(StorageErrorView::InvalidRange(range_message(rg, s.buckets[bucket].objects[key].data.len())))
            },
            None => None,
        }
    }
}

/// The backend after a successful delete.
pub open spec fn delete_outcome(s: BackendView, bucket: Seq<char>, key: Seq<char>) -> BackendView {
    BackendView {
        buckets: s.buckets.insert(bucket, BucketView {
            creation_date: s.buckets[bucket].creation_date,
            objects: s.buckets[bucket].objects.remove(key),
        }),
        uploads: s.uploads,
    }
}

/// A copy of object metadata.
pub fn copy_metadata(m: &ObjectMetadata) -> (r: ObjectMetadata)
    ensures
        r@ == m@,
        r.metadata@ == m.metadata@,
{
    let content_type = match &m.content_type {
        Some(c) => Some(c.clone()),
        None => None,
    };
    let mut pairs: Vec<(String, String)> = Vec::new();
    let mut i: usize = 0;
    while i < m.metadata.len()
        invariant
            i <= m.metadata@.len(),
            pairs@ == m.metadata@.subrange(0, i as int),
        decreases m.metadata.len() - i,
    {
        let p = (m.metadata[i].0.clone(), m.metadata[i].1.clone());
        pairs.push(p);
        i = i + 1;
        assert(pairs@ =~= m.metadata@.subrange(0, i as int));
    }
    assert(m.metadata@.subrange(0, m.metadata@.len() as int) =~= m.metadata@);
    ObjectMetadata {
        content_type,
        content_length: m.content_length,
        etag: m.etag.clone(),
        last_modified: m.last_modified,
        metadata: pairs,
    }
}

/// Where `key` stands among ascending objects: `Ok` with its index, or `Err` with the
/// index before which it would be inserted.
fn find_object(objs: &Vec<StoredObject>, key: &str) -> (r: Result<usize, usize>)
    requires
        objects_wf(objs@),
    ensures
        r matches Ok(j) ==> j < objs@.len() && objs@[j as int].key@ == key@,
        r matches Err(p) ==> p <= objs@.len()
            && (forall|i: int| 0 <= i < p ==> lex_lt((#[trigger] objs@[i]).key@, key@))
            && (forall|i: int| p <= i < objs@.len() ==> lex_lt(key@, (#[trigger] objs@[i]).key@))
            && !has_key(objs@, obj_key(), key@),
{
    let kc = chars_of(key);
    let mut i: usize = 0;
    while i < objs.len()
        invariant
            objects_wf(objs@),
            kc@ == key@,
            i <= objs@.len(),
            forall|j: int| 0 <= j < i ==> lex_lt((#[trigger] objs@[j]).key@, key@),
        decreases objs.len() - i,
    {
        let oc = chars_of(objs[i].key.as_str());
        if lex_less(kc.as_slice(), oc.as_slice()) {
            proof {
                assert forall|j: int| i <= j < objs@.len() implies lex_lt(key@, (#[trigger] objs@[j]).key@) by {
                    if j > i {
                        let ks = object_keys(objs@);
                        assert(ks[i as int] == objs@[i as int].key@ && ks[j] == objs@[j].key@);
                        assert(lex_lt(ks[i as int], ks[j]));
                        lemma_lex_transitive(key@, objs@[i as int].key@, objs@[j].key@);
                    }
                }
                assert forall|j: int| 0 <= j < objs@.len() implies obj_key()(#[trigger] objs@[j]) != key@ by {
                    if j < i {
                        lemma_lex_irreflexive(key@);
                    } else {
                        lemma_lex_irreflexive(key@);
                    }
                }
            }
            return Err(i);
        }
        if !lex_less(oc.as_slice(), kc.as_slice()) {
            proof {
                if objs@[i as int].key@ != key@ {
                    lemma_lex_total(objs@[i as int].key@, key@);
                }
            }
            return Ok(i);
        }
        i = i + 1;
    }
    proof {
        assert forall|j: int| 0 <= j < objs@.len() implies obj_key()(#[trigger] objs@[j]) != key@ by {
            lemma_lex_irreflexive(key@);
        }
    }
    Err(i)
}

/// Inserting an object at its place keeps the keys ascending.
proof fn lemma_insert_sorted(objs: Seq<StoredObject>, p: int, obj: StoredObject)
    requires
        objects_wf(objs),
        0 <= p <= objs.len(),
        forall|i: int| 0 <= i < p ==> lex_lt((#[trigger] objs[i]).key@, obj.key@),
        forall|i: int| p <= i < objs.len() ==> lex_lt(obj.key@, (#[trigger] objs[i]).key@),
    ensures
        objects_wf(objs.insert(p, obj)),
{
    let t = objs.insert(p, obj);
    let ks = object_keys(objs);
    let kt = object_keys(t);
    assert forall|a: int, b: int| 0 <= a < b < kt.len() implies lex_lt(#[trigger] kt[a], #[trigger] kt[b]) by {
        assert(kt[a] == t[a].key@ && kt[b] == t[b].key@);
        if a < p && b < p {
            assert(t[a] == objs[a] && t[b] == objs[b]);
            assert(ks[a] == objs[a].key@ && ks[b] == objs[b].key@);
        } else if a < p && b == p {
            assert(t[a] == objs[a]);
        } else if a < p {
            assert(t[a] == objs[a] && t[b] == objs[b - 1]);
            assert(ks[a] == objs[a].key@ && ks[b - 1] == objs[b - 1].key@);
        } else if a == p {
            assert(t[b] == objs[b - 1]);
        } else {
            assert(t[a] == objs[a - 1] && t[b] == objs[b - 1]);
            assert(ks[a - 1] == objs[a - 1].key@ && ks[b - 1] == objs[b - 1].key@);
        }
    }
}

/// Removing an object keeps the keys ascending.
proof fn lemma_remove_sorted(objs: Seq<StoredObject>, i: int)
    requires
        objects_wf(objs),
        0 <= i < objs.len(),
    ensures
        objects_wf(objs.remove(i)),
{
    let t = objs.remove(i);
    let ks = object_keys(objs);
    let kt = object_keys(t);
    assert forall|a: int, b: int| 0 <= a < b < kt.len() implies lex_lt(#[trigger] kt[a], #[trigger] kt[b]) by {
        let a2 = if a < i { a } else { a + 1 };
        let b2 = if b < i { b } else { b + 1 };
        assert(t[a] == objs[a2] && t[b] == objs[b2]);
        assert(kt[a] == ks[a2] && kt[b] == ks[b2]);
    }
}

/// Why a copy fails, if it does: the read of the source first, then the store of the destination.
pub open spec fn copy_error(
    s: BackendView,
    src_bucket: Seq<char>,
    src_key: Seq<char>,
    dest_bucket: Seq<char>,
    dest_key: Seq<char>,
) -> Option<StorageErrorView> {
    match get_error(s, src_bucket, src_key, None) {
        Some(e) => Some(e),
        None => put_error(s, dest_bucket, dest_key),
    }
}

/// The backend with upload `id` removed.
pub open spec fn without_upload(s: BackendView, id: Seq<char>) -> BackendView {
    BackendView { buckets: s.buckets, uploads: s.uploads.remove(id) }
}

/// The first part named in `parts` (in their order) that `have` lacks.
pub open spec fn first_missing(parts: Seq<CompletedPart>, have: Map<u32, Seq<u8>>) -> Option<u32>
    decreases parts.len(),
{
    if parts.len() == 0 {
        None
    } else {
        match first_missing(parts.drop_last(), have) {
            Some(n) => Some(n),
            None => if have.dom().contains(parts.last().part_number) {
                None
            } else {
                Some(parts.last().part_number)
            },
        }
    }
}

/// The bytes of the named parts, concatenated in the order they are named.
pub open spec fn concat_parts(parts: Seq<CompletedPart>, have: Map<u32, Seq<u8>>) -> Seq<u8>
    decreases parts.len(),
{
    if parts.len() == 0 {
        Seq::empty()
    } else {
        concat_parts(parts.drop_last(), have) + have[parts.last().part_number]
    }
}

/// The message of the error for a missing part.
pub open spec fn missing_part_message(n: u32) -> Seq<char> {
    "Part "@ + crate::text::decimal(n as nat) + " not found"@
}

/// The message of the error for an unknown upload id.
pub open spec fn upload_not_found() -> StorageErrorView {
    StorageErrorView::InternalError("Upload not found"@)
}

/// The error `InternalError("Upload not found")`.
fn upload_not_found_error() -> (e: StorageError)
    ensures
        e@ == upload_not_found(),
{
    StorageError::InternalError(String::from_str("Upload not found"))
}

/// Where part `n` stands among parts in ascending number order: `Ok` with its index,
/// or `Err` with the index before which it would be inserted.
fn find_part(parts: &Vec<UploadedPart>, n: u32) -> (r: Result<usize, usize>)
    requires
        parts_wf(parts@),
    ensures
        r matches Ok(j) ==> j < parts@.len() && parts@[j as int].info.part_number == n,
        r matches Err(p) ==> p <= parts@.len()
            && (forall|i: int| 0 <= i < p ==> (#[trigger] parts@[i]).info.part_number < n)
            && (forall|i: int| p <= i < parts@.len() ==> n < (#[trigger] parts@[i]).info.part_number)
            && !has_key(parts@, part_key(), n),
{
    let mut i: usize = 0;
    while i < parts.len()
        invariant
            parts_wf(parts@),
            i <= parts@.len(),
            forall|j: int| 0 <= j < i ==> (#[trigger] parts@[j]).info.part_number < n,
        decreases parts.len() - i,
    {
        let m = parts[i].info.part_number;
        if m == n {
            return Ok(i);
        }
        if n < m {
            proof {
                assert forall|j: int| i <= j < parts@.len() implies n < (#[trigger] parts@[j]).info.part_number by {
                    if j > i {
                        assert(parts@[i as int].info.part_number < parts@[j].info.part_number);
                    }
                }
            }
            return Err(i);
        }
        i = i + 1;
    }
    Err(i)
}

/// A copy of a part's information.
fn copy_part_info(p: &PartInfo) -> (r: PartInfo)
    ensures
        r.part_number == p.part_number,
        r.etag@ == p.etag@,
        r.size == p.size,
{
    PartInfo { part_number: p.part_number, etag: p.etag.clone(), size: p.size }
}

/// `uuid::Uuid::new_v4().to_string()` from `uuid`: a fresh random version-4 UUID in its
/// hyphenated text form. Which identifier comes back is chance and is not stated; its form
/// is: lower-case hex digits in groups of 8-4-4-4-12, version digit `4`, variant digit
/// `8`, `9`, `a` or `b` (`new_v4` sets those bits; `Display` writes lower-case hex).
#[verifier::external_body]
pub(crate) fn new_uuid() -> (s: String)
    ensures
        crate::digest::hyphenated_uuid_text(s@),
{
    uuid::Uuid::new_v4().to_string()
}

impl MemoryBackend {
    /// Copies object `src_key` of bucket `src_bucket` to `dest_key` of bucket `dest_bucket`,
    /// with the source's bytes and metadata, modified at `modified`.
    pub fn copy_object_at(
        &mut self,
        src_bucket: &str,
        src_key: &str,
        dest_bucket: &str,
        dest_key: &str,
        modified: Timestamp,
    ) -> (r: StorageResult<CopyObjectResult>)
        requires
            old(self).wf(),
        ensures
            final(self).wf(),
            err_of(r) == copy_error(old(self)@, src_bucket@, src_key@, dest_bucket@, dest_key@),
            r is Err ==> final(self)@ == old(self)@,
            r matches Ok(c) ==> {
                let src = old(self)@.buckets[src_bucket@].objects[src_key@];
                &&& c.etag@ == etag_of(src.data)
                &&& final(self)@ == put_outcome(old(self)@, dest_bucket@, dest_key@, src.data, src.meta, modified)
            },
    {
        let source = self.get_object(src_bucket, src_key, None)?;
        let put = self.put_object_at(dest_bucket, dest_key, source.data, source.metadata, modified)?;
        Ok(CopyObjectResult { etag: put.etag })
    }

    /// Copies an object, modified now.
    pub fn copy_object(
        &mut self,
        src_bucket: &str,
        src_key: &str,
        dest_bucket: &str,
        dest_key: &str,
    ) -> (r: StorageResult<CopyObjectResult>)
        requires
            old(self).wf(),
        ensures
            final(self).wf(),
            err_of(r) == copy_error(old(self)@, src_bucket@, src_key@, dest_bucket@, dest_key@),
            r is Err ==> final(self)@ == old(self)@,
            r matches Ok(c) ==> {
                let src = old(self)@.buckets[src_bucket@].objects[src_key@];
                &&& c.etag@ == etag_of(src.data)
                &&& final(self)@ == put_outcome(old(self)@, dest_bucket@, dest_key@, src.data, src.meta,
                    final(self)@.buckets[dest_bucket@].objects[dest_key@].meta.last_modified)
            },
    {
        let t = now();
        let r = self.copy_object_at(src_bucket, src_key, dest_bucket, dest_key, t);
        proof {
            if r is Ok {
                assert(final(self)@.buckets[dest_bucket@].objects[dest_key@].meta.last_modified == t);
            }
        }
        r
    }

    /// Starts a multipart upload of object `key` into bucket `bucket` under the id `upload_id`,
    /// replacing any upload of that id.
    pub fn create_multipart_upload_with_id(
        &mut self,
        bucket: &str,
        key: &str,
        metadata: ObjectMetadata,
        upload_id: String,
    ) -> (r: StorageResult<String>)
        requires
            old(self).wf(),
        ensures
            final(self).wf(),
            r is Ok <==> old(self)@.buckets.dom().contains(bucket@),
            r is Err ==> err_of(r) == Some(StorageErrorView::BucketNotFound(bucket@)) && final(self)@ == old(self)@,
            r matches Ok(id) ==> id@ == upload_id@ && final(self)@ == (BackendView {
                buckets: old(self)@.buckets,
                uploads: old(self)@.uploads.insert(upload_id@, UploadView {
                    bucket: bucket@,
                    key: key@,
                    meta: metadata@,
                    parts: Map::empty(),
                }),
            }),
    {
        match self.find_bucket(bucket) {
            Some(i) => {
                proof { lemma_keyed_lookup(self.buckets@, bucket_key(), bucket_val(), i as int); }
            },
            None => {
                proof { lemma_keyed_absent(self.buckets@, bucket_key(), bucket_val(), bucket@); }
                return Err(StorageError::BucketNotFound(String::from_str(bucket)));
            },
        }
        let upload = MultipartUpload {
            bucket: String::from_str(bucket),
            key: String::from_str(key),
            upload_id: upload_id.clone(),
            metadata,
            parts: Vec::new(),
        };
        proof {
            assert(keyed_map(upload.parts@, part_key(), part_val()) =~= Map::<u32, Seq<u8>>::empty());
        }
        let ghost old_uploads = self.uploads@;
        match self.find_upload(upload_id.as_str()) {
            Some(j) => {
                proof { lemma_keyed_update(old_uploads, upload_key(), upload_val(), j as int, upload); }
                self.uploads.set(j, upload);
                proof {
                    assert forall|i: int| 0 <= i < self.uploads@.len() implies parts_wf(#[trigger] self.uploads@[i].parts@) by {
                        if i != j {
                            assert(self.uploads@[i] == old_uploads[i]);
                        }
                    }
                }
            },
            None => {
                proof { lemma_keyed_push(old_uploads, upload_key(), upload_val(), upload); }
                self.uploads.push(upload);
                proof {
                    assert forall|i: int| 0 <= i < self.uploads@.len() implies parts_wf(#[trigger] self.uploads@[i].parts@) by {
                        if i < old_uploads.len() {
                            assert(self.uploads@[i] == old_uploads[i]);
                        }
                    }
                }
            },
        }
        Ok(upload_id)
    }

    /// Starts a multipart upload of object `key` into bucket `bucket` under a fresh random id.
    pub fn create_multipart_upload(&mut self, bucket: &str, key: &str, metadata: ObjectMetadata) -> (r: StorageResult<String>)
        requires
            old(self).wf(),
        ensures
            final(self).wf(),
            r is Ok <==> old(self)@.buckets.dom().contains(bucket@),
            r is Err ==> err_of(r) == Some(StorageErrorView::BucketNotFound(bucket@)) && final(self)@ == old(self)@,
            r matches Ok(id) ==> crate::digest::hyphenated_uuid_text(id@) && final(self)@ == (BackendView {
                buckets: old(self)@.buckets,
                uploads: old(self)@.uploads.insert(id@, UploadView {
                    bucket: bucket@,
                    key: key@,
                    meta: metadata@,
                    parts: Map::empty(),
                }),
            }),
    {
        match self.find_bucket(bucket) {
            Some(i) => {
                proof { lemma_keyed_lookup(self.buckets@, bucket_key(), bucket_val(), i as int); }
            },
            None => {
                proof { lemma_keyed_absent(self.buckets@, bucket_key(), bucket_val(), bucket@); }
                return Err(StorageError::BucketNotFound(String::from_str(bucket)));
            },
        }
        let id = new_uuid();
        self.create_multipart_upload_with_id(bucket, key, metadata, id)
    }

    /// Stores `data` as part `part_number` of upload `upload_id`, replacing a part of that number.
    pub fn upload_part(
        &mut self,
        bucket: &str,
        key: &str,
        upload_id: &str,
        part_number: u32,
        data: Vec<u8>,
    ) -> (r: StorageResult<PartInfo>)
        requires
            old(self).wf(),
        ensures
            final(self).wf(),
            r is Ok <==> old(self)@.uploads.dom().contains(upload_id@),
            r is Err ==> err_of(r) == Some(upload_not_found()) && final(self)@ == old(self)@,
            r matches Ok(p) ==> {
                let u = old(self)@.uploads[upload_id@];
                &&& p.part_number == part_number
                &&& p.etag@ == etag_of(data@)
                &&& p.size == data@.len()
                &&& final(self)@ == (BackendView {
                    buckets: old(self)@.buckets,
                    uploads: old(self)@.uploads.insert(upload_id@, UploadView {
                        parts: u.parts.insert(part_number, data@),
                        ..u
                    }),
                })
            },
    {
        let etag = calculate_etag(data.as_slice());
        let size = data.len() as u64;
        let ui = match self.find_upload(upload_id) {
            Some(j) => j,
            None => {
                proof { lemma_keyed_absent(self.uploads@, upload_key(), upload_val(), upload_id@); }
                return Err(upload_not_found_error());
            },
        };
        proof {
            lemma_keyed_lookup(self.uploads@, upload_key(), upload_val(), ui as int);
            lemma_sorted_parts_unique(self.uploads@[ui as int].parts@);
        }
        let info = PartInfo { part_number, etag: etag.clone(), size };
        let result = PartInfo { part_number, etag, size };
        let part = UploadedPart { data, info };
        let ghost old_uploads = self.uploads@;
        let ghost old_parts = self.uploads@[ui as int].parts@;
        let pos = find_part(&self.uploads[ui].parts, part_number);
        let mut upload = self.uploads.remove(ui);
        match pos {
            Ok(j) => {
                proof { lemma_keyed_update(old_parts, part_key(), part_val(), j as int, part); }
                upload.parts.set(j, part);
            },
            Err(p) => {
                proof {
                    lemma_keyed_absent(old_parts, part_key(), part_val(), part_number);
                    lemma_keyed_insert(old_parts, part_key(), part_val(), p as int, part);
                }
                upload.parts.insert(p, part);
                proof {
                    let t = upload.parts@;
                    assert forall|a: int| 0 <= a < t.len() implies #[trigger] t[a] == (if a < p { old_parts[a] } else if a == p { part } else { old_parts[a - 1] }) by {}
                    assert forall|a: int, b: int| 0 <= a < b < t.len() implies (#[trigger] t[a]).info.part_number < (#[trigger] t[b]).info.part_number by {
                        if a < p && b < p {
                        } else if a < p && b == p {
                        } else if a < p {
                        } else if a == p {
                        } else {
                            assert(old_parts[a - 1].info.part_number < old_parts[b - 1].info.part_number);
                        }
                    }
                }
            },
        }
        let ghost new_upload = upload;
        self.uploads.insert(ui, upload);
        proof {
            assert(self.uploads@ =~= old_uploads.update(ui as int, new_upload));
            lemma_keyed_update(old_uploads, upload_key(), upload_val(), ui as int, new_upload);
            assert forall|i: int| 0 <= i < self.uploads@.len() implies parts_wf(#[trigger] self.uploads@[i].parts@) by {
                if i != ui {
                    assert(self.uploads@[i] == old_uploads[i]);
                }
            }
            assert(upload_val()(new_upload) == (UploadView {
                parts: old(self)@.uploads[upload_id@].parts.insert(part_number, data@),
                ..old(self)@.uploads[upload_id@]
            }));
        }
        Ok(result)
    }
}

impl MemoryBackend {
    /// The bytes of the parts named by `parts` of the upload at index `ui`, concatenated
    /// in the order named, or the number of the first named part the upload lacks.
    fn gather_parts(&self, ui: usize, parts: &Vec<CompletedPart>) -> (r: Result<Vec<u8>, u32>)
        requires
            self.wf(),
            ui < self.uploads@.len(),
        ensures
            ({
                let have = upload_val()(self.uploads@[ui as int]).parts;
                match first_missing(parts@, have) {
                    Some(n) => r == Err::<Vec<u8>, u32>(n),
                    None => r matches Ok(d) && d@ == concat_parts(parts@, have),
                }
            }),
    {
        let ghost have = upload_val()(self.uploads@[ui as int]).parts;
        let stored = &self.uploads[ui].parts;
        proof { lemma_sorted_parts_unique(stored@); }
        let mut combined: Vec<u8> = Vec::new();
        let mut i: usize = 0;
        while i < parts.len()
            invariant
                self.wf(),
                ui < self.uploads@.len(),
                stored@ == self.uploads@[ui as int].parts@,
                have == keyed_map(stored@, part_key(), part_val()),
                parts_wf(stored@),
                keys_unique(stored@, part_key()),
                i <= parts@.len(),
                first_missing(parts@.subrange(0, i as int), have) is None,
                combined@ == concat_parts(parts@.subrange(0, i as int), have),
            decreases parts.len() - i,
        {
            let n = parts[i].part_number;
            let ghost pre = parts@.subrange(0, i as int);
            let ghost post = parts@.subrange(0, i + 1);
            proof {
                assert(post.drop_last() =~= pre);
                assert(post.last() == parts@[i as int]);
            }
            match find_part(stored, n) {
                Ok(j) => {
                    proof { lemma_keyed_lookup(stored@, part_key(), part_val(), j as int); }
                    combined.extend_from_slice(stored[j].data.as_slice());
                    assert(combined@ =~= concat_parts(post, have));
                },
                Err(_) => {
                    proof {
                        lemma_keyed_absent(stored@, part_key(), part_val(), n);
                        lemma_first_missing_extends(parts@, have, i as int + 1);
                    }
                    return Err(n);
                },
            }
            i = i + 1;
        }
        assert(parts@.subrange(0, parts@.len() as int) =~= parts@);
        Ok(combined)
    }

    /// Completes upload `upload_id` into object `key` of bucket `bucket`, modified at `modified`:
    /// the upload is withdrawn first; then the named parts, which must all have been uploaded,
    /// are joined in the order named and stored with the upload's metadata.
    pub fn complete_multipart_upload_at(
        &mut self,
        bucket: &str,
        key: &str,
        upload_id: &str,
        parts: Vec<CompletedPart>,
        modified: Timestamp,
    ) -> (r: StorageResult<CompleteMultipartResult>)
        requires
            old(self).wf(),
        ensures
            final(self).wf(),
            !old(self)@.uploads.dom().contains(upload_id@)
                ==> err_of(r) == Some(upload_not_found()) && final(self)@ == old(self)@,
            old(self)@.uploads.dom().contains(upload_id@) ==> ({
                let u = old(self)@.uploads[upload_id@];
                let s1 = without_upload(old(self)@, upload_id@);
                match first_missing(parts@, u.parts) {
                    Some(n) => err_of(r) == Some(StorageErrorView::InternalError(missing_part_message(n)))
                        && final(self)@ == s1,
                    None => {
                        let data = concat_parts(parts@, u.parts);
                        &&& err_of(r) == put_error(s1, bucket@, key@)
                        &&& r is Err ==> final(self)@ == s1
                        &&& r matches Ok(c) ==> c.etag@ == etag_of(data)
                            && final(self)@ == put_outcome(s1, bucket@, key@, data, u.meta, modified)
                    },
                }
            }),
    {
        let ui = match self.find_upload(upload_id) {
            Some(j) => j,
            None => {
                proof { lemma_keyed_absent(self.uploads@, upload_key(), upload_val(), upload_id@); }
                return Err(upload_not_found_error());
            },
        };
        proof { lemma_keyed_lookup(self.uploads@, upload_key(), upload_val(), ui as int); }
        let gathered = self.gather_parts(ui, &parts);
        let ghost old_uploads = self.uploads@;
        let upload = self.uploads.remove(ui);
        proof {
            lemma_keyed_remove(old_uploads, upload_key(), upload_val(), ui as int);
            assert forall|i: int| 0 <= i < self.uploads@.len() implies parts_wf(#[trigger] self.uploads@[i].parts@) by {
                if i < ui {
                    assert(self.uploads@[i] == old_uploads[i]);
                } else {
                    assert(self.uploads@[i] == old_uploads[i + 1]);
                }
            }
            assert(self@ == without_upload(old(self)@, upload_id@));
        }
        let data = match gathered {
            Ok(d) => d,
            Err(n) => {
                let mut m = String::from_str("Part ");
                crate::text::push_decimal(&mut m, n as u64);
                m.append(" not found");
                return Err(StorageError::InternalError(m));
            },
        };
        let result = self.put_object_at(bucket, key, data, upload.metadata, modified)?;
        Ok(CompleteMultipartResult { etag: result.etag })
    }

    /// Completes an upload, modified now.
    pub fn complete_multipart_upload(
        &mut self,
        bucket: &str,
        key: &str,
        upload_id: &str,
        parts: Vec<CompletedPart>,
    ) -> (r: StorageResult<CompleteMultipartResult>)
        requires
            old(self).wf(),
        ensures
            final(self).wf(),
            !old(self)@.uploads.dom().contains(upload_id@)
                ==> err_of(r) == Some(upload_not_found()) && final(self)@ == old(self)@,
            old(self)@.uploads.dom().contains(upload_id@) ==> ({
                let u = old(self)@.uploads[upload_id@];
                let s1 = without_upload(old(self)@, upload_id@);
                match first_missing(parts@, u.parts) {
                    Some(n) => err_of(r) == Some(StorageErrorView::InternalError(missing_part_message(n)))
                        && final(self)@ == s1,
                    None => {
                        let data = concat_parts(parts@, u.parts);
                        &&& err_of(r) == put_error(s1, bucket@, key@)
                        &&& r is Err ==> final(self)@ == s1
                        &&& r matches Ok(c) ==> c.etag@ == etag_of(data)
                            && final(self)@ == put_outcome(s1, bucket@, key@, data, u.meta,
                                final(self)@.buckets[bucket@].objects[key@].meta.last_modified)
                    },
                }
            }),
    {
        let t = now();
        let r = self.complete_multipart_upload_at(bucket, key, upload_id, parts, t);
        proof {
            if r is Ok {
                assert(final(self)@.buckets[bucket@].objects[key@].meta.last_modified == t);
            }
        }
        r
    }

    /// Abandons upload `upload_id`; an unknown id is no error.
    pub fn abort_multipart_upload(&mut self, bucket: &str, key: &str, upload_id: &str) -> (r: StorageResult<()>)
        requires
            old(self).wf(),
        ensures
            final(self).wf(),
            r is Ok,
            final(self)@ == without_upload(old(self)@, upload_id@),
    {
        match self.find_upload(upload_id) {
            Some(ui) => {
                let ghost old_uploads = self.uploads@;
                self.uploads.remove(ui);
                proof {
                    lemma_keyed_remove(old_uploads, upload_key(), upload_val(), ui as int);
                    assert forall|i: int| 0 <= i < self.uploads@.len() implies parts_wf(#[trigger] self.uploads@[i].parts@) by {
                        if i < ui {
                            assert(self.uploads@[i] == old_uploads[i]);
                        } else {
                            assert(self.uploads@[i] == old_uploads[i + 1]);
                        }
                    }
                }
            },
            None => {
                proof {
                    lemma_keyed_absent(self.uploads@, upload_key(), upload_val(), upload_id@);
                    assert(self@.uploads =~= old(self)@.uploads.remove(upload_id@));
                }
            },
        }
        Ok(())
    }

    /// The parts uploaded so far for upload `upload_id`, each once, in ascending part number.
    pub fn list_parts(&self, bucket: &str, key: &str, upload_id: &str) -> (r: StorageResult<Vec<PartInfo>>)
        requires
            self.wf(),
        ensures
            r is Ok <==> self@.uploads.dom().contains(upload_id@),
            r is Err ==> err_of(r) == Some(upload_not_found()),
            r matches Ok(v) ==> {
                let have = self@.uploads[upload_id@].parts;
                &&& forall|i: int, j: int| 0 <= i < j < v@.len() ==> (#[trigger] v@[i]).part_number < (#[trigger] v@[j]).part_number
                &&& forall|i: int| 0 <= i < v@.len() ==> have.dom().contains((#[trigger] v@[i]).part_number)
                    && v@[i].etag@ == etag_of(have[v@[i].part_number])
                    && v@[i].size == have[v@[i].part_number].len()
                &&& forall|n: u32| have.dom().contains(n) ==> exists|i: int| 0 <= i < v@.len() && (#[trigger] v@[i]).part_number == n
            },
    {
        let ui = match self.find_upload(upload_id) {
            Some(j) => j,
            None => {
                proof { lemma_keyed_absent(self.uploads@, upload_key(), upload_val(), upload_id@); }
                return Err(upload_not_found_error());
            },
        };
        proof { lemma_keyed_lookup(self.uploads@, upload_key(), upload_val(), ui as int); }
        let stored = &self.uploads[ui].parts;
        proof { lemma_sorted_parts_unique(stored@); }
        let ghost have = keyed_map(stored@, part_key(), part_val());
        let mut v: Vec<PartInfo> = Vec::new();
        let mut i: usize = 0;
        while i < stored.len()
            invariant
                parts_wf(stored@),
                keys_unique(stored@, part_key()),
                have == keyed_map(stored@, part_key(), part_val()),
                i <= stored@.len(),
                v@.len() == i,
                forall|j: int| 0 <= j < i ==> (#[trigger] v@[j]).part_number == stored@[j].info.part_number
                    && v@[j].etag@ == stored@[j].info.etag@ && v@[j].size == stored@[j].info.size,
            decreases stored.len() - i,
        {
            v.push(copy_part_info(&stored[i as usize].info));
            i = i + 1;
        }
        proof {
            assert forall|a: int| 0 <= a < v@.len() implies have.dom().contains((#[trigger] v@[a]).part_number)
                && v@[a].etag@ == etag_of(have[v@[a].part_number])
                && v@[a].size == have[v@[a].part_number].len() by {
                lemma_keyed_lookup(stored@, part_key(), part_val(), a);
                assert(part_wf(stored@[a]));
            }
            assert forall|n: u32| have.dom().contains(n) implies exists|a: int| 0 <= a < v@.len() && (#[trigger] v@[a]).part_number == n by {
                let a = choose|a: int| 0 <= a < stored@.len() && part_key()(#[trigger] stored@[a]) == n;
                assert(v@[a].part_number == n);
            }
            assert(self@.uploads[upload_id@].parts == have);
        }
        Ok(v)
    }
}

/// Once a prefix of the named parts has a missing part, so does the whole list.
proof fn lemma_first_missing_extends(parts: Seq<CompletedPart>, have: Map<u32, Seq<u8>>, k: int)
    requires
        0 <= k <= parts.len(),
        first_missing(parts.subrange(0, k), have) is Some,
    ensures
        first_missing(parts, have) == first_missing(parts.subrange(0, k), have),
    decreases parts.len() - k,
{
    if k < parts.len() {
        let a = parts.subrange(0, k + 1);
        assert(a.drop_last() =~= parts.subrange(0, k));
        lemma_first_missing_extends(parts, have, k + 1);
    } else {
        assert(parts.subrange(0, k) =~= parts);
    }
}

/// The number of objects a default listing of a bucket reports: all of them, up to 1000.
pub open spec fn listed_count(b: BucketView) -> nat {
    let n = listing_keys(b.objects, None, None).len();
    if n <= 1000 { n } else { 1000 }
}

/// The total size of the objects with the given keys.
pub open spec fn sizes_of(keys: Seq<Seq<char>>, objs: Map<Seq<char>, StoredView>) -> nat
    decreases keys.len(),
{
    if keys.len() == 0 {
        0
    } else {
        sizes_of(keys.drop_last(), objs) + objs[keys.last()].meta.content_length as nat
    }
}

/// The total size of the objects a default listing of a bucket reports.
pub open spec fn listed_size(b: BucketView) -> nat {
    sizes_of(listing_keys(b.objects, None, None).take(listed_count(b) as int), b.objects)
}

/// The sum of `listed_count` over the named buckets.
pub open spec fn total_listed_count(names: Seq<Seq<char>>, buckets: Map<Seq<char>, BucketView>) -> nat
    decreases names.len(),
{
    if names.len() == 0 {
        0
    } else {
        total_listed_count(names.drop_last(), buckets) + listed_count(buckets[names.last()])
    }
}

/// The sum of `listed_size` over the named buckets.
pub open spec fn total_listed_size(names: Seq<Seq<char>>, buckets: Map<Seq<char>, BucketView>) -> nat
    decreases names.len(),
{
    if names.len() == 0 {
        0
    } else {
        total_listed_size(names.drop_last(), buckets) + listed_size(buckets[names.last()])
    }
}

/// Sums over prefixes grow with the prefix.
proof fn lemma_sizes_mono(keys: Seq<Seq<char>>, objs: Map<Seq<char>, StoredView>, a: int, b: int)
    requires
        0 <= a <= b <= keys.len(),
    ensures
        sizes_of(keys.take(a), objs) <= sizes_of(keys.take(b), objs),
    decreases b - a,
{
    if a < b {
        lemma_sizes_mono(keys, objs, a, b - 1);
        assert(keys.take(b).drop_last() =~= keys.take(b - 1));
    }
}

/// Sums over prefixes of bucket names grow with the prefix.
proof fn lemma_totals_mono(names: Seq<Seq<char>>, buckets: Map<Seq<char>, BucketView>, a: int, b: int)
    requires
        0 <= a <= b <= names.len(),
    ensures
        total_listed_count(names.take(a), buckets) <= total_listed_count(names.take(b), buckets),
        total_listed_size(names.take(a), buckets) <= total_listed_size(names.take(b), buckets),
    decreases b - a,
{
    if a < b {
        lemma_totals_mono(names, buckets, a, b - 1);
        assert(names.take(b).drop_last() =~= names.take(b - 1));
    }
}

impl MemoryBackend {
    /// Counts buckets, and per bucket the objects and bytes that a default listing reports
    /// (at most 1000 objects per bucket).
    pub fn get_stats(&self) -> (r: StorageResult<StorageStats>)
        requires
            self.wf(),
            total_listed_count(self.bucket_order(), self@.buckets) <= u64::MAX,
            total_listed_size(self.bucket_order(), self@.buckets) <= u64::MAX,
        ensures
            r matches Ok(st) && {
                &&& st.total_buckets == self@.buckets.dom().len()
                &&& st.total_objects == total_listed_count(self.bucket_order(), self@.buckets)
                &&& st.total_size_bytes == total_listed_size(self.bucket_order(), self@.buckets)
            },
    {
        proof { self.lemma_bucket_order(); }
        let ghost order = self.bucket_order();
        let ghost bs = self@.buckets;
        let buckets = match self.list_buckets() {
            Ok(v) => v,
            Err(e) => return Err(e),
        };
        let mut total_objects: u64 = 0;
        let mut total_size_bytes: u64 = 0;
        let mut i: usize = 0;
        assert(order.take(0) =~= Seq::<Seq<char>>::empty());
        while i < buckets.len()
            invariant
                self.wf(),
                order == self.bucket_order(),
                bs == self@.buckets,
                buckets@.len() == order.len(),
                forall|j: int| 0 <= j < buckets@.len() ==> (#[trigger] buckets@[j]).name@ == order[j],
                forall|n: Seq<char>| bs.dom().contains(n) <==> order.contains(n),
                total_listed_count(order, bs) <= u64::MAX,
                total_listed_size(order, bs) <= u64::MAX,
                i <= buckets@.len(),
                total_objects == total_listed_count(order.take(i as int), bs),
                total_size_bytes == total_listed_size(order.take(i as int), bs),
            decreases buckets.len() - i,
        {
            let ghost name = order[i as int];
            let ghost b = bs[name];
            assert(order.contains(name));
            let listing = match self.list_objects(buckets[i].name.as_str(), ListObjectsParams::default()) {
                Ok(l) => l,
                Err(e) => return Err(e),
            };
            let ghost keys = listing_keys(b.objects, None, None);
            proof {
                assert(order.take(i + 1).drop_last() =~= order.take(i as int));
                assert(order.take(i + 1).last() == name);
                lemma_totals_mono(order, bs, i + 1, order.len() as int);
                assert(order.take(order.len() as int) =~= order);
            }
            let n = listing.objects.len();
            assert(n == listed_count(b));
            total_objects = total_objects + n as u64;
            let mut j: usize = 0;
            assert(keys.take(0) =~= Seq::<Seq<char>>::empty());
            while j < n
                invariant
                    n == listing.objects@.len(),
                    n == listed_count(b),
                    n <= keys.len(),
                    forall|a: int| 0 <= a < n ==> (#[trigger] listing.objects@[a]).size == b.objects[keys[a]].meta.content_length,
                    j <= n,
                    total_size_bytes == total_listed_size(order.take(i as int), bs) + sizes_of(keys.take(j as int), b.objects),
                    total_listed_size(order.take(i as int), bs) + listed_size(b) <= u64::MAX,
                    listed_size(b) == sizes_of(keys.take(n as int), b.objects),
                decreases n - j,
            {
                proof {
                    assert(keys.take(j + 1).drop_last() =~= keys.take(j as int));
                    assert(keys.take(j + 1).last() == keys[j as int]);
                    lemma_sizes_mono(keys, b.objects, j + 1, n as int);
                }
                total_size_bytes = total_size_bytes + listing.objects[j].size;
                j = j + 1;
            }
            i = i + 1;
        }
        assert(order.take(order.len() as int) =~= order);
        Ok(StorageStats {
            total_buckets: buckets.len() as u64,
            total_objects,
            total_size_bytes,
        })
    }
}

} // verus!

verus! {

/// A stored object can be read back: right after a successful store of `data` under `key`,
/// a read of `key` succeeds and returns `data` with the metadata the store gave it.
pub proof fn lemma_get_after_put(
    s: BackendView,
    bucket: Seq<char>,
    key: Seq<char>,
    data: Seq<u8>,
    meta: MetaView,
    modified: Timestamp,
)
    requires
        put_error(s, bucket, key) is None,
    ensures
        get_error(put_outcome(s, bucket, key, data, meta, modified), bucket, key, None) is None,
        put_outcome(s, bucket, key, data, meta, modified).buckets[bucket].objects[key]
            == (StoredView { data, meta: put_meta(meta, data, modified) }),
        ranged(put_outcome(s, bucket, key, data, meta, modified).buckets[bucket].objects[key].data, None) == Some(data),
{
}

/// A store touches nothing but the object it stores: every other object of every bucket,
/// and every bucket's creation time, stays as it was.
pub proof fn lemma_put_preserves_others(
    s: BackendView,
    bucket: Seq<char>,
    key: Seq<char>,
    data: Seq<u8>,
    meta: MetaView,
    modified: Timestamp,
    other_bucket: Seq<char>,
    other_key: Seq<char>,
)
    requires
        put_error(s, bucket, key) is None,
        s.buckets.dom().contains(other_bucket),
        other_bucket != bucket || other_key != key,
    ensures
        put_outcome(s, bucket, key, data, meta, modified).buckets.dom() == s.buckets.dom(),
        put_outcome(s, bucket, key, data, meta, modified).buckets[other_bucket].creation_date
            == s.buckets[other_bucket].creation_date,
        put_outcome(s, bucket, key, data, meta, modified).buckets[other_bucket].objects.dom().contains(other_key)
            == s.buckets[other_bucket].objects.dom().contains(other_key),
        s.buckets[other_bucket].objects.dom().contains(other_key) ==>
            put_outcome(s, bucket, key, data, meta, modified).buckets[other_bucket].objects[other_key]
                == s.buckets[other_bucket].objects[other_key],
{
    assert(put_outcome(s, bucket, key, data, meta, modified).buckets.dom() =~= s.buckets.dom());
}

/// A deleted object is gone: right after a successful delete of `key`, a read of it reports
/// that the object is not found.
pub proof fn lemma_get_after_delete(s: BackendView, bucket: Seq<char>, key: Seq<char>)
    requires
        get_error(s, bucket, key, None) is None,
    ensures
        get_error(delete_outcome(s, bucket, key), bucket, key, None)
            == Some(StorageErrorView::ObjectNotFound { bucket, key }),
{
}

/// Storing an object and deleting it again leaves the bucket as it was, when the key was new.
pub proof fn lemma_put_delete_roundtrip(
    s: BackendView,
    bucket: Seq<char>,
    key: Seq<char>,
    data: Seq<u8>,
    meta: MetaView,
    modified: Timestamp,
)
    requires
        put_error(s, bucket, key) is None,
        !s.buckets[bucket].objects.dom().contains(key),
    ensures
        delete_outcome(put_outcome(s, bucket, key, data, meta, modified), bucket, key) == s,
{
    let after = delete_outcome(put_outcome(s, bucket, key, data, meta, modified), bucket, key);
    assert(after.buckets[bucket].objects =~= s.buckets[bucket].objects);
    assert(after.buckets =~= s.buckets);
}

/// A copy gives the destination the source's bytes, content type and user metadata.
pub proof fn lemma_copy_preserves_content(
    s: BackendView,
    src_bucket: Seq<char>,
    src_key: Seq<char>,
    dest_bucket: Seq<char>,
    dest_key: Seq<char>,
    modified: Timestamp,
)
    requires
        copy_error(s, src_bucket, src_key, dest_bucket, dest_key) is None,
    ensures
        ({
            let src = s.buckets[src_bucket].objects[src_key];
            let after = put_outcome(s, dest_bucket, dest_key, src.data, src.meta, modified);
            &&& after.buckets[dest_bucket].objects[dest_key].data == src.data
            &&& after.buckets[dest_bucket].objects[dest_key].meta.content_type == src.meta.content_type
            &&& after.buckets[dest_bucket].objects[dest_key].meta.user == src.meta.user
        }),
{
}

/// Creating a bucket and deleting it again leaves the buckets as they were.
pub proof fn lemma_create_delete_bucket_roundtrip(s: BackendView, bucket: Seq<char>, created: Timestamp)
    requires
        !s.buckets.dom().contains(bucket),
    ensures
        s.buckets.insert(bucket, BucketView { creation_date: created, objects: Map::empty() }).remove(bucket) == s.buckets,
        s.buckets.insert(bucket, BucketView { creation_date: created, objects: Map::empty() })[bucket].objects.dom()
            == Set::<Seq<char>>::empty(),
{
    assert(s.buckets.insert(bucket, BucketView { creation_date: created, objects: Map::empty() }).remove(bucket) =~= s.buckets);
}

/// Completing names a missing part exactly when some named part was not uploaded.
pub proof fn lemma_first_missing_exact(parts: Seq<CompletedPart>, have: Map<u32, Seq<u8>>)
    ensures
        first_missing(parts, have) is None <==> forall|i: int| 0 <= i < parts.len() ==> have.dom().contains(#[trigger] parts[i].part_number),
        match first_missing(parts, have) {
            Some(n) => !have.dom().contains(n) && exists|i: int| 0 <= i < parts.len() && #[trigger] parts[i].part_number == n,
            None => true,
        },
    decreases parts.len(),
{
    if parts.len() > 0 {
        let init = parts.drop_last();
        lemma_first_missing_exact(init, have);
        if first_missing(parts, have) is None {
            assert forall|i: int| 0 <= i < parts.len() implies have.dom().contains(#[trigger] parts[i].part_number) by {
                if i < init.len() {
                    assert(init[i] == parts[i]);
                }
            }
        }
        if forall|i: int| 0 <= i < parts.len() ==> have.dom().contains(#[trigger] parts[i].part_number) {
            assert forall|i: int| 0 <= i < init.len() implies have.dom().contains(#[trigger] init[i].part_number) by {
                assert(init[i] == parts[i]);
            }
            assert(have.dom().contains(parts[parts.len() - 1].part_number));
        }
        if let Some(n) = first_missing(init, have) {
            let i = choose|i: int| 0 <= i < init.len() && #[trigger] init[i].part_number == n;
            assert(parts[i] == init[i]);
        } else if first_missing(parts, have) is Some {
            assert(parts[parts.len() - 1].part_number == parts.last().part_number);
        }
    }
}

/// The completed object is the named parts' bytes in the order named, so its length is the
/// sum of their lengths.
pub proof fn lemma_concat_parts_len(parts: Seq<CompletedPart>, have: Map<u32, Seq<u8>>)
    ensures
        concat_parts(parts, have).len() == parts_len(parts, have),
    decreases parts.len(),
{
    if parts.len() > 0 {
        lemma_concat_parts_len(parts.drop_last(), have);
    }
}

/// The total length of the named parts.
pub open spec fn parts_len(parts: Seq<CompletedPart>, have: Map<u32, Seq<u8>>) -> nat
    decreases parts.len(),
{
    if parts.len() == 0 {
        0
    } else {
        parts_len(parts.drop_last(), have) + have[parts.last().part_number].len()
    }
}

impl MemoryBackend {
    /// Paging: a listing that was cut short after reporting some keys hands back a token, and
    /// the listing of the same bucket, prefix and delimiter given that token reports the keys
    /// that come right after the last key reported, in order.
    pub proof fn lemma_listing_continues(
        &self,
        bucket: Seq<char>,
        params: ListObjectsParams,
        first: ListObjectsResult,
        next_params: ListObjectsParams,
        next: ListObjectsResult,
    )
        requires
            self.wf(),
            self@.buckets.dom().contains(bucket),
            listing_matches(first, self@.buckets[bucket].objects, params),
            first.is_truncated,
            first.objects@.len() > 0,
            opt_view(next_params.prefix) == opt_view(params.prefix),
            opt_view(next_params.delimiter) == opt_view(params.delimiter),
            opt_view(next_params.continuation_token) == opt_view(first.next_continuation_token),
            listing_matches(next, self@.buckets[bucket].objects, next_params),
        ensures
            ({
                let objs = self@.buckets[bucket].objects;
                let keys = listing_keys(objs, opt_view(params.prefix), opt_view(params.delimiter));
                let resume = first_after(keys, opt_view(params.continuation_token)) + first.objects@.len();
                &&& first.objects@.last().key@ == keys[resume - 1]
                &&& forall|i: int| 0 <= i < next.objects@.len()
                    ==> (#[trigger] next.objects@[i]).key@ == keys[resume + i]
            }),
    {
        let objs = self@.buckets[bucket].objects;
        let prefix = opt_view(params.prefix);
        let delimiter = opt_view(params.delimiter);
        let keys = listing_keys(objs, prefix, delimiter);
        self.lemma_listing_sorted(bucket, prefix, delimiter);
        let t = opt_view(params.continuation_token);
        let max = max_keys_of(params.max_keys);
        crate::paging::lemma_next_page_continues(keys, t, max);
        let n = first.objects@.len() as int;
        assert(info_of(first.objects@[n - 1], keys[first_after(keys, t) + n - 1], objs[keys[first_after(keys, t) + n - 1]]));
        assert forall|i: int| 0 <= i < next.objects@.len() implies
            (#[trigger] next.objects@[i]).key@ == keys[first_after(keys, t) + n + i] by {
            let t2 = opt_view(next_params.continuation_token);
            assert(info_of(next.objects@[i], keys[first_after(keys, t2) + i], objs[keys[first_after(keys, t2) + i]]));
        }
    }
}

impl MemoryBackend {
    /// A listing reports keys in strictly ascending order, each an object of the bucket that
    /// the prefix keeps and the delimiter does not roll up.
    pub proof fn lemma_listing_sorted(&self, bucket: Seq<char>, prefix: Option<Seq<char>>, delimiter: Option<Seq<char>>)
        requires
            self.wf(),
            self@.buckets.dom().contains(bucket),
        ensures
            strictly_sorted(listing_keys(self@.buckets[bucket].objects, prefix, delimiter)),
            forall|i: int| 0 <= i < listing_keys(self@.buckets[bucket].objects, prefix, delimiter).len() ==> {
                let k = #[trigger] listing_keys(self@.buckets[bucket].objects, prefix, delimiter)[i];
                &&& self@.buckets[bucket].objects.dom().contains(k)
                &&& listed(k, prefix, delimiter)
            },
    {
        let i = choose|i: int| 0 <= i < self.buckets@.len() && bucket_key()(#[trigger] self.buckets@[i]) == bucket;
        lemma_keyed_lookup(self.buckets@, bucket_key(), bucket_val(), i);
        let objs = self@.buckets[bucket].objects;
        crate::keyed::lemma_keyed_finite(self.buckets@[i].objects@, obj_key(), obj_val());
        let fs = objs.dom().filter(|k: Seq<char>| listed(k, prefix, delimiter));
        objs.dom().lemma_len_filter(|k: Seq<char>| listed(k, prefix, delimiter));
        crate::keyed::lemma_sorted_seq_of_finite(fs);
        let keys = listing_keys(objs, prefix, delimiter);
        assert forall|j: int| 0 <= j < keys.len() implies {
            let k = #[trigger] keys[j];
            &&& objs.dom().contains(k)
            &&& listed(k, prefix, delimiter)
        } by {
            assert(keys.to_set().contains(keys[j]));
        }
    }
}

impl MemoryBackend {
    /// Every stored object's ETag is the quoted MD5 of its bytes and its recorded length is
    /// the length of its bytes.
    pub proof fn lemma_stored_etags(&self, bucket: Seq<char>, key: Seq<char>)
        requires
            self.wf(),
            self@.buckets.dom().contains(bucket),
            self@.buckets[bucket].objects.dom().contains(key),
        ensures
            self@.buckets[bucket].objects[key].meta.etag == etag_of(self@.buckets[bucket].objects[key].data),
            self@.buckets[bucket].objects[key].meta.content_length == self@.buckets[bucket].objects[key].data.len(),
    {
        let i = choose|i: int| 0 <= i < self.buckets@.len() && bucket_key()(#[trigger] self.buckets@[i]) == bucket;
        lemma_keyed_lookup(self.buckets@, bucket_key(), bucket_val(), i);
        let objs = self.buckets@[i].objects@;
        lemma_sorted_objects_unique(objs);
        let j = choose|j: int| 0 <= j < objs.len() && obj_key()(#[trigger] objs[j]) == key;
        lemma_keyed_lookup(objs, obj_key(), obj_val(), j);
        assert(objects_consistent(objs));
        assert(objs[j].metadata.etag@ == etag_of(objs[j].data@));
    }
}

impl Default for MemoryBackend {
    fn default() -> (m: MemoryBackend)
        ensures
            m.wf(),
            m@.buckets == Map::<Seq<char>, BucketView>::empty(),
            m@.uploads == Map::<Seq<char>, UploadView>::empty(),
    {
        MemoryBackend::new()
    }
}

} // verus!
