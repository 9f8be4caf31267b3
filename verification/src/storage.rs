//! The object store: immutable blobs under the digest of their bytes, with
//! files above the chunk size split into chunks behind a manifest.

use crate::digest::{digest_of, hash_bytes, DIGEST_LEN};
use crate::manifest::{
    is_manifest_text, lemma_manifest_round_trip, looks_like_manifest, manifest_text,
    parsed_manifest, ManifestView,
};
use crate::text::{str_eq, utf8};
use vstd::prelude::*;

pub use crate::manifest::FileManifest;

verus! {

/// The size of a chunk, and the largest size of a blob that is stored whole:
/// one mebibyte.
pub const CHUNK_SIZE: usize = 1048576;

/// Why a blob could not be given out.
#[derive(Debug, Clone, Copy, PartialEq, Eq, Structural)]
pub enum StoreError {
    /// The digest is shorter than its two-byte shard name.
    InvalidDigest,
    /// Nothing is stored under the digest.
    NotFound,
    /// The blob is a manifest that cannot be read, or that lists a chunk
    /// that cannot be given out.
    Corrupt,
}

/// A commit as it travels between peers: the whole record, with its parents
/// and its files.
pub type CommitInfo = crate::database::Commit;

/// The contents of a store: the bytes under each digest.
pub type Objects = Map<Seq<char>, Seq<u8>>;

/// Every blob is stored under the digest of its bytes, and every digest has
/// the length of a digest.
pub open spec fn intact(m: Objects) -> bool {
    forall|d: Seq<char>| #[trigger]
        m.contains_key(d) ==> digest_of(m[d]) == d && d.len() == DIGEST_LEN
}

/// The store after `data` has been written under its digest: unchanged where
/// the digest is already there.
pub open spec fn put(m: Objects, data: Seq<u8>) -> Objects {
    if m.contains_key(digest_of(data)) {
        m
    } else {
        m.insert(digest_of(data), data)
    }
}

/// The store after each of `parts` has been written, in order.
pub open spec fn put_all(m: Objects, parts: Seq<Seq<u8>>) -> Objects
    decreases parts.len(),
{
    if parts.len() == 0 {
        m
    } else {
        put_all(put(m, parts[0]), parts.skip(1))
    }
}

/// The chunks of `data`: runs of exactly `CHUNK_SIZE` bytes, the last one
/// shorter where the length is no multiple of it.
pub open spec fn chunks_of(data: Seq<u8>) -> Seq<Seq<u8>>
    decreases data.len(),
{
    if data.len() == 0 {
        Seq::<Seq<u8>>::empty()
    } else if data.len() <= CHUNK_SIZE {
        seq![data]
    } else {
        seq![data.take(CHUNK_SIZE as int)] + chunks_of(data.skip(CHUNK_SIZE as int))
    }
}

/// The digests of a list of blobs.
pub open spec fn digests_of(parts: Seq<Seq<u8>>) -> Seq<Seq<char>> {
    Seq::new(parts.len(), |i: int| digest_of(parts[i]))
}

/// The bytes of a list of blobs, one after the other.
pub open spec fn concat(parts: Seq<Seq<u8>>) -> Seq<u8>
    decreases parts.len(),
{
    if parts.len() == 0 {
        Seq::<u8>::empty()
    } else {
        parts[0] + concat(parts.skip(1))
    }
}

/// The manifest of a file that is stored in chunks.
pub open spec fn manifest_of(data: Seq<u8>) -> ManifestView {
    ManifestView {
        total_size: data.len() as u64,
        chunks: digests_of(chunks_of(data)),
        filename: None,
    }
}

/// The digest that `store` gives for `data`: that of the bytes where they fit
/// one chunk, else that of the manifest of their chunks.
pub open spec fn store_digest(data: Seq<u8>) -> Seq<char> {
    if data.len() <= CHUNK_SIZE {
        digest_of(data)
    } else {
        digest_of(manifest_text(manifest_of(data)))
    }
}

/// The store after `store` of `data`: the bytes themselves where they fit one
/// chunk, else each chunk and then the manifest.
pub open spec fn stored(m: Objects, data: Seq<u8>) -> Objects {
    if data.len() <= CHUNK_SIZE {
        put(m, data)
    } else {
        put(put_all(m, chunks_of(data)), manifest_text(manifest_of(data)))
    }
}

/// What `retrieve` gives for `digest`, with manifests followed at most `depth`
/// levels down.
///
/// A blob that is no manifest is given as it is. A manifest gives the bytes
/// of its chunks in order, each chunk retrieved in the same way one level
/// further down.
pub open spec fn assembled(m: Objects, digest: Seq<char>, depth: nat) -> Result<Seq<u8>, StoreError>
    decreases depth, 0nat,
{
    if !m.contains_key(digest) {
        Err(StoreError::NotFound)
    } else if !is_manifest_text(m[digest]) {
        Ok(m[digest])
    } else {
        match parsed_manifest(m[digest]) {
            None => Err(StoreError::Corrupt),
            Some(manifest) => if depth == 0 {
                Err(StoreError::Corrupt)
            } else {
                joined(m, manifest.chunks, (depth - 1) as nat)
            },
        }
    }
}

/// The bytes of the listed chunks, one after the other; `Corrupt` where one
/// of them cannot be given out.
pub open spec fn joined(m: Objects, chunks: Seq<Seq<char>>, depth: nat) -> Result<
    Seq<u8>,
    StoreError,
>
    decreases depth, chunks.len(),
{
    if chunks.len() == 0 {
        Ok(Seq::<u8>::empty())
    } else {
        match (assembled(m, chunks[0], depth), joined(m, chunks.skip(1), depth)) {
            (Ok(part), Ok(rest)) => Ok(part + rest),
            _ => Err(StoreError::Corrupt),
        }
    }
}

/// What `retrieve` gives for `digest`. A manifest is followed through as many
/// levels as the store has objects: deeper nesting can only come from
/// manifests that list each other in a circle.
pub open spec fn retrieved(m: Objects, digest: Seq<char>) -> Result<Seq<u8>, StoreError> {
    if utf8(digest).len() < 2 {
        Err(StoreError::InvalidDigest)
    } else {
        assembled(m, digest, m.dom().len())
    }
}

struct StoredObject {
    digest: String,
    data: Vec<u8>,
}

/// What is known of a stored model.
#[derive(Debug, Clone)]
pub struct ModelMetadata {
    /// The digest under which the model is stored.
    pub hash: String,
    /// The name of the model.
    pub name: String,
    /// Its version.
    pub version: String,
    /// Its size in bytes.
    pub size: u64,
    /// When it was made, in milliseconds since the Unix epoch.
    pub created_at: i64,
}

/// What is known of a model, as a mathematical value.
pub struct ModelView {
    pub hash: Seq<char>,
    pub name: Seq<char>,
    pub version: Seq<char>,
    pub size: u64,
    pub created_at: i64,
}

impl View for ModelMetadata {
    type V = ModelView;

    open spec fn view(&self) -> ModelView {
        ModelView {
            hash: self.hash@,
            name: self.name@,
            version: self.version@,
            size: self.size,
            created_at: self.created_at,
        }
    }
}

/// The index of the first model with digest `hash`, or the number of
/// models.
pub open spec fn model_index(models: Seq<ModelView>, hash: Seq<char>) -> int
    decreases models.len(),
{
    if models.len() == 0 || models[0].hash == hash {
        0
    } else {
        1 + model_index(models.skip(1), hash)
    }
}

/// The models with `model` put in: in place of the model of its digest
/// where there is one, else at the end.
pub open spec fn with_model(models: Seq<ModelView>, model: ModelView) -> Seq<ModelView> {
    if model_index(models, model.hash) < models.len() {
        models.update(model_index(models, model.hash), model)
    } else {
        models.push(model)
    }
}

spec fn models_view(models: Seq<ModelMetadata>) -> Seq<ModelView> {
    Seq::new(models.len(), |i: int| models[i]@)
}

/// The object store.
pub struct StorageManager {
    objects: Vec<StoredObject>,
    models: Vec<ModelMetadata>,
}

spec fn objects_map(objects: Seq<StoredObject>) -> Objects
    decreases objects.len(),
{
    if objects.len() == 0 {
        Map::empty()
    } else {
        objects_map(objects.drop_last()).insert(objects.last().digest@, objects.last().data@)
    }
}

spec fn distinct(objects: Seq<StoredObject>) -> bool {
    forall|i: int, j: int|
        0 <= i < j < objects.len() ==> (#[trigger] objects[i]).digest@ != (
        #[trigger] objects[j]).digest@
}

proof fn lemma_objects_map(objects: Seq<StoredObject>)
    requires
        distinct(objects),
    ensures
        objects_map(objects).dom().finite(),
        objects_map(objects).dom().len() == objects.len(),
        forall|i: int|
            0 <= i < objects.len() ==> objects_map(objects).contains_key(
                (#[trigger] objects[i]).digest@,
            ) && objects_map(objects)[objects[i].digest@] == objects[i].data@,
        forall|d: Seq<char>| #[trigger]
            objects_map(objects).contains_key(d) ==> exists|i: int|
                0 <= i < objects.len() && (#[trigger] objects[i]).digest@ == d,
    decreases objects.len(),
{
    if objects.len() > 0 {
        let front = objects.drop_last();
        assert(distinct(front)) by {
            assert forall|i: int, j: int| 0 <= i < j < front.len() implies (
            #[trigger] front[i]).digest@ != (#[trigger] front[j]).digest@ by {
                assert(front[i] == objects[i] && front[j] == objects[j]);
            }
        }
        lemma_objects_map(front);
        let last = objects.last();
        assert(!objects_map(front).contains_key(last.digest@)) by {
            if objects_map(front).contains_key(last.digest@) {
                let i = choose|i: int| 0 <= i < front.len() && (#[trigger] front[i]).digest@
                        == last.digest@;
                assert(front[i] == objects[i]);
                assert(objects[objects.len() - 1] == last);
            }
        }
        assert forall|i: int| 0 <= i < objects.len() implies objects_map(objects).contains_key(
            (#[trigger] objects[i]).digest@,
        ) && objects_map(objects)[objects[i].digest@] == objects[i].data@ by {
            if i < front.len() {
                assert(front[i] == objects[i]);
            }
        }
        assert forall|d: Seq<char>| #[trigger]
            objects_map(objects).contains_key(d) implies exists|i: int|
            0 <= i < objects.len() && (#[trigger] objects[i]).digest@ == d by {
            if d == last.digest@ {
                assert(objects[objects.len() - 1].digest@ == d);
            } else {
                let i = choose|i: int| 0 <= i < front.len() && (#[trigger] front[i]).digest@ == d;
                assert(front[i] == objects[i]);
            }
        }
    }
}

impl View for StorageManager {
    type V = Objects;

    closed spec fn view(&self) -> Objects {
        objects_map(self.objects@)
    }
}

impl StorageManager {
    /// The store holds each digest once, and every blob under the digest of
    /// its bytes.
    pub closed spec fn wf(&self) -> bool {
        distinct(self.objects@) && intact(self@)
    }

    /// What holds of the contents of every well-formed store.
    pub proof fn lemma_wf(&self)
        requires
            self.wf(),
        ensures
            intact(self@),
            self@.dom().finite(),
    {
        lemma_objects_map(self.objects@);
    }

    /// Every blob of the store hashes to the digest under which it is
    /// stored.
    pub proof fn lemma_blob_has_its_digest(&self, digest: Seq<char>)
        requires
            self.wf(),
            self@.contains_key(digest),
        ensures
            digest_of(self@[digest]) == digest,
    {
    }

    /// What is known of the stored models, in the order in which the models
    /// were first told of.
    pub closed spec fn models(&self) -> Seq<ModelView> {
        models_view(self.models@)
    }

    /// An empty store.
    pub fn new() -> (store: StorageManager)
        ensures
            store.wf(),
            store@ == Map::<Seq<char>, Seq<u8>>::empty(),
            store.models() == Seq::<ModelView>::empty(),
    {
        let store = StorageManager { objects: Vec::new(), models: Vec::new() };
        assert(store.models() =~= Seq::<ModelView>::empty());
        store
    }

    fn find(&self, hash: &str) -> (r: Option<usize>)
        requires
            self.wf(),
        ensures
            match r {
                Some(i) => i < self.objects.len() && self.objects@[i as int].digest@ == hash@
                    && self@.contains_key(hash@) && self@[hash@] == self.objects@[i as int].data@,
                None => !self@.contains_key(hash@),
            },
    {
        let mut i: usize = 0;
        while i < self.objects.len()
            invariant
                i <= self.objects.len(),
                self.wf(),
                forall|k: int| 0 <= k < i ==> (#[trigger] self.objects@[k]).digest@ != hash@,
            decreases self.objects.len() - i,
        {
            if str_eq(self.objects[i].digest.as_str(), hash) {
                proof {
                    lemma_objects_map(self.objects@);
                }
                return Some(i);
            }
            i += 1;
        }
        proof {
            lemma_objects_map(self.objects@);
        }
        None
    }

    /// The number of objects in the store.
    pub fn object_count(&self) -> (n: usize)
        requires
            self.wf(),
        ensures
            n == self@.dom().len(),
    {
        proof {
            lemma_objects_map(self.objects@);
        }
        self.objects.len()
    }

    /// Whether a blob is stored under `hash`.
    pub fn has_object(&self, hash: &str) -> (r: bool)
        requires
            self.wf(),
        ensures
            r == self@.contains_key(hash@),
    {
        self.find(hash).is_some()
    }

    /// The blob stored under `hash`, as it is stored: a manifest is given as
    /// its text.
    pub fn open_chunk(&self, hash: &str) -> (r: Option<Vec<u8>>)
        requires
            self.wf(),
        ensures
            match r {
                Some(bytes) => self@.contains_key(hash@) && bytes@ == self@[hash@] && digest_of(
                    bytes@,
                ) == hash@,
                None => !self@.contains_key(hash@),
            },
    {
        match self.find(hash) {
            Some(i) => Some(self.objects[i].data.clone()),
            None => None,
        }
    }

    /// Whether the blob stored under `hash` is a manifest: whether it is
    /// there and its first byte that is not blank is `{`.
    pub fn is_manifest(&self, hash: &str) -> (r: bool)
        requires
            self.wf(),
        ensures
            r == (self@.contains_key(hash@) && is_manifest_text(self@[hash@])),
    {
        match self.find(hash) {
            Some(i) => looks_like_manifest(self.objects[i].data.as_slice()),
            None => false,
        }
    }

    /// Writes `data` under its digest as it is, without chunking, and gives
    /// the digest. Nothing is written where the digest is already there.
    pub fn store_raw(&mut self, data: &[u8]) -> (digest: String)
        requires
            old(self).wf(),
        ensures
            final(self).wf(),
            digest@ == digest_of(data@),
            final(self)@ == put(old(self)@, data@),
            final(self).models() == old(self).models(),
            final(self).listed() == (if old(self)@.contains_key(digest@) {
                old(self).listed()
            } else {
                old(self).listed().push(digest@)
            }),
    {
        let digest = hash_bytes(data);
        proof {
            lemma_objects_map(self.objects@);
        }
        if self.find(digest.as_str()).is_none() {
            let ghost before = self.objects@;
            let object = StoredObject { digest: digest.clone(), data: vstd::slice::slice_to_vec(data) };
            self.objects.push(object);
            proof {
                assert(self.objects@.drop_last() =~= before);
                assert(distinct(self.objects@)) by {
                    assert forall|i: int, j: int| 0 <= i < j < self.objects@.len() implies (
                    #[trigger] self.objects@[i]).digest@ != (#[trigger] self.objects@[j]).digest@ by {
                        assert(self.objects@[i] == before[i]);
                        if j < before.len() {
                            assert(self.objects@[j] == before[j]);
                        }
                    }
                }
            }
        }
        digest
    }

    /// Stores `data` and gives the digest under which it can be retrieved:
    /// that of the bytes where they fit one chunk, else that of the manifest
    /// of their chunks.
    pub fn store(&mut self, data: &[u8]) -> (digest: String)
        requires
            old(self).wf(),
        ensures
            final(self).wf(),
            digest@ == store_digest(data@),
            final(self)@ == stored(old(self)@, data@),
            final(self).models() == old(self).models(),
            old(self).listed().len() <= final(self).listed().len(),
            final(self).listed().take(old(self).listed().len() as int) == old(self).listed(),
    {
        if data.len() <= CHUNK_SIZE {
            return self.store_raw(data);
        }
        let mut digests: Vec<String> = Vec::new();
        let mut pos: usize = 0;
        assert(data@.skip(0) =~= data@);
        while pos < data.len()
            invariant
                pos <= data.len(),
                self.wf(),
                self.models() == old(self).models(),
                old(self).listed().len() <= self.listed().len(),
                self.listed().take(old(self).listed().len() as int) == old(self).listed(),
                put_all(self@, chunks_of(data@.skip(pos as int))) == put_all(
                    old(self)@,
                    chunks_of(data@),
                ),
                crate::manifest::strings_view(digests@) + digests_of(
                    chunks_of(data@.skip(pos as int)),
                ) == digests_of(chunks_of(data@)),
            decreases data.len() - pos,
        {
            let ghost rest = data@.skip(pos as int);
            let ghost before = crate::manifest::strings_view(digests@);
            let end = if data.len() - pos > CHUNK_SIZE {
                pos + CHUNK_SIZE
            } else {
                data.len()
            };
            let chunk = vstd::slice::slice_subrange(data, pos, end);
            proof {
                if data.len() - pos > CHUNK_SIZE {
                    assert(chunk@ =~= rest.take(CHUNK_SIZE as int));
                    assert(rest.skip(CHUNK_SIZE as int) =~= data@.skip(end as int));
                } else {
                    assert(chunk@ =~= rest);
                    assert(data@.skip(end as int) =~= Seq::<u8>::empty());
                    assert(chunks_of(rest) =~= seq![chunk@] + chunks_of(data@.skip(end as int)));
                }
                let later_chunks = chunks_of(data@.skip(end as int));
                assert(chunks_of(rest) =~= seq![chunk@] + later_chunks);
                assert(chunks_of(rest).skip(1) =~= later_chunks);
                assert(digests_of(chunks_of(rest)) =~= seq![digest_of(chunk@)] + digests_of(
                    later_chunks,
                ));
            }
            let digest = self.store_raw(chunk);
            digests.push(digest);
            proof {
                let later_chunks = chunks_of(data@.skip(end as int));
                assert(crate::manifest::strings_view(digests@) =~= before.push(digest_of(chunk@)));
                assert(before.push(digest_of(chunk@)) + digests_of(later_chunks) =~= before + (
                seq![digest_of(chunk@)] + digests_of(later_chunks)));
            }
            pos = end;
        }
        proof {
            assert(crate::manifest::strings_view(digests@) + Seq::<Seq<char>>::empty()
                =~= crate::manifest::strings_view(digests@));
            assert(digests_of(chunks_of(data@.skip(pos as int))) =~= Seq::<Seq<char>>::empty());
        }
        let manifest = FileManifest { total_size: data.len() as u64, chunks: digests, filename: None };
        assert(manifest@ == manifest_of(data@));
        let text = manifest.to_bytes();
        self.store_raw(text.as_slice())
    }

    fn assemble(&self, hash: &str, depth: usize) -> (r: Result<Vec<u8>, StoreError>)
        requires
            self.wf(),
        ensures
            match assembled(self@, hash@, depth as nat) {
                Ok(bytes) => r matches Ok(v) && v@ == bytes,
                Err(e) => r matches Err(e2) && e2 == e,
            },
        decreases depth,
    {
        let i = match self.find(hash) {
            Some(i) => i,
            None => {
                return Err(StoreError::NotFound);
            },
        };
        let raw = self.objects[i].data.as_slice();
        if !looks_like_manifest(raw) {
            return Ok(vstd::slice::slice_to_vec(raw));
        }
        let manifest = match FileManifest::from_bytes(raw) {
            Some(m) => m,
            None => {
                return Err(StoreError::Corrupt);
            },
        };
        if depth == 0 {
            return Err(StoreError::Corrupt);
        }
        let ghost chunks = manifest@.chunks;
        let mut out: Vec<u8> = Vec::new();
        let mut k: usize = 0;
        proof {
            assert(chunks.skip(0) =~= chunks);
            match joined(self@, chunks, (depth - 1) as nat) {
                Ok(rest) => {
                    assert(out@ + rest =~= rest);
                },
                Err(_) => {},
            }
        }
        while k < manifest.chunks.len()
            invariant
                k <= manifest.chunks.len(),
                self.wf(),
                depth >= 1,
                chunks == manifest@.chunks,
                assembled(self@, hash@, depth as nat) == joined(self@, chunks, (depth - 1) as nat),
                joined(self@, chunks, (depth - 1) as nat) == match joined(
                    self@,
                    chunks.skip(k as int),
                    (depth - 1) as nat,
                ) {
                    Ok(rest) => Ok::<Seq<u8>, StoreError>(out@ + rest),
                    Err(_) => Err(StoreError::Corrupt),
                },
            decreases manifest.chunks.len() - k,
        {
            let ghost before = out@;
            let ghost here = chunks.skip(k as int);
            assert(here.len() > 0);
            assert(here[0] == manifest.chunks@[k as int]@);
            assert(here.skip(1) =~= chunks.skip(k + 1));
            match self.assemble(manifest.chunks[k].as_str(), depth - 1) {
                Ok(part) => {
                    let mut part = part;
                    let ghost bytes = part@;
                    out.append(&mut part);
                    proof {
                        match joined(self@, chunks.skip(k + 1), (depth - 1) as nat) {
                            Ok(rest) => {
                                assert(before + (bytes + rest) =~= (before + bytes) + rest);
                            },
                            Err(_) => {},
                        }
                    }
                },
                Err(_) => {
                    return Err(StoreError::Corrupt);
                },
            }
            k += 1;
        }
        assert(out@ + Seq::<u8>::empty() =~= out@);
        Ok(out)
    }

    /// The bytes that were stored under `hash`: the blob itself, or, where
    /// the blob is a manifest, the bytes of its chunks put together.
    pub fn retrieve(&self, hash: &str) -> (r: Result<Vec<u8>, StoreError>)
        requires
            self.wf(),
        ensures
            match retrieved(self@, hash@) {
                Ok(bytes) => r matches Ok(v) && v@ == bytes,
                Err(e) => r matches Err(e2) && e2 == e,
            },
    {
        if hash.as_bytes().len() < 2 {
            return Err(StoreError::InvalidDigest);
        }
        let depth = self.object_count();
        self.assemble(hash, depth)
    }

    /// Notes what is known of a model, in place of what was known of the
    /// model of that digest.
    pub fn store_metadata(&mut self, metadata: &ModelMetadata)
        requires
            old(self).wf(),
        ensures
            final(self).wf(),
            final(self)@ == old(self)@,
            final(self).listed() == old(self).listed(),
            final(self).models() == with_model(old(self).models(), metadata@),
    {
        let ghost before = self.models();
        let copy = ModelMetadata {
            hash: metadata.hash.clone(),
            name: metadata.name.clone(),
            version: metadata.version.clone(),
            size: metadata.size,
            created_at: metadata.created_at,
        };
        match self.find_model(metadata.hash.as_str()) {
            Some(i) => {
                self.models.remove(i);
                self.models.insert(i, copy);
                assert(self.models() =~= before.update(i as int, metadata@));
            },
            None => {
                self.models.push(copy);
                assert(self.models() =~= before.push(metadata@));
            },
        }
    }

    /// What is known of the model with digest `hash`, where anything is.
    pub fn get_metadata(&self, hash: &str) -> (r: Option<ModelMetadata>)
        ensures
            match r {
                Some(metadata) => model_index(self.models(), hash@) < self.models().len()
                    && metadata@ == self.models()[model_index(self.models(), hash@)],
                None => model_index(self.models(), hash@) == self.models().len(),
            },
    {
        match self.find_model(hash) {
            Some(i) => {
                let m = &self.models[i];
                Some(
                    ModelMetadata {
                        hash: m.hash.clone(),
                        name: m.name.clone(),
                        version: m.version.clone(),
                        size: m.size,
                        created_at: m.created_at,
                    },
                )
            },
            None => None,
        }
    }

    fn find_model(&self, hash: &str) -> (r: Option<usize>)
        ensures
            match r {
                Some(i) => i == model_index(self.models(), hash@) && i < self.models.len(),
                None => model_index(self.models(), hash@) == self.models.len(),
            },
    {
        let ghost s = self.models();
        let mut i: usize = 0;
        assert(s.skip(0) =~= s);
        while i < self.models.len()
            invariant
                i <= self.models.len(),
                s == self.models(),
                model_index(s, hash@) == i + model_index(s.skip(i as int), hash@),
            decreases self.models.len() - i,
        {
            assert(s.skip(i as int)[0] == self.models@[i as int]@);
            if str_eq(self.models[i].hash.as_str(), hash) {
                return Some(i);
            }
            assert(s.skip(i as int).skip(1) =~= s.skip(i + 1));
            i += 1;
        }
        None
    }

    /// The digests of the objects of the store, each once, in the order in
    /// which the objects came into it.
    pub closed spec fn listed(&self) -> Seq<Seq<char>> {
        Seq::new(self.objects@.len(), |i: int| self.objects@[i].digest@)
    }

    /// The list of digests names every object of the store, and each once.
    pub proof fn lemma_listed(&self)
        requires
            self.wf(),
        ensures
            self.listed().len() == self@.dom().len(),
            self.listed().no_duplicates(),
            forall|i: int| 0 <= i < self.listed().len() ==> self@.contains_key(
                #[trigger] self.listed()[i],
            ),
            forall|d: Seq<char>| #[trigger] self@.contains_key(d) ==> self.listed().contains(d),
    {
        lemma_objects_map(self.objects@);
        assert forall|d: Seq<char>| #[trigger] self@.contains_key(d) implies self.listed().contains(
            d,
        ) by {
            let i = choose|i: int| 0 <= i < self.objects@.len() && (#[trigger] self.objects@[i]).digest@
                    == d;
            assert(self.listed()[i] == d);
        }
    }

    /// The digest of the object at `index` of the list of digests.
    pub fn digest_at(&self, index: usize) -> (digest: String)
        requires
            self.wf(),
            index < self@.dom().len(),
        ensures
            digest@ == self.listed()[index as int],
            self@.contains_key(digest@),
    {
        proof {
            lemma_objects_map(self.objects@);
        }
        self.objects[index].digest.clone()
    }
}

/// The two parts of the name under which the object of a digest is kept on
/// disk: the first two bytes of the digest name its shard, the rest the
/// object in it. A digest of fewer than two bytes, or one that cannot be cut
/// behind its second byte, has no such name.
pub fn shard_name(digest: &str) -> (r: Option<(String, String)>)
    ensures
        match r {
            Some((shard, rest)) => utf8(shard@) + utf8(rest@) == utf8(digest@) && utf8(shard@).len()
                == 2,
            None => utf8(digest@).len() < 2 || !vstd::utf8::is_char_boundary(utf8(digest@), 2),
        },
{
    if digest.as_bytes().len() < 2 || !digest.is_char_boundary(2) {
        return None;
    }
    let (shard, rest) = digest.split_at(2);
    assert(utf8(shard@) + utf8(rest@) =~= utf8(digest@));
    Some((shard.to_owned(), rest.to_owned()))
}

/// A blob is in the store, under its digest.
pub open spec fn holds(m: Objects, data: Seq<u8>) -> bool {
    m.contains_key(digest_of(data)) && m[digest_of(data)] == data
}

/// No two different blobs share a digest, among those of `parts` and those
/// that the store holds under the digests of `parts`.
pub open spec fn no_clash(m: Objects, parts: Seq<Seq<u8>>) -> bool {
    &&& forall|i: int|
        0 <= i < parts.len() && m.contains_key(digest_of(#[trigger] parts[i])) ==> m[digest_of(
            parts[i],
        )] == parts[i]
    &&& forall|i: int, j: int|
        0 <= i < parts.len() && 0 <= j < parts.len() && digest_of(#[trigger] parts[i])
            == digest_of(#[trigger] parts[j]) ==> parts[i] == parts[j]
}

/// Writing never removes or changes what a store holds.
pub proof fn lemma_put_all_keeps(m: Objects, parts: Seq<Seq<u8>>)
    ensures
        forall|d: Seq<char>| #[trigger]
            m.contains_key(d) ==> put_all(m, parts).contains_key(d) && put_all(m, parts)[d] == m[d],
        m.dom().finite() ==> put_all(m, parts).dom().finite(),
        intact(m) && (forall|i: int| 0 <= i < parts.len() ==> digest_of(#[trigger] parts[i]).len()
            == DIGEST_LEN) ==> intact(put_all(m, parts)),
    decreases parts.len(),
{
    if parts.len() > 0 {
        let next = put(m, parts[0]);
        lemma_put_all_keeps(next, parts.skip(1));
        assert(put_all(m, parts) == put_all(next, parts.skip(1)));
        assert forall|d: Seq<char>| #[trigger] m.contains_key(d) implies put_all(
            m,
            parts,
        ).contains_key(d) && put_all(m, parts)[d] == m[d] by {
            assert(next.contains_key(d) && next[d] == m[d]);
        }
        if intact(m) && (forall|i: int| 0 <= i < parts.len() ==> digest_of(#[trigger] parts[i]).len()
            == DIGEST_LEN) {
            assert(digest_of(parts[0]).len() == DIGEST_LEN);
            assert(intact(next));
            assert forall|i: int| 0 <= i < parts.skip(1).len() implies digest_of(
                #[trigger] parts.skip(1)[i],
            ).len() == DIGEST_LEN by {
                assert(parts.skip(1)[i] == parts[i + 1]);
            }
        }
    }
}

/// After writing, the digest of every written part is in the store.
pub proof fn lemma_put_all_contains(m: Objects, parts: Seq<Seq<u8>>)
    ensures
        forall|i: int|
            0 <= i < parts.len() ==> put_all(m, parts).contains_key(digest_of(#[trigger] parts[i])),
    decreases parts.len(),
{
    if parts.len() > 0 {
        let next = put(m, parts[0]);
        lemma_put_all_contains(next, parts.skip(1));
        lemma_put_all_keeps(next, parts.skip(1));
        assert(put_all(m, parts) == put_all(next, parts.skip(1)));
        assert forall|i: int| 0 <= i < parts.len() implies put_all(m, parts).contains_key(
            digest_of(#[trigger] parts[i]),
        ) by {
            if i > 0 {
                assert(parts.skip(1)[i - 1] == parts[i]);
            } else {
                assert(next.contains_key(digest_of(parts[0])));
            }
        }
    }
}

/// Writing parts whose digests are all in the store changes nothing.
pub proof fn lemma_put_all_present(m: Objects, parts: Seq<Seq<u8>>)
    requires
        forall|i: int| 0 <= i < parts.len() ==> m.contains_key(digest_of(#[trigger] parts[i])),
    ensures
        put_all(m, parts) == m,
    decreases parts.len(),
{
    if parts.len() > 0 {
        assert(m.contains_key(digest_of(parts[0])));
        assert forall|i: int| 0 <= i < parts.skip(1).len() implies m.contains_key(
            digest_of(#[trigger] parts.skip(1)[i]),
        ) by {
            assert(parts.skip(1)[i] == parts[i + 1]);
        }
        lemma_put_all_present(m, parts.skip(1));
    }
}

/// Where no digests clash, every written part is in the store afterwards,
/// under its digest.
pub proof fn lemma_put_all_holds(m: Objects, parts: Seq<Seq<u8>>)
    requires
        no_clash(m, parts),
    ensures
        forall|i: int| 0 <= i < parts.len() ==> holds(put_all(m, parts), #[trigger] parts[i]),
    decreases parts.len(),
{
    if parts.len() > 0 {
        let next = put(m, parts[0]);
        let rest = parts.skip(1);
        assert(no_clash(next, rest)) by {
            assert forall|i: int|
                0 <= i < rest.len() && next.contains_key(digest_of(#[trigger] rest[i])) implies next[digest_of(
                rest[i],
            )] == rest[i] by {
                assert(rest[i] == parts[i + 1]);
            }
            assert forall|i: int, j: int|
                0 <= i < rest.len() && 0 <= j < rest.len() && digest_of(#[trigger] rest[i])
                    == digest_of(#[trigger] rest[j]) implies rest[i] == rest[j] by {
                assert(rest[i] == parts[i + 1] && rest[j] == parts[j + 1]);
            }
        }
        lemma_put_all_holds(next, rest);
        lemma_put_all_keeps(next, rest);
        assert(holds(next, parts[0]));
        assert forall|i: int| 0 <= i < parts.len() implies holds(
            put_all(m, parts),
            #[trigger] parts[i],
        ) by {
            if i > 0 {
                assert(rest[i - 1] == parts[i]);
            }
        }
    }
}

/// The chunks of a file put together are the file.
pub proof fn lemma_concat_chunks(data: Seq<u8>)
    ensures
        concat(chunks_of(data)) == data,
    decreases data.len(),
{
    if data.len() == 0 {
        assert(concat(chunks_of(data)) =~= data);
    } else if data.len() <= CHUNK_SIZE {
        assert(chunks_of(data).skip(1) =~= Seq::<Seq<u8>>::empty());
        assert(concat(chunks_of(data).skip(1)) =~= Seq::<u8>::empty());
        assert(chunks_of(data)[0] == data);
        assert(concat(chunks_of(data)) =~= data);
    } else {
        let rest = data.skip(CHUNK_SIZE as int);
        lemma_concat_chunks(rest);
        assert(chunks_of(data).skip(1) =~= chunks_of(rest));
        assert(chunks_of(data)[0] == data.take(CHUNK_SIZE as int));
        assert(data.take(CHUNK_SIZE as int) + rest =~= data);
    }
}

/// Chunks that are in the store and are no manifests are put together as
/// they are.
pub proof fn lemma_joined_plain(m: Objects, parts: Seq<Seq<u8>>, depth: nat)
    requires
        forall|i: int|
            0 <= i < parts.len() ==> holds(m, #[trigger] parts[i]) && !is_manifest_text(parts[i]),
    ensures
        joined(m, digests_of(parts), depth) == Ok::<Seq<u8>, StoreError>(concat(parts)),
    decreases parts.len(),
{
    if parts.len() > 0 {
        let rest = parts.skip(1);
        assert forall|i: int| 0 <= i < rest.len() implies holds(m, #[trigger] rest[i])
            && !is_manifest_text(rest[i]) by {
            assert(rest[i] == parts[i + 1]);
        }
        lemma_joined_plain(m, rest, depth);
        assert(digests_of(parts).skip(1) =~= digests_of(rest));
        assert(holds(m, parts[0]));
        assert(digests_of(parts)[0] == digest_of(parts[0]));
        assert(assembled(m, digest_of(parts[0]), depth) == Ok::<Seq<u8>, StoreError>(parts[0]));
        assert(concat(parts) == parts[0] + concat(rest));
    }
}

/// A digest of the right length has as many bytes as it has characters,
/// which is more than a shard name has.
pub proof fn lemma_digest_utf8_len(data: Seq<u8>)
    requires
        digest_of(data).len() == DIGEST_LEN,
    ensures
        utf8(digest_of(data)).len() == DIGEST_LEN,
{
    let d = digest_of(data);
    crate::digest::lemma_hex_lower_chars(crate::digest::blake3_hash(data));
    assert(vstd::utf8::is_ascii_chars(d)) by {
        assert forall|i: int| 0 <= i < d.len() implies 0 <= #[trigger] (d[i] as nat) < 128 by {
            assert(crate::digest::is_hex_char(d[i]));
        }
    }
    vstd::utf8::is_ascii_chars_encode_utf8(d);
}

/// What is stored can be retrieved: after `store` of `data`, `retrieve` of
/// the digest that `store` gave is `data`.
///
/// This holds where `data` is not itself taken for a manifest (nor any of
/// its chunks, where it is stored in chunks), and where no two different
/// blobs among those involved share a digest.
pub proof fn lemma_store_then_retrieve(before: StorageManager, after: StorageManager, data: Seq<u8>)
    requires
        before.wf(),
        after.wf(),
        after@ == stored(before@, data),
        data.len() <= CHUNK_SIZE ==> !is_manifest_text(data) && no_clash(before@, seq![data]),
        data.len() > CHUNK_SIZE ==> no_clash(
            before@,
            chunks_of(data).push(manifest_text(manifest_of(data))),
        ) && forall|i: int|
            0 <= i < chunks_of(data).len() ==> !is_manifest_text(#[trigger] chunks_of(data)[i]),
    ensures
        retrieved(after@, store_digest(data)) == Ok::<Seq<u8>, StoreError>(data),
{
    let m = before@;
    let m2 = after@;
    before.lemma_wf();
    after.lemma_wf();
    if data.len() <= CHUNK_SIZE {
        assert(seq![data][0] == data);
        assert(holds(m2, data));
        lemma_digest_utf8_len(data);
    } else {
        let parts = chunks_of(data);
        let text = manifest_text(manifest_of(data));
        let all = parts.push(text);
        let m1 = put_all(m, parts);
        assert(put_all(m, all) == m2) by {
            lemma_put_all_push(m, parts, text);
        }
        lemma_put_all_holds(m, all);
        assert(holds(m2, text)) by {
            assert(all[parts.len() as int] == text);
        }
        assert forall|i: int| 0 <= i < parts.len() implies holds(m2, #[trigger] parts[i])
            && !is_manifest_text(parts[i]) by {
            assert(all[i] == parts[i]);
        }
        lemma_digest_utf8_len(text);
        lemma_manifest_round_trip(manifest_of(data));
        assert(m2.dom().len() >= 1) by {
            vstd::set::axiom_set_contains_len(m2.dom(), digest_of(text));
        }
        lemma_joined_plain(m2, parts, (m2.dom().len() - 1) as nat);
        lemma_concat_chunks(data);
    }
}

/// Writing parts and then one more is writing them all.
pub proof fn lemma_put_all_push(m: Objects, parts: Seq<Seq<u8>>, last: Seq<u8>)
    ensures
        put_all(m, parts.push(last)) == put(put_all(m, parts), last),
    decreases parts.len(),
{
    let all = parts.push(last);
    if parts.len() == 0 {
        assert(all.skip(1) =~= Seq::<Seq<u8>>::empty());
        assert(put_all(put(m, last), all.skip(1)) == put(m, last));
    } else {
        assert(all.skip(1) =~= parts.skip(1).push(last));
        assert(all[0] == parts[0]);
        lemma_put_all_push(put(m, parts[0]), parts.skip(1), last);
    }
}

/// Blobs are never changed and never removed: whatever a store holds, it
/// holds unchanged after anything else was stored.
pub proof fn lemma_store_keeps(m: Objects, data: Seq<u8>)
    ensures
        forall|d: Seq<char>| #[trigger]
            m.contains_key(d) ==> stored(m, data).contains_key(d) && stored(m, data)[d] == m[d],
{
    if data.len() > CHUNK_SIZE {
        lemma_put_all_keeps(m, chunks_of(data));
    }
}

/// After a file was stored in chunks, the store has every chunk that its
/// manifest lists, and the manifest.
pub proof fn lemma_store_chunk_closure(m: Objects, data: Seq<u8>)
    requires
        data.len() > CHUNK_SIZE,
    ensures
        stored(m, data).contains_key(store_digest(data)),
        forall|i: int|
            0 <= i < manifest_of(data).chunks.len() ==> stored(m, data).contains_key(
                #[trigger] manifest_of(data).chunks[i],
            ),
{
    let parts = chunks_of(data);
    lemma_put_all_contains(m, parts);
    assert forall|i: int| 0 <= i < manifest_of(data).chunks.len() implies stored(
        m,
        data,
    ).contains_key(#[trigger] manifest_of(data).chunks[i]) by {
        assert(manifest_of(data).chunks[i] == digest_of(parts[i]));
        assert(put_all(m, parts).contains_key(digest_of(parts[i])));
    }
}

/// Storing the same bytes a second time changes nothing, and gives the same
/// digest: the digest is a function of the bytes alone.
pub proof fn lemma_store_idempotent(m: Objects, data: Seq<u8>)
    ensures
        stored(stored(m, data), data) == stored(m, data),
        stored(m, data).contains_key(store_digest(data)),
{
    if data.len() > CHUNK_SIZE {
        let parts = chunks_of(data);
        let text = manifest_text(manifest_of(data));
        let m1 = put_all(m, parts);
        let m2 = put(m1, text);
        lemma_put_all_contains(m, parts);
        assert forall|i: int| 0 <= i < parts.len() implies m2.contains_key(
            digest_of(#[trigger] parts[i]),
        ) by {}
        lemma_put_all_present(m2, parts);
    }
}

} // verus!
