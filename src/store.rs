use crate::cipher::{padded_len, CipherConfig, BLOCK_LEN, MAX_CIPHER_INPUT, MAX_PLAINTEXT_LEN};
use crate::error::StoreError;
use crate::ident::{content_identifier, hex_lower, is_content_id, is_lower_hex, sha256_of};
use crate::resize::{
    parse_resize_param, query_lookup, query_param, resize_image, resize_image_spec,
    resize_param_spec,
};
use vstd::prelude::*;

verus! {

/// The reference handed back for a stored object: the configured base address
/// followed by the identifier.
pub fn locator(base: &str, identifier: &str) -> (r: String)
    ensures
        r@ == base@ + identifier@,
{
    let mut out = String::from_str(base);
    out.append(identifier);
    out
}

/// The identifier the content-hash policy gives to `data`.
pub open spec fn content_id_spec(data: Seq<u8>) -> Seq<char> {
    hex_lower(sha256_of(data))
}

fn is_content_id_exec(s: &str) -> (r: bool)
    ensures
        r == is_content_id(s@),
{
    let n = s.unicode_len();
    if n != 64 {
        return false;
    }
    let mut i: usize = 0;
    while i < n
        invariant
            n == s@.len(),
            i <= n,
            forall|k: int| 0 <= k < i ==> is_lower_hex(#[trigger] s@[k]),
        decreases n - i,
    {
        let c = s.get_char(i);
        if !(('0' <= c && c <= '9') || ('a' <= c && c <= 'f')) {
            return false;
        }
        i = i + 1;
    }
    true
}

/// The in-memory index of the content-hash policy: the identifiers of the
/// objects already stored, each once.
pub struct HashIndex {
    ids: Vec<String>,
}

impl View for HashIndex {
    type V = Set<Seq<char>>;

    closed spec fn view(&self) -> Set<Seq<char>> {
        Set::new(|s: Seq<char>| exists|i: int| 0 <= i < self.ids@.len() && self.ids@[i]@ == s)
    }
}

impl HashIndex {
    /// No identifier is held twice.
    pub closed spec fn wf(&self) -> bool {
        forall|i: int, j: int|
            0 <= i < j < self.ids@.len() ==> #[trigger] self.ids@[i]@ != #[trigger] self.ids@[j]@
    }

    /// How many objects the index holds.
    pub closed spec fn len_spec(&self) -> nat {
        self.ids@.len()
    }

    /// An empty index.
    pub fn new() -> (r: HashIndex)
        ensures
            r.wf(),
            r@ == Set::<Seq<char>>::empty(),
            r.len_spec() == 0,
    {
        let r = HashIndex { ids: Vec::new() };
        assert(r@ =~= Set::<Seq<char>>::empty());
        r
    }

    /// Whether `id` is indexed.
    pub fn contains(&self, id: &String) -> (r: bool)
        ensures
            r == self@.contains(id@),
    {
        let mut i: usize = 0;
        while i < self.ids.len()
            invariant
                i <= self.ids@.len(),
                forall|k: int| 0 <= k < i ==> self.ids@[k]@ != id@,
            decreases self.ids@.len() - i,
        {
            if self.ids[i].eq(id) {
                assert(self@.contains(id@) == true) by {
                    assert(self.ids@[i as int]@ == id@);
                }
                return true;
            }
            i = i + 1;
        }
        false
    }

    /// How many objects the index holds.
    pub fn len(&self) -> (r: usize)
        requires
            self.wf(),
        ensures
            r == self.len_spec(),
            r == self@.len(),
    {
        proof {
            self.lemma_len();
        }
        self.ids.len()
    }

    proof fn lemma_len(&self)
        requires
            self.wf(),
        ensures
            self@.finite(),
            self@.len() == self.len_spec(),
        decreases self.ids@.len(),
    {
        let s = self.ids@.map_values(|x: String| x@);
        assert forall|i: int, j: int| 0 <= i < j < s.len() implies s[i] != s[j] by {
            assert(self.ids@[i]@ != self.ids@[j]@);
        }
        assert(s.no_duplicates());
        s.unique_seq_to_set();
        assert(self@ =~= s.to_set()) by {
            assert forall|x: Seq<char>| self@.contains(x) implies s.to_set().contains(x) by {
                let i = choose|i: int| 0 <= i < self.ids@.len() && self.ids@[i]@ == x;
                assert(s[i] == x);
            }
            assert forall|x: Seq<char>| s.to_set().contains(x) implies self@.contains(x) by {
                let i = choose|i: int| 0 <= i < s.len() && s[i] == x;
                assert(self.ids@[i]@ == x);
            }
        }
    }

    /// An index of the stored objects whose file names are content-hash
    /// identifiers (64 lowercase hex digits), for rebuilding the index from
    /// the backing directory at start; other names are skipped.
    pub fn rebuild(names: &Vec<String>) -> (r: HashIndex)
        ensures
            r.wf(),
            forall|s: Seq<char>|
                #![trigger r@.contains(s)]
                r@.contains(s) <==> (is_content_id(s) && exists|i: int|
                    0 <= i < names@.len() && names@[i]@ == s),
    {
        let mut index = HashIndex::new();
        let mut i: usize = 0;
        while i < names.len()
            invariant
                i <= names@.len(),
                index.wf(),
                forall|s: Seq<char>|
                    #![trigger index@.contains(s)]
                    index@.contains(s) <==> (is_content_id(s) && exists|k: int|
                        0 <= k < i && names@[k]@ == s),
            decreases names@.len() - i,
        {
            let ghost prev = index@;
            if is_content_id_exec(names[i].as_str()) {
                index.insert(names[i].clone());
            }
            assert forall|s: Seq<char>| #![trigger index@.contains(s)]
                index@.contains(s) <==> (is_content_id(s) && exists|k: int|
                    0 <= k < i + 1 && names@[k]@ == s) by {
                if is_content_id(s) && exists|k: int| 0 <= k < i + 1 && names@[k]@ == s {
                    let k = choose|k: int| 0 <= k < i + 1 && names@[k]@ == s;
                    if k < i {
                        assert(prev.contains(s));
                    }
                }
                if prev.contains(s) {
                    let k = choose|k: int| 0 <= k < i && names@[k]@ == s;
                    assert(0 <= k < i + 1 && names@[k]@ == s);
                }
                if index@.contains(s) && !prev.contains(s) {
                    assert(s == names@[i as int]@);
                }
            }
            i = i + 1;
        }
        index
    }

    /// Records `id` after its object was written; an identifier already held
    /// is not added again.
    pub fn insert(&mut self, id: String)
        requires
            old(self).wf(),
        ensures
            final(self).wf(),
            final(self)@ == old(self)@.insert(id@),
    {
        if self.contains(&id) {
            assert(self@ =~= self@.insert(id@));
            return;
        }
        let ghost prev = self.ids@;
        self.ids.push(id);
        assert(self@ =~= old(self)@.insert(id@)) by {
            assert forall|x: Seq<char>| #[trigger] self@.contains(x) implies old(self)@.insert(
                x,
            ).contains(x) && (old(self)@.contains(x) || x == id@) by {
                let i = choose|i: int| 0 <= i < self.ids@.len() && self.ids@[i]@ == x;
                if i < prev.len() {
                    assert(prev[i]@ == x);
                }
            }
            assert forall|x: Seq<char>| #[trigger] old(self)@.contains(x) implies self@.contains(
                x,
            ) by {
                let i = choose|i: int| 0 <= i < prev.len() && prev[i]@ == x;
                assert(self.ids@[i]@ == x);
            }
            assert(self.ids@[prev.len() as int]@ == id@);
        }
    }
}

/// What an ingest under the content-hash policy has to do.
pub enum HashedIngest {
    /// The content is already stored under `identifier`: nothing is written.
    Stored { identifier: String },
    /// `ciphertext` is to be written under `identifier`, which is then
    /// recorded in the index.
    Write { identifier: String, ciphertext: Vec<u8> },
}

/// Whether an ingest of `data` under the content-hash policy writes a file,
/// given the identifiers already indexed.
pub open spec fn hashed_ingest_writes(index: Set<Seq<char>>, data: Seq<u8>) -> bool {
    !index.contains(content_id_spec(data))
}

/// Decides an ingest of `data` under the content-hash policy: content whose
/// identifier is indexed is not written again; other content is encrypted
/// for writing. The caller holds the index's lock from this call until the
/// identifier of a written object is inserted.
pub fn plan_hashed_ingest(index: &HashIndex, cfg: &CipherConfig, data: &[u8]) -> (r: Result<
    HashedIngest,
    StoreError,
>)
    requires
        cfg.wf(),
    ensures
        match r {
            Ok(HashedIngest::Stored { identifier }) => {
                &&& identifier@ == content_id_spec(data@)
                &&& is_content_id(identifier@)
                &&& !hashed_ingest_writes(index@, data@)
            },
            Ok(HashedIngest::Write { identifier, ciphertext }) => {
                &&& identifier@ == content_id_spec(data@)
                &&& is_content_id(identifier@)
                &&& hashed_ingest_writes(index@, data@)
                &&& data@.len() <= MAX_PLAINTEXT_LEN
                &&& cfg.seal_spec(data@) == Some(ciphertext@)
                &&& cfg.open_spec(ciphertext@) == Some(data@)
                &&& ciphertext@.len() == padded_len(data@.len())
            },
            Err(e) => {
                &&& e == StoreError::DecodeError
                &&& hashed_ingest_writes(index@, data@)
                &&& (data@.len() > MAX_PLAINTEXT_LEN || cfg.seal_spec(data@) is None)
            },
        },
{
    let identifier = content_identifier(data);
    if index.contains(&identifier) {
        return Ok(HashedIngest::Stored { identifier });
    }
    match cfg.encrypt(data) {
        Ok(ciphertext) => Ok(HashedIngest::Write { identifier, ciphertext }),
        Err(e) => Err(e),
    }
}

/// Ingesting the same content twice under the content-hash policy gives the
/// same identifier, and once the first ingest recorded it the second writes
/// nothing and leaves the index as it was: one object for the content.
pub proof fn lemma_hashed_ingest_idempotent(index: Set<Seq<char>>, data: Seq<u8>)
    ensures
        !hashed_ingest_writes(index.insert(content_id_spec(data)), data),
        index.insert(content_id_spec(data)).insert(content_id_spec(data)) == index.insert(
            content_id_spec(data),
        ),
{
    assert(index.insert(content_id_spec(data)).insert(content_id_spec(data)) =~= index.insert(
        content_id_spec(data),
    ));
}

/// What reading an object's file gave.
pub enum ReadOutcome {
    /// The file's bytes.
    Found(Vec<u8>),
    /// No file of that name.
    Missing,
    /// Any other read failure.
    Failed,
}

/// The bytes a retrieval returns, and whether they were re-encoded as JPEG.
pub struct Retrieved {
    pub body: Vec<u8>,
    pub is_jpeg: bool,
}

/// The query key that carries a resize directive.
pub const RESIZE_KEY: &'static str = "resize";

/// The resize a query string asks for: its `resize` value read as a
/// `WIDTHxHEIGHT` directive, or `None` where it has none or it is malformed.
pub open spec fn resize_request(query: Seq<char>) -> Option<(u32, u32)> {
    match query_lookup(query, RESIZE_KEY@, query.len() as int) {
        Some(v) => resize_param_spec(v),
        None => None,
    }
}

/// The resize a query string asks for (see [`resize_request`]).
pub fn resize_from_query(query: &str) -> (r: Option<(u32, u32)>)
    ensures
        r == resize_request(query@),
{
    match query_param(query, RESIZE_KEY) {
        Some(v) => parse_resize_param(v.as_str()),
        None => None,
    }
}

/// Serves a stored object from what reading its file gave: a missing file is
/// `NotFound`, another read failure `IoError`, ciphertext that does not
/// decrypt `DecodeError`. The plaintext is returned as it is unless `query`
/// holds a well-formed resize directive; then it is decoded as an image,
/// scaled and re-encoded as JPEG, and a payload that is no image is a
/// `DecodeError`.
pub fn retrieve(cfg: &CipherConfig, read: ReadOutcome, query: &str) -> (r: Result<
    Retrieved,
    StoreError,
>)
    requires
        cfg.wf(),
    ensures
        read is Missing ==> r == Err::<Retrieved, StoreError>(StoreError::NotFound),
        read is Failed ==> r == Err::<Retrieved, StoreError>(StoreError::IoError),
        read is Found && read->Found_0@.len() > MAX_CIPHER_INPUT ==> r == Err::<
            Retrieved,
            StoreError,
        >(StoreError::DecodeError),
        read is Found && read->Found_0@.len() <= MAX_CIPHER_INPUT ==> match cfg.open_spec(
            read->Found_0@,
        ) {
            None => r == Err::<Retrieved, StoreError>(StoreError::DecodeError),
            Some(plain) => match resize_request(query@) {
                None => r is Ok && r->Ok_0.body@ == plain && !r->Ok_0.is_jpeg,
                Some((w, h)) => match resize_image_spec(plain, w, h) {
                    Some(b) => r is Ok && r->Ok_0.body@ == b && r->Ok_0.is_jpeg,
                    None => r == Err::<Retrieved, StoreError>(StoreError::DecodeError),
                },
            },
        },
        read is Found && (read->Found_0@.len() == 0 || read->Found_0@.len() % BLOCK_LEN as nat
            != 0) ==> r == Err::<Retrieved, StoreError>(StoreError::DecodeError),
        read is Found && (forall|p: Seq<u8>| #[trigger] cfg.seal_spec(p) != Some(read->Found_0@))
            ==> r == Err::<Retrieved, StoreError>(StoreError::DecodeError),
{
    let ciphertext = match read {
        ReadOutcome::Found(bytes) => bytes,
        ReadOutcome::Missing => return Err(StoreError::NotFound),
        ReadOutcome::Failed => return Err(StoreError::IoError),
    };
    let plain = match cfg.decrypt(ciphertext.as_slice()) {
        Ok(p) => p,
        Err(e) => return Err(e),
    };
    match resize_from_query(query) {
        None => Ok(Retrieved { body: plain, is_jpeg: false }),
        Some((w, h)) => match resize_image(plain.as_slice(), w, h) {
            Ok(body) => Ok(Retrieved { body, is_jpeg: true }),
            Err(e) => Err(e),
        },
    }
}

/// The sum of `sizes`.
pub open spec fn total_of(sizes: Seq<u64>) -> int
    decreases sizes.len(),
{
    if sizes.len() == 0 {
        0
    } else {
        total_of(sizes.drop_last()) + sizes.last() as int
    }
}

/// A point-in-time snapshot of the backing store.
pub struct StoreStats {
    pub object_count: u64,
    pub total_bytes: u64,
}

/// The snapshot of a store whose files have the sizes `sizes`: their number,
/// and their combined size, held at `u64::MAX` where it would exceed it.
pub fn tally(sizes: &[u64]) -> (r: StoreStats)
    ensures
        r.object_count == sizes@.len(),
        r.total_bytes == if total_of(sizes@) > u64::MAX {
            u64::MAX as int
        } else {
            total_of(sizes@)
        },
{
    let mut count: u64 = 0;
    let mut total: u64 = 0;
    let mut i: usize = 0;
    while i < sizes.len()
        invariant
            i <= sizes@.len(),
            count == i,
            total == if total_of(sizes@.subrange(0, i as int)) > u64::MAX {
                u64::MAX as int
            } else {
                total_of(sizes@.subrange(0, i as int))
            },
        decreases sizes@.len() - i,
    {
        assert(sizes@.subrange(0, i as int + 1).drop_last() =~= sizes@.subrange(0, i as int));
        proof {
            lemma_total_nonneg(sizes@.subrange(0, i as int));
        }
        total = total.saturating_add(sizes[i]);
        count = count + 1;
        i = i + 1;
    }
    assert(sizes@.subrange(0, i as int) =~= sizes@);
    StoreStats { object_count: count, total_bytes: total }
}

proof fn lemma_total_nonneg(sizes: Seq<u64>)
    ensures
        total_of(sizes) >= 0,
    decreases sizes.len(),
{
    if sizes.len() > 0 {
        lemma_total_nonneg(sizes.drop_last());
    }
}

/// What an exclusive-create write of an object's file gave.
pub enum WriteOutcome {
    /// The file was created and filled.
    Written,
    /// A file of that name already existed; nothing was written.
    AlreadyExists,
    /// Any other write failure.
    Failed,
}

/// Finishes one write attempt of the random-token policy under
/// `identifier`: a written file gives the locator, a name already taken asks
/// for another name (`None`), any other failure is an `IoError`.
pub fn finish_random_write(base: &str, identifier: &str, outcome: WriteOutcome) -> (r: Option<
    Result<String, StoreError>,
>)
    ensures
        outcome is Written ==> r is Some && r->Some_0 is Ok && r->Some_0->Ok_0@ == base@
            + identifier@,
        outcome is AlreadyExists ==> r is None,
        outcome is Failed ==> r == Some(Err::<String, StoreError>(StoreError::IoError)),
{
    match outcome {
        WriteOutcome::Written => Some(Ok(locator(base, identifier))),
        WriteOutcome::AlreadyExists => None,
        WriteOutcome::Failed => Some(Err(StoreError::IoError)),
    }
}

/// Finishes the write of a content-hash ingest under `identifier`, the
/// index's lock still held. A file that was written, or that already existed
/// under its content's digest, is recorded in the index and gives the
/// locator; any other failure is an `IoError` and leaves the index as it was.
pub fn finish_hashed_write(
    index: &mut HashIndex,
    base: &str,
    identifier: String,
    outcome: WriteOutcome,
) -> (r: Result<String, StoreError>)
    requires
        old(index).wf(),
    ensures
        final(index).wf(),
        outcome is Failed ==> r == Err::<String, StoreError>(StoreError::IoError) && final(index)@
            == old(index)@,
        !(outcome is Failed) ==> r is Ok && r->Ok_0@ == base@ + identifier@ && final(index)@
            == old(index)@.insert(identifier@),
{
    match outcome {
        WriteOutcome::Failed => Err(StoreError::IoError),
        _ => {
            let link = locator(base, identifier.as_str());
            index.insert(identifier);
            Ok(link)
        },
    }
}

} // verus!
