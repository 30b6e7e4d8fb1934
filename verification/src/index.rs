//! The index entry of a block: which sessions it holds, when they were
//! created, and a Bloom filter over their words.
use vstd::prelude::*;
use vstd::hash_set::StringHashSet;
use crate::codec::{zstd_decode, zstd_decoded, zstd_encode, zstd_encoded, COMPRESSION_LEVEL};
use crate::storage::types::StorageError;
use crate::text::{decimal, format_number, string_of, tokens, tokens_of};

verus! {

/// Share of foreign words that the filter of a block may let pass. It is
/// kept as text: the filter's builder reads a floating-point number from it.
pub const FALSE_POSITIVE_RATE: &'static str = "0.05";

/// Seed of every filter's hasher: filters built at different times agree.
pub const FILTER_SEED: u128 = 0x517CC1B727220A95;

/// Parameters for creating a `BlockIndex`.
pub struct BlockIndexParams<'a> {
    /// Text content to be tokenized and indexed.
    pub content: &'a str,
    /// Minimum timestamp (Unix epoch seconds).
    pub min_time: u64,
    /// Maximum timestamp (Unix epoch seconds).
    pub max_time: u64,
    /// Byte offset in the data file.
    pub data_offset: u64,
    /// Size of the compressed block in bytes.
    pub compressed_size: u32,
    /// Size of the uncompressed data in bytes.
    pub uncompressed_size: u32,
    /// Number of messages in this block.
    pub message_count: u32,
}

/// A complaint about two numbers: `lead`, the first, `middle`, the second,
/// and a closing bracket.
pub open spec fn complaint(lead: Seq<char>, a: nat, middle: Seq<char>, b: nat) -> Seq<char> {
    lead + decimal(a) + middle + decimal(b) + seq![')']
}

fn complain(lead: &str, a: u64, middle: &str, b: u64) -> (r: String)
    ensures
        r@ == complaint(lead@, a as nat, middle@, b as nat),
{
    let mut out = String::new();
    out.append(lead);
    let first = string_of(format_number(a).as_slice());
    out.append(first.as_str());
    out.append(middle);
    let second = string_of(format_number(b).as_slice());
    out.append(second.as_str());
    out.push(')');
    assert(out@ =~= complaint(lead@, a as nat, middle@, b as nat));
    out
}

impl<'a> BlockIndexParams<'a> {
    /// What is wrong with the parameters, if anything: the time range first,
    /// then the sizes, then the message count.
    pub open spec fn complaint(self) -> Option<Seq<char>> {
        if self.min_time > self.max_time {
            Some(
                complaint(
                    "Invalid time range: min_time ("@,
                    self.min_time as nat,
                    ") > max_time ("@,
                    self.max_time as nat,
                ),
            )
        } else if self.compressed_size > self.uncompressed_size {
            Some(
                complaint(
                    "Invalid compression: compressed_size ("@,
                    self.compressed_size as nat,
                    ") > uncompressed_size ("@,
                    self.uncompressed_size as nat,
                ),
            )
        } else if self.message_count == 0 {
            Some("Block must contain at least one message (message_count == 0)"@)
        } else {
            None
        }
    }

    /// Validates invariants: time range, compression ratio, and message count.
    pub fn validate(&self) -> (r: Result<(), String>)
        ensures
            match r {
                Ok(_) => self.complaint() is None,
                Err(text) => self.complaint() == Some(text@),
            },
            r is Ok <==> self.min_time <= self.max_time && self.compressed_size
                <= self.uncompressed_size && self.message_count > 0,
    {
        if self.min_time > self.max_time {
            return Err(
                complain(
                    "Invalid time range: min_time (",
                    self.min_time,
                    ") > max_time (",
                    self.max_time,
                ),
            );
        }
        if self.compressed_size > self.uncompressed_size {
            return Err(
                complain(
                    "Invalid compression: compressed_size (",
                    self.compressed_size as u64,
                    ") > uncompressed_size (",
                    self.uncompressed_size as u64,
                ),
            );
        }
        if self.message_count == 0 {
            return Err(
                "Block must contain at least one message (message_count == 0)".to_owned(),
            );
        }
        Ok(())
    }
}

/// A Bloom filter over words.
#[verifier::external_body]
pub struct TokenFilter {
    inner: fastbloom::BloomFilter,
}

/// The parts of a hasher, in the order in which they are serialised: two
/// keys, the number of bytes read, four words of state, the bytes that wait,
/// and their number.
pub type HasherRow = (u64, u64, u64, (u64, u64, u64, u64), u64, u64);

/// The parts of a filter, in the order in which they are serialised: its bits
/// in words, the number of hashes less one, and its hasher.
pub type FilterRow = (Vec<u64>, u32, HasherRow);

pub type FilterRowView = (Seq<u64>, u32, HasherRow);

/// The parts of a filter.
pub uninterp spec fn filter_row(filter: TokenFilter) -> FilterRowView;

/// Whether a filter of these parts lets a word pass, as
/// `BloomFilter::contains` says.
pub uninterp spec fn passes(row: (Seq<u64>, u32, HasherRow), word: Seq<char>) -> bool;

/// A number with its bytes in the opposite order.
pub open spec fn byte_swapped(x: u64) -> u64 {
    ((x & 0xff) << 56) | ((x & 0xff00) << 40) | ((x & 0xff_0000) << 24) | ((x & 0xff00_0000) << 8)
        | ((x >> 8) & 0xff00_0000) | ((x >> 24) & 0xff_0000) | ((x >> 40) & 0xff00) | (x >> 56)
}

/// The hasher that `seed` gives a filter: SipHash with the two halves of the
/// seed, most significant byte first, as its keys, before it has read anything.
pub open spec fn seeded_hasher(seed: u128) -> HasherRow {
    let k0 = byte_swapped((seed >> 64) as u64);
    let k1 = byte_swapped((seed & 0xffff_ffff_ffff_ffff) as u64);
    let v0 = k0 ^ 0x736f6d6570736575;
    let v1 = k1 ^ 0x646f72616e646f6d;
    let v2 = k0 ^ 0x6c7967656e657261;
    let v3 = k1 ^ 0x7465646279746573;
    (k0, k1, 0, (v0, v2, v1, v3), 0, 0)
}

/// A filter can be asked: it has bits, and its hasher can read on, as its
/// count of bytes leaves room for any word and fewer than eight bytes wait.
pub open spec fn is_usable(row: FilterRowView) -> bool {
    row.0.len() > 0 && row.2.2 <= isize::MAX && row.2.5 < 8
}

/// `BloomFilter::with_false_pos`, `seed` and `items`: a filter that can be
/// asked and lets every one of `items` pass; the seed alone determines its
/// hasher. How many bits and hashes it has, and so which other words it lets
/// pass, rests on `rate` and the number of items and is left open: it comes
/// out of floating-point logarithms.
#[verifier::external_body]
fn filter_of(items: &Vec<String>, rate: &str, seed: u128) -> (r: TokenFilter)
    requires
        rate@ == "0.05"@,
    ensures
        is_usable(filter_row(r)),
        filter_row(r).2 == seeded_hasher(seed),
        forall|i: int| 0 <= i < items@.len() ==> passes(filter_row(r), #[trigger] items@[i]@),
{
    let rate = rate.parse().unwrap();
    let inner = fastbloom::BloomFilter::with_false_pos(rate).seed(&seed).items(items.iter());
    TokenFilter { inner }
}

/// The parts of a filter as plain values: bincode writes them one behind the
/// other and reads them again.
#[verifier::external_body]
fn row_of_filter(filter: &TokenFilter) -> (r: FilterRow)
    ensures
        r.deep_view() == filter_row(*filter),
{
    bincode::deserialize(&bincode::serialize(&filter.inner).unwrap()).unwrap()
}

/// `BloomFilter::contains`: the parts of the filter and the word determine
/// the answer. It looks bits up and hashes with a copy of the filter's
/// hasher, so there have to be bits, and the hasher must be able to read on:
/// its count of bytes must not overflow, and fewer than eight bytes may wait.
#[verifier::external_body]
fn filter_contains(filter: &TokenFilter, word: &str) -> (r: bool)
    requires
        is_usable(filter_row(*filter)),
    ensures
        r == passes(filter_row(*filter), word@),
{
    filter.inner.contains(word)
}

/// Represents the index for a single compressed block
pub struct BlockIndex {
    pub session_id: String,
    /// Byte offset in data file
    pub data_offset: u64,
    /// Size of compressed block
    pub compressed_size: u32,
    /// Size of uncompressed data
    pub uncompressed_size: u32,
    /// Number of messages in the block
    pub message_count: u32,
    pub min_time: u64,
    pub max_time: u64,
    pub bloom: TokenFilter,
}

#[verifier::ext_equal]
pub ghost struct IndexView {
    pub session_id: Seq<char>,
    pub data_offset: u64,
    pub compressed_size: u32,
    pub uncompressed_size: u32,
    pub message_count: u32,
    pub min_time: u64,
    pub max_time: u64,
    pub filter: FilterRowView,
}

impl IndexView {
    /// The filter lets the word pass.
    pub open spec fn accepts(self, word: Seq<char>) -> bool {
        passes(self.filter, word)
    }

    /// Every word of the query passes the filter.
    pub open spec fn matches(self, query: Seq<char>) -> bool {
        forall|i: int|
            0 <= i < tokens(query).len() ==> self.accepts(#[trigger] tokens(query)[i])
    }

    /// The filter can be asked, or nothing is asked of it.
    pub open spec fn searchable(self, query: Seq<char>) -> bool {
        is_usable(self.filter) || tokens(query).len() == 0
    }
}

impl DeepView for BlockIndex {
    type V = IndexView;

    open spec fn deep_view(&self) -> IndexView {
        IndexView {
            session_id: self.session_id@,
            data_offset: self.data_offset,
            compressed_size: self.compressed_size,
            uncompressed_size: self.uncompressed_size,
            message_count: self.message_count,
            min_time: self.min_time,
            max_time: self.max_time,
            filter: filter_row(self.bloom),
        }
    }
}

/// Each text once, in the order of first occurrence.
fn distinct(texts: Vec<String>) -> (r: Vec<String>)
    ensures
        r.deep_view().to_set() == texts.deep_view().to_set(),
        r.deep_view().no_duplicates(),
{
    let ghost all = texts.deep_view();
    let mut seen = StringHashSet::new();
    let mut out: Vec<String> = Vec::new();
    assert(out.deep_view().to_set() =~= Set::empty());
    assert(all.take(0).to_set() =~= Set::empty());
    for t in it: texts.into_iter()
        invariant
            it.seq().len() == all.len(),
            forall|k: int| 0 <= k < all.len() ==> (#[trigger] it.seq()[k])@ == all[k],
            seen@ == out.deep_view().to_set(),
            out.deep_view().to_set() == all.take(it.index() as int).to_set(),
            out.deep_view().no_duplicates(),
    {
        let ghost k = it.index() as int;
        let ghost before = out.deep_view();
        assert(t@ == it.seq()[k]@);
        proof {
            assert(all.take(k + 1) =~= all.take(k).push(all[k]));
            assert(all.take(k).push(all[k]).to_set() =~= all.take(k).to_set().insert(all[k])) by {
                lemma_push_to_set(all.take(k), all[k]);
            }
        }
        if !seen.contains(t.as_str()) {
            seen.insert(t.clone());
            out.push(t);
            proof {
                assert(out.deep_view() =~= before.push(all[k]));
                lemma_push_to_set(before, all[k]);
                assert(!before.contains(all[k]));
            }
        } else {
            assert(all.take(k).to_set().insert(all[k]) =~= all.take(k).to_set());
        }
    }
    assert(all.take(all.len() as int) =~= all);
    out
}

proof fn lemma_push_to_set(s: Seq<Seq<char>>, x: Seq<char>)
    ensures
        s.push(x).to_set() == s.to_set().insert(x),
{
    let p = s.push(x);
    assert forall|y: Seq<char>| p.to_set().contains(y) == s.to_set().insert(x).contains(y) by {
        if s.contains(y) {
            let i = choose|i: int| 0 <= i < s.len() && s[i] == y;
            assert(p[i] == y);
        }
        assert(p[s.len() as int] == x);
    }
    assert(p.to_set() =~= s.to_set().insert(x));
}

impl BlockIndex {
    /// Creates a new `BlockIndex`.
    ///
    /// Tokenizes content (alphanumeric, lowercase) into a Bloom filter (5% FP rate).
    ///
    /// # Parameters
    ///
    /// * `session_id` - Unique identifier for this session/block
    /// * `params` - Block parameters
    pub fn new(session_id: String, params: BlockIndexParams) -> (r: Self)
        ensures
            r.session_id@ == session_id@,
            r.data_offset == params.data_offset,
            r.compressed_size == params.compressed_size,
            r.uncompressed_size == params.uncompressed_size,
            r.message_count == params.message_count,
            r.min_time == params.min_time,
            r.max_time == params.max_time,
            is_usable(r.deep_view().filter),
            r.deep_view().filter.2 == seeded_hasher(FILTER_SEED),
            r.deep_view().accepts(session_id@),
            forall|i: int|
                0 <= i < tokens(params.content@).len() ==> r.deep_view().accepts(
                    #[trigger] tokens(params.content@)[i],
                ),
    {
        let mut words = tokens_of(params.content);
        let ghost content = words.deep_view();
        words.push(session_id.clone());
        let ghost all = words.deep_view();
        assert(all =~= content.push(session_id@));
        let items = distinct(words);
        let bloom = filter_of(&items, FALSE_POSITIVE_RATE, FILTER_SEED);
        proof {
            let kept = items.deep_view();
            assert forall|i: int| 0 <= i < all.len() implies passes(
                filter_row(bloom),
                #[trigger] all[i],
            ) by {
                assert(all.to_set().contains(all[i]));
                assert(kept.to_set().contains(all[i]));
                let k = choose|k: int| 0 <= k < kept.len() && kept[k] == all[i];
                assert(items@[k]@ == kept[k]);
            }
            assert(all[content.len() as int] == session_id@);
            assert forall|i: int| 0 <= i < content.len() implies passes(
                filter_row(bloom),
                #[trigger] content[i],
            ) by {
                assert(all[i] == content[i]);
            }
        }
        BlockIndex {
            session_id,
            data_offset: params.data_offset,
            compressed_size: params.compressed_size,
            uncompressed_size: params.uncompressed_size,
            message_count: params.message_count,
            min_time: params.min_time,
            max_time: params.max_time,
            bloom,
        }
    }

    /// Whether the filter can be asked about the words of a query.
    pub fn is_searchable(&self, query: &str) -> (r: bool)
        ensures
            r == self.deep_view().searchable(query@),
    {
        let row = row_of_filter(&self.bloom);
        let usable = row.0.len() > 0 && row.2.2 <= isize::MAX as u64 && row.2.5 < 8;
        usable || tokens_of(query).len() == 0
    }

    /// Whether the block may hold every word of the query.
    pub fn matches(&self, query: &str) -> (r: bool)
        requires
            self.deep_view().searchable(query@),
        ensures
            r == self.deep_view().matches(query@),
    {
        let words = tokens_of(query);
        let mut i: usize = 0;
        while i < words.len()
            invariant
                i <= words@.len(),
                words.deep_view() == tokens(query@),
                self.deep_view().searchable(query@),
                forall|k: int|
                    0 <= k < i ==> self.deep_view().accepts(#[trigger] tokens(query@)[k]),
            decreases words@.len() - i,
        {
            assert(tokens(query@)[i as int] == words@[i as int]@);
            if !filter_contains(&self.bloom, words[i].as_str()) {
                return false;
            }
            i += 1;
        }
        true
    }
}

/// The bytes that `bincode::serialize` gives for an index entry.
pub uninterp spec fn bincode_index(entry: IndexView) -> Seq<u8>;

/// What `bincode::deserialize` reads as an index entry.
pub uninterp spec fn unbincode_index(bytes: Seq<u8>) -> Option<IndexView>;

/// `bincode::serialize` on the fields of an index entry, which it never
/// refuses: the fields and the parts of the filter alone determine the bytes,
/// and `bincode::deserialize` reads the entry back from them.
#[verifier::external_body]
fn serialize_index(index: &BlockIndex) -> (r: Vec<u8>)
    ensures
        r@ == bincode_index(index.deep_view()),
        unbincode_index(r@) == Some(index.deep_view()),
{
    let i = index;
    let sizes = (i.compressed_size, i.uncompressed_size, i.message_count);
    let times = (i.min_time, i.max_time);
    bincode::serialize(&(&i.session_id, i.data_offset, sizes, times, &i.bloom.inner)).unwrap()
}

/// `bincode::deserialize` of an index entry: the bytes alone decide whether
/// it succeeds and what it gives.
#[verifier::external_body]
fn deserialize_index(bytes: &[u8]) -> (r: Option<BlockIndex>)
    ensures
        r.deep_view() == unbincode_index(bytes@),
{
    let (session_id, data_offset, sizes, times, inner) = bincode::deserialize(bytes).ok()?;
    let (compressed_size, uncompressed_size, message_count) = sizes;
    let (min_time, max_time) = times;
    let bloom = TokenFilter { inner };
    Some(BlockIndex {
        session_id, data_offset, compressed_size, uncompressed_size, message_count, min_time,
        max_time, bloom,
    })
}

/// The index entry in a compressed frame, or what stops it from being read.
pub open spec fn entry_value(payload: Seq<u8>) -> Result<IndexView, StorageError> {
    match zstd_decoded(payload) {
        None => Err(StorageError::Decompress),
        Some(raw) => match unbincode_index(raw) {
            None => Err(StorageError::Decode),
            Some(v) => Ok(v),
        },
    }
}

/// Reads an index entry from its compressed frame.
pub fn read_entry(payload: &[u8]) -> (r: Result<BlockIndex, StorageError>)
    ensures
        match r {
            Ok(e) => entry_value(payload@) == Ok::<IndexView, StorageError>(e.deep_view()),
            Err(e) => entry_value(payload@) == Err::<IndexView, StorageError>(e),
        },
{
    match zstd_decode(payload) {
        None => Err(StorageError::Decompress),
        Some(raw) => {
            assert(raw.deep_view() =~= raw@);
            match deserialize_index(raw.as_slice()) {
                None => Err(StorageError::Decode),
                Some(e) => Ok(e),
            }
        },
    }
}

/// The compressed frame that an index entry makes.
pub open spec fn packed_entry(entry: IndexView) -> Option<Seq<u8>> {
    zstd_encoded(bincode_index(entry), COMPRESSION_LEVEL)
}

/// Makes the compressed frame of an index entry. What was written can be
/// read back; nothing comes out only if zstd refuses the bytes of the entry.
pub fn write_entry(index: &BlockIndex) -> (r: Option<Vec<u8>>)
    ensures
        r.deep_view() == packed_entry(index.deep_view()),
        r is Some ==> entry_value(r->0@) == Ok::<IndexView, StorageError>(index.deep_view()),
{
    let raw = serialize_index(index);
    match zstd_encode(raw.as_slice(), COMPRESSION_LEVEL) {
        Some(p) => {
            assert(p.deep_view() =~= p@);
            Some(p)
        },
        None => None,
    }
}

} // verus!
